use sbd_gen::doc::{Document, ScalarVal};
use sbd_gen::riot::generate;
use sbd_gen::schema::sbd_from_doc;

fn s(text: &str) -> Document {
    Document::scalar(ScalarVal::Str(text.to_owned()))
}

fn m(pairs: Vec<(&str, Document)>) -> Document {
    Document::mapping_of(pairs.into_iter().map(|(k, v)| (k.to_owned(), v)).collect())
}

fn l(items: Vec<Document>) -> Document {
    Document::list(items)
}

fn conf_h_path(board: &str) -> String {
    format!("{}/inclu{}", board, "de/periph_conf.h")
}

fn catalog() -> (&'static str, Document) {
    (
        "riot",
        m(vec![(
            "chips",
            m(vec![(
                "chipA",
                m(vec![
                    ("cpu", s("cortex")),
                    ("cpu_model", s("cm123")),
                    (
                        "quirks",
                        m(vec![(
                            "periph_conf.h",
                            m(vec![("body", l(vec![s("SNIP LINE\n")]))]),
                        )]),
                    ),
                    (
                        "peripherals",
                        m(vec![(
                            "uarts",
                            m(vec![(
                                "u0",
                                m(vec![
                                    ("config", m(vec![("baud", s("115200"))])),
                                    ("isr", s("ISR_U0")),
                                ]),
                            )]),
                        )]),
                    ),
                ]),
            )]),
        )]),
    )
}

#[test]
fn test_uart_single_assignment() {
    // Two UART requirements, a pool of one: the debugger's UART draws the
    // only peripheral, the board's own exhausts the pool and is skipped
    // with a warning.
    let doc = m(vec![
        catalog(),
        (
            "boards",
            m(vec![(
                "b1",
                m(vec![
                    ("chip", s("chipA")),
                    (
                        "debugger",
                        m(vec![
                            ("type", s("jlink")),
                            (
                                "uart",
                                m(vec![("rx_pin", s("P0_01")), ("tx_pin", s("P0_02"))]),
                            ),
                        ]),
                    ),
                    (
                        "uarts",
                        m(vec![(
                            "u1",
                            m(vec![("rx_pin", s("GPIO1")), ("tx_pin", s("GPIO2"))]),
                        )]),
                    ),
                ]),
            )]),
        ),
    ]);
    let sbd = sbd_from_doc(&doc).unwrap();
    let (files, warnings) = generate(&sbd).unwrap();
    assert!(warnings.contains(&"warning: b1: no peripheral found for UART u1".to_owned()));
    let conf = files.get(conf_h_path("b1").as_str()).unwrap();
    let expected_block = [
            "\nstatic const uart_conf_t uart_config[] = {\n",
            "    {\n",
            "        .baud = 115200,\n",
            "        .rx_pin = GPIO_PIN(0, 1),\n",
            "        .tx_pin = GPIO_PIN(0, 2),\n",
            "    },\n",
            "};\n\n",
            "#define UART_0_ISR          (ISR_U0)\n",
            "#define UART_NUMOF          ARRAY_SIZE(uart_config)\n\n",
        ].join("");
    assert!(conf.contains(&expected_block));
    // exactly one configuration struct in the array
    assert_eq!(conf.matches("    {\n").count(), 1);
    let features = files.get("b1/Makefile.features").unwrap();
    assert_eq!(
        features,
        "CPU = cortex\nCPU_MODEL = cm123\nFEATURES_PROVIDED += periph_uart\n"
    );
    let inc = files.get(format!("b1/Makefile.inclu{}", "de").as_str()).unwrap();
    assert_eq!(inc, "PROGRAMMER ?= jlink\n");
}

#[test]
fn test_quirk_round_trip() {
    // A board with one pin quirk and neither debugger nor UARTs: the
    // header holds exactly the snippet the catalog registers under its
    // filename, no UART array appears, and no UART feature line is given.
    let doc = m(vec![
        catalog(),
        (
            "boards",
            m(vec![(
                "b2",
                m(vec![
                    ("chip", s("chipA")),
                    (
                        "quirks",
                        l(vec![m(vec![
                            ("type", s("set_pin")),
                            ("pin", s("P0_01")),
                            ("level", s("low")),
                        ])]),
                    ),
                ]),
            )]),
        ),
    ]);
    let sbd = sbd_from_doc(&doc).unwrap();
    let (files, _) = generate(&sbd).unwrap();
    let conf = files.get(conf_h_path("b2").as_str()).unwrap();
    let expected = format!(
        "#pragma once\n\n#inclu{}#inclu{}\n#ifdef __cplusplus\next{}SNIP LINE\n#ifdef __cplusplus\n}}\n#endif\n",
        "de \"kernel_defines.h\"\n",
        "de \"periph_cpu.h\"\n",
        "ern \"C\" {\n#endif\n\n",
    );
    assert_eq!(conf, &expected);
    assert!(!conf.contains("uart_config"));
    let features = files.get("b2/Makefile.features").unwrap();
    assert_eq!(features, "CPU = cortex\nCPU_MODEL = cm123\n");
    assert!(!features.contains("periph_uart"));
    let makefile = files.get("b2/Makefile").unwrap();
    assert_eq!(
        makefile,
        &format!("MODULE = board\ninclu{}", "de $(RIOTBASE)/Makefile.base\n")
    );
    assert_eq!(files.get("b2/Makefile.dep").unwrap(), "");
}

#[test]
fn test_unknown_chip_board_dropped_riot() {
    let doc = m(vec![
        catalog(),
        (
            "boards",
            m(vec![
                ("b1", m(vec![("chip", s("chipA"))])),
                ("b9", m(vec![("chip", s("unknown"))])),
            ]),
        ),
    ]);
    let sbd = sbd_from_doc(&doc).unwrap();
    let (files, warnings) = generate(&sbd).unwrap();
    assert!(files.get(conf_h_path("b1").as_str()).is_some());
    assert!(files.get(conf_h_path("b9").as_str()).is_none());
    assert!(warnings.contains(&"warning: skipping board b9, unknown chip unknown".to_owned()));
}

#[test]
fn test_bad_pin_name_is_error() {
    let doc = m(vec![
        catalog(),
        (
            "boards",
            m(vec![(
                "b1",
                m(vec![
                    ("chip", s("chipA")),
                    (
                        "uarts",
                        m(vec![(
                            "u1",
                            m(vec![("rx_pin", s("bogus")), ("tx_pin", s("GPIO2"))]),
                        )]),
                    ),
                ]),
            )]),
        ),
    ]);
    let sbd = sbd_from_doc(&doc).unwrap();
    let err = generate(&sbd).unwrap_err();
    assert_eq!(err.name, "bogus");
}
