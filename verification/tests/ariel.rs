use sbd_gen::ariel::generate;
use sbd_gen::doc::{Document, ScalarVal};
use sbd_gen::schema::sbd_from_doc;

fn s(text: &str) -> Document {
    Document::scalar(ScalarVal::Str(text.to_owned()))
}

fn m(pairs: Vec<(&str, Document)>) -> Document {
    Document::mapping_of(pairs.into_iter().map(|(k, v)| (k.to_owned(), v)).collect())
}

fn l(items: Vec<Document>) -> Document {
    Document::list(items)
}

fn fixture() -> sbd_gen::model::SbdFile {
    let doc = m(vec![
        ("ariel", m(vec![("chips", l(vec![s("c1")]))])),
        (
            "boards",
            m(vec![
                (
                    "b1",
                    m(vec![
                        ("chip", s("c1")),
                        ("leds", m(vec![("led0", m(vec![("pin", s("P0_01"))]))])),
                        (
                            "quirks",
                            l(vec![m(vec![("type", s("set_pin")), ("pin", s("P0_02"))])]),
                        ),
                    ]),
                ),
                ("b2", m(vec![("chip", s("nope"))])),
            ]),
        ),
    ]);
    sbd_from_doc(&doc).unwrap()
}

#[test]
fn test_unknown_chip_board_never_appears() {
    let (krate, warnings) = generate(&fixture());
    let files = krate.render();
    assert!(files.get("src/b1.rs").is_some());
    assert!(files.get("src/b2.rs").is_none());
    let lib_rs = files.get("src/lib.rs").unwrap();
    assert!(lib_rs.contains("b1"));
    assert!(!lib_rs.contains("b2"));
    assert_eq!(
        warnings,
        vec!["warning: skipping board b2, unknown chip nope".to_owned()]
    );
}

#[test]
fn test_empty_catalog_warns_and_degrades() {
    let doc = m(vec![(
        "boards",
        m(vec![("b1", m(vec![("chip", s("c1"))]))]),
    )]);
    let sbd = sbd_from_doc(&doc).unwrap();
    let (krate, warnings) = generate(&sbd);
    let files = krate.render();
    assert!(files.get("src/b1.rs").is_none());
    assert_eq!(
        warnings,
        vec![
            "warning: No chips defined for Ariel OS".to_owned(),
            "warning: skipping board b1, unknown chip c1".to_owned(),
            "warning: No boards defined for Ariel OS".to_owned(),
        ]
    );
}

#[test]
fn test_board_module_content() {
    let (krate, _) = generate(&fixture());
    let files = krate.render();
    let expected = [
            "// @generated\n\n",
            "pub mod pins {\n",
            "use ariel_os_hal::hal::peripherals;\n\n",
            "#[cfg(context = \"b1\")]\n",
            "ariel_os_hal::define_peripherals!(LedPeripherals {\n",
            "led0: P0_01,\n",
            "});\n",
            "}\n",
            "\n#[allow(unused_variables)]\n",
            "pub fn init(peripherals: &mut ariel_os_hal::hal::OptionalPeripherals) {\n",
            "{\n",
            "    let pin = peripherals.P0_02.take().unwrap();\n",
            "    let output = ariel_os_hal::gpio::Output::new(pin, ariel_os_embassy_common::gpio::Level::High);\n",
            "    core::mem::forget(output);\n",
            "}\n",
            "}\n",
        ].join("");
    assert_eq!(files.get("src/b1.rs").unwrap(), &expected);
}

#[test]
fn test_dispatch_and_build_helper_content() {
    let (krate, _) = generate(&fixture());
    let files = krate.render();
    let expected_lib = format!(
        "{}{}{}",
        "// @generated\n\n#![no_std]\n\ncfg_if::cfg_if! {\n    if #[cfg(context = \"b1\")] {\n",
        format!("        inclu{}", "de!(\"b1.rs\");\n"),
        "    } else {\n        // no board context selected\n    }\n}\n",
    );
    assert_eq!(files.get("src/lib.rs").unwrap(), &expected_lib);
    let expected_build = [
        "// @generated\n",
        "pub fn main() {\n",
        "    println!(\"cargo::rustc-check-cfg=cfg(context, values(\\\"b1\\\"))\");\n",
        "}\n",
    ]
    .join("");
    assert_eq!(files.get("build.rs").unwrap(), &expected_build);
}

#[test]
fn test_manifest_content() {
    let (krate, _) = generate(&fixture());
    let files = krate.render();
    let expected = [
            "[package]\nname = \"ariel-os-boards\"\n",
            "\n[package.edition]\nworkspace = true\n",
            "\n[package.license]\nworkspace = true\n",
            "\n[package.rust-version]\nworkspace = true\n",
            "\n[dependencies.ariel-os-embassy-common]\nworkspace = true\n",
            "\n[dependencies.ariel-os-hal]\nworkspace = true\n",
            "\n[dependencies.cfg-if]\nworkspace = true\n",
            "\n[features]\nno-boards = []\n",
        ].join("");
    assert_eq!(files.get("Cargo.toml").unwrap(), &expected);
}

#[test]
fn test_laze_file_content() {
    let doc = m(vec![
        ("ariel", m(vec![("chips", l(vec![s("c1")]))])),
        (
            "boards",
            m(vec![(
                "b1",
                m(vec![
                    ("chip", s("c1")),
                    ("flags", l(vec![s("zflag"), s("aflag")])),
                    (
                        "ariel",
                        m(vec![
                            ("swi", s("SWI_IRQ")),
                            ("global_env", m(vec![("KEY", s("value"))])),
                        ]),
                    ),
                ]),
            )]),
        ),
    ]);
    let sbd = sbd_from_doc(&doc).unwrap();
    let (krate, _) = generate(&sbd);
    let files = krate.render();
    let expected = [
            "# yamllint disable-file\n\n",
            "builders:\n",
            "- name: b1\n",
            "  parent: c1\n",
            "  provides:\n",
            "  - aflag\n",
            "  - has_swi\n",
            "  - zflag\n",
            "  env:\n",
            "    CARGO_ENV:\n",
            "    - CONFIG_SWI=SWI_IRQ\n",
            "    KEY: value\n",
        ].join("");
    assert_eq!(files.get("laze.yml").unwrap(), &expected);
}
