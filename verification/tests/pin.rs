use sbd_gen::pin::parse_gpio_name;
use sbd_gen::riot::name2riot_pin;

#[test]
fn test_parse_p_format() {
    assert_eq!(parse_gpio_name("P0_01"), Some((0, 1)));
    assert_eq!(parse_gpio_name("P1_12"), Some((1, 12)));
    assert_eq!(parse_gpio_name("P12_34"), Some((12, 34)));
}

#[test]
fn test_parse_gpio_format() {
    assert_eq!(parse_gpio_name("GPIO15"), Some((0, 15)));
    assert_eq!(parse_gpio_name("GPIO23"), Some((0, 23)));
}

#[test]
fn test_invalid_format() {
    assert_eq!(parse_gpio_name("P0_A1"), None);
    assert_eq!(parse_gpio_name("P_01"), None);
    assert_eq!(parse_gpio_name("GPIO_15"), None);
    assert_eq!(parse_gpio_name("p0_01"), None); // Case sensitive
    assert_eq!(parse_gpio_name("INVALID"), None);
}

#[test]
fn test_eight_bit_bounds() {
    assert_eq!(parse_gpio_name("P255_255"), Some((255, 255)));
    assert_eq!(parse_gpio_name("P256_1"), None);
    assert_eq!(parse_gpio_name("P1_256"), None);
    assert_eq!(parse_gpio_name("GPIO255"), Some((0, 255)));
    assert_eq!(parse_gpio_name("GPIO256"), None);
    assert_eq!(parse_gpio_name("P0_000"), Some((0, 0)));
}

#[test]
fn test_anchored_forms() {
    assert_eq!(parse_gpio_name(""), None);
    assert_eq!(parse_gpio_name("P1_2x"), None);
    assert_eq!(parse_gpio_name("xP1_2"), None);
    assert_eq!(parse_gpio_name("GPIO"), None);
    assert_eq!(parse_gpio_name("P1_"), None);
    assert_eq!(parse_gpio_name("P1_2_3"), None);
}

#[test]
fn test_pin_macro_text() {
    assert_eq!(name2riot_pin("P12_34").unwrap(), "GPIO_PIN(12, 34)");
    assert_eq!(name2riot_pin("GPIO15").unwrap(), "GPIO_PIN(0, 15)");
    let err = name2riot_pin("bogus").unwrap_err();
    assert_eq!(err.name, "bogus");
}
