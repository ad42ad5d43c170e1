use xcode_color_assets::asset_catalog::{alpha_component, color_components, hex_component};
use xcode_color_assets::ast::Color;
use xcode_color_assets::error::Error;
use xcode_color_assets::parser::{identifier, parse_hex_value, variable_identifier};

#[test]
fn hex_components_are_uppercase_with_prefix() {
    assert_eq!(hex_component(0), b"0x00".to_vec());
    assert_eq!(hex_component(255), b"0xFF".to_vec());
    assert_eq!(hex_component(66), b"0x42".to_vec());
    assert_eq!(hex_component(190), b"0xBE".to_vec());
    assert_eq!(hex_component(10), b"0x0A".to_vec());
}

#[test]
fn alpha_components_have_three_fractional_digits() {
    assert_eq!(alpha_component(0), b"0.000".to_vec());
    assert_eq!(alpha_component(1000), b"1.000".to_vec());
    assert_eq!(alpha_component(300), b"0.300".to_vec());
    assert_eq!(alpha_component(440), b"0.440".to_vec());
    assert_eq!(alpha_component(505), b"0.505".to_vec());
}

#[test]
fn components_of_a_color() {
    let c = Color { r: 21, g: 22, b: 24, a: 300 };
    let (r, g, b, a) = color_components(&c);
    assert_eq!(r, b"0x15".to_vec());
    assert_eq!(g, b"0x16".to_vec());
    assert_eq!(b, b"0x18".to_vec());
    assert_eq!(a, b"0.300".to_vec());
}

#[test]
fn parse_hex_values() {
    assert_eq!(parse_hex_value(b"ff"), Some(255));
    assert_eq!(parse_hex_value(b"4224be"), Some(0x4224be));
    assert_eq!(parse_hex_value(b"4B0FC6"), Some(0x4B0FC6));
    assert_eq!(parse_hex_value(b"0"), Some(0));
    assert_eq!(parse_hex_value(b"ffffffff"), Some(0xffffffff));
    assert_eq!(parse_hex_value(b""), None);
    assert_eq!(parse_hex_value(b"fz"), None);
    assert_eq!(parse_hex_value(b"100000000"), None);
}

#[test]
fn identifier_scanning() {
    assert_eq!(identifier(b"  foo: bar", 0), Some((b"foo".to_vec(), 5)));
    assert_eq!(identifier(b"!", 0), None);
    assert_eq!(variable_identifier(b" $a1 ", 0), Some((b"a1".to_vec(), 4)));
    assert_eq!(variable_identifier(b"a1", 0), None);
    assert_eq!(variable_identifier(b"$ a", 0), None);
}

#[test]
fn error_new_wraps_a_message() {
    let e = Error::new(String::from("no colour here"));
    match e {
        Error::ResolveError { message } => assert_eq!(message, "no colour here"),
        other => panic!("expected a resolve error, got {:?}", other),
    }
}
