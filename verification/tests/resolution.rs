use xcode_color_assets::ast::{Color, ColorSet, ColorSetValue, Variable};
use xcode_color_assets::error::{Error, Slot};
use xcode_color_assets::parser::parse_document;
use xcode_color_assets::var_context::{ResolvedVariable, VarContext};

fn reference(name: &[u8], opacity: u16) -> Variable {
    Variable { identifier: name.to_vec(), opacity }
}

#[test]
fn resolve_direct_color() {
    let doc = parse_document(b"$red: #ff0000").unwrap();
    let ctx = VarContext::derive_from(&doc);
    match ctx.resolve(&reference(b"red", 1000)).unwrap() {
        ResolvedVariable::Color(c) => assert_eq!(c, Color { r: 255, g: 0, b: 0, a: 1000 }),
        other => panic!("expected a colour, got {:?}", other),
    }
}

#[test]
fn indirection_applies_outer_opacity() {
    let doc = parse_document(b"$black: #000000\n$grey1: $black").unwrap();
    let ctx = VarContext::derive_from(&doc);
    match ctx.resolve(&reference(b"grey1", 500)).unwrap() {
        ResolvedVariable::Color(c) => assert_eq!(c, Color { r: 0, g: 0, b: 0, a: 500 }),
        other => panic!("expected a colour, got {:?}", other),
    }
    match ctx.resolve(&reference(b"grey1", 1000)).unwrap() {
        ResolvedVariable::Color(c) => assert_eq!(c, Color { r: 0, g: 0, b: 0, a: 1000 }),
        other => panic!("expected a colour, got {:?}", other),
    }
}

#[test]
fn indirection_ignores_inner_opacity() {
    // the override closest to the use site wins; one recorded on an
    // intermediate binding does not accumulate
    let doc = parse_document(b"$base: #102030 80%\n$alias: $base 30%").unwrap();
    let ctx = VarContext::derive_from(&doc);
    match ctx.resolve(&reference(b"alias", 500)).unwrap() {
        ResolvedVariable::Color(c) => {
            // the colour's own alpha is 800; the outer 50% halves it
            assert_eq!(c, Color { r: 16, g: 32, b: 48, a: 400 });
        }
        other => panic!("expected a colour, got {:?}", other),
    }
}

#[test]
fn unknown_identifier_is_reported() {
    let doc = parse_document(b"a: $missing").unwrap();
    let ctx = VarContext::derive_from(&doc);
    match ctx.resolve(&reference(b"missing", 1000)) {
        Err(Error::UnknownIdentifier { identifier }) => {
            assert_eq!(identifier, b"missing".to_vec());
        }
        other => panic!("expected the unknown-identifier error, got {:?}", other),
    }
}

#[test]
fn later_binding_wins() {
    let doc = parse_document(b"$a: #000000\n$a: #ffffff").unwrap();
    let ctx = VarContext::derive_from(&doc);
    match ctx.resolve(&reference(b"a", 1000)).unwrap() {
        ResolvedVariable::Color(c) => assert_eq!(c, Color { r: 255, g: 255, b: 255, a: 1000 }),
        other => panic!("expected a colour, got {:?}", other),
    }
}

#[test]
fn resolve_variable_to_colorset() {
    let doc = parse_document(b"$s: (light: #ffffff, dark: #000000)").unwrap();
    let ctx = VarContext::derive_from(&doc);
    match ctx.resolve(&reference(b"s", 1000)).unwrap() {
        ResolvedVariable::ColorSet(rcs) => {
            assert_eq!(rcs.light, Color { r: 255, g: 255, b: 255, a: 1000 });
            assert_eq!(rcs.dark, Color { r: 0, g: 0, b: 0, a: 1000 });
        }
        other => panic!("expected a colour set, got {:?}", other),
    }
}

#[test]
fn colorset_slot_referencing_colorset_is_a_type_mismatch() {
    let doc = parse_document(b"$set: (light: #ff00ff, dark: #00ff00)").unwrap();
    let ctx = VarContext::derive_from(&doc);
    let cs = ColorSet {
        light: ColorSetValue::Variable(reference(b"set", 1000)),
        dark: ColorSetValue::Color(Color { r: 0, g: 0, b: 0, a: 1000 }),
    };
    match ctx.resolve_colorset(&cs) {
        Err(Error::TypeMismatch { slot, identifier }) => {
            assert_eq!(slot, Slot::Light);
            assert_eq!(identifier, b"set".to_vec());
        }
        other => panic!("expected the type-mismatch error, got {:?}", other),
    }
}

#[test]
fn colorset_dark_slot_mismatch_names_dark() {
    let doc = parse_document(b"$set: (light: #ff00ff, dark: #00ff00)").unwrap();
    let ctx = VarContext::derive_from(&doc);
    let cs = ColorSet {
        light: ColorSetValue::Color(Color { r: 0, g: 0, b: 0, a: 1000 }),
        dark: ColorSetValue::Variable(reference(b"set", 1000)),
    };
    match ctx.resolve_colorset(&cs) {
        Err(Error::TypeMismatch { slot, identifier }) => {
            assert_eq!(slot, Slot::Dark);
            assert_eq!(identifier, b"set".to_vec());
        }
        other => panic!("expected the type-mismatch error, got {:?}", other),
    }
}

#[test]
fn resolve_colorset_with_variable_slots() {
    let doc = parse_document(b"$white: #ffffff\n$black: #000000 50%").unwrap();
    let ctx = VarContext::derive_from(&doc);
    let cs = ColorSet {
        light: ColorSetValue::Variable(reference(b"white", 300)),
        dark: ColorSetValue::Variable(reference(b"black", 1000)),
    };
    let rcs = ctx.resolve_colorset(&cs).unwrap();
    assert_eq!(rcs.light, Color { r: 255, g: 255, b: 255, a: 300 });
    assert_eq!(rcs.dark, Color { r: 0, g: 0, b: 0, a: 500 });
}

#[test]
fn cyclic_reference_is_reported() {
    let doc = parse_document(b"$a: $b\n$b: $a").unwrap();
    let ctx = VarContext::derive_from(&doc);
    match ctx.resolve(&reference(b"a", 1000)) {
        Err(Error::CyclicReference { .. }) => {}
        other => panic!("expected the cyclic-reference error, got {:?}", other),
    }
}
