use xcode_color_assets::ast::{Color, ColorSetValue, DocumentItem, Value};
use xcode_color_assets::error::Error;
use xcode_color_assets::parser::parse_document;

fn ok(contents: &str) {
    let r = parse_document(contents.as_bytes());
    assert!(r.is_ok(), "expected Ok for {:?}, got {:?}", contents, r.err());
}

fn fails(contents: &str) {
    let r = parse_document(contents.as_bytes());
    assert!(r.is_err(), "expected Err for {:?}", contents);
}

#[test]
fn empty_document() {
    let doc = parse_document(b"").unwrap();
    assert_eq!(doc.items.len(), 0);
}

#[test]
fn variable_only() {
    let doc = parse_document(b"$var: #ff00ff").unwrap();
    assert_eq!(doc.items.len(), 1);
    match &doc.items[0] {
        DocumentItem::Variable(d) => {
            assert_eq!(d.identifier, b"var".to_vec());
            assert_eq!(d.value, Value::Color(Color { r: 255, g: 0, b: 255, a: 1000 }));
        }
        other => panic!("expected a variable, got {:?}", other),
    }
}

#[test]
fn declaration_only() {
    let doc = parse_document(b"a: #00ff00").unwrap();
    assert_eq!(doc.items.len(), 1);
    match &doc.items[0] {
        DocumentItem::Declaration(d) => {
            assert_eq!(d.identifier, b"a".to_vec());
            assert_eq!(d.value, Value::Color(Color { r: 0, g: 255, b: 0, a: 1000 }));
        }
        other => panic!("expected a declaration, got {:?}", other),
    }
}

#[test]
fn empty_ruleset() {
    ok("a {}");
    ok("\n    a { b {}\n    }\n  ");
}

#[test]
fn variable_declaration_ruleset_order() {
    ok("\n      a: $var\n      a {}\n      $var: #ff00ff\n  ");
    ok("\n      $var: #ff00ff\n      a {}\n      a: $var\n  ");
}

#[test]
fn garbage_doc() {
    fails("something");
    fails(".");
    fails("{}");
    fails("$");
}

#[test]
fn color_variables() {
    ok("$myColor : #ff00ff 44%");
    ok("$a :#4224be");
    ok("$a1: #4B0FC6");
    ok("$a1: $a0");
    ok("$a: rgba(0, 127, 255, 0.5)");
    ok("$a: rgba (0, 127, 255, 0.5)");
    ok("$a: (light: #ff00ff, dark: #00ff00)");
    ok("$a: $b 50%");
}

#[test]
fn garbage_hex_value() {
    fails("a: #ff0zff");
    fails("a: #fff");
    fails("a: #ffffff 33?");
    fails("a: #fffffff");
}

#[test]
fn garbage_rgba_values() {
    fails("$a: rgba(0, 127; 255, 0.5)");
    fails("$a: rgba0, 127, 255, 0.5)");
    fails("$a: rgba(0, 300, 255, 0.5)");
}

#[test]
fn comments() {
    ok("\n    $bar: #ff0000 // red\n    $foo: #000000\n  ");
    ok("$foo: #000000 // black");
    ok("\n    // red\n    $bar: #0000ff\n  ");
    ok("\n    $bar: #0000ff\n    // red\n  ");
    ok("a {} // test");
    ok("\n    a { b {} // test\n    }\n  ");
    ok("\n    a {\n      // test\n    }\n  ");
    ok("\n    $a: #ff00ff\n    // test\n    // test\n    $b: #ff00ff\n  ");
    ok("\n    // test\n    // test\n    $a: #ff00ff\n  ");
    ok("\n    // test\n    // test\n\n    // test\n\n    // test\n    // test\n    $a: #ff00ff\n  ");
    ok(r#"
    // 1
    $a: #ff00ff // 2
    $b: #ff00ff 50% // 3
    $c: rgba(1, 2, 3, 0.0) // 4
    $d: $a 30% // 5
    $e: (light: $a, dark: #00ff00 33%) // 6

    Hello { // test
    // test
      A: $a
    }

    // 7
    A { // 8
      // 9
      B: $e // 10
      // 11
      C { // 12
        D: (light: $a, dark: #cccccc) // 13
      } // 14
      // 15
    } // 16
  "#);
}

#[test]
fn color_sets() {
    ok(r#"
    a: (light: #ff00ff 30%, dark: #00ff00)
    b: (dark: #00ff00, light: #ff00ff 30%)
    c: (dark: $applicationBackgroundLight, light: #ff00ff 30%)
    d: (light: rgba(33, 199, 201, 1), dark: #ff00ff 30%)
  "#);
}

#[test]
fn typos_in_color_sets() {
    fails("\n    a: (light = #ff00ff 30%, dark: #00ff00)\n  ");
    fails("\n    a: (light: #ff00ff 30%; dark: #00ff00)\n  ");
    fails("\n    a: (light: #ff00ff 30%, dark: variable)\n  ");
    fails("\n    a: [light: #ff00ff 30%, dark: #00ff00)\n  ");
    fails("\n    a: (light: #ff00ff 30%, dark: #00ff00]\n  ");
    fails(
        "\n    a: (light: #ff00ff 30%, dark: #00ff00)\n    b: (dark: #00ff00, light: #ff00ff 30%)\n    c: (dark: .applicationBackgroundLight, light: #ff00ff 30%)\n  ",
    );
}

#[test]
fn document() {
    let source = r#"
    $mediumBright: #aabbcc 33%
    $red: #ff0000
    $white: #ffffff

    ApplicationBackground: (light: $white, dark: #141517)

    Text {
      Primary: (light: #151618, dark: #E7E8EA)
      Secondary: (light: #75767A, dark: #85868A)
    }

    NumericInput {
      ActionKey {
        Background: (light: $red, dark: #ff00ff)
        Highlight: (light: #cccccc, dark: #000000)
      }
    }

    Background: (light: #D6D9DE, dark: #313131)
  "#;
    let doc = parse_document(source.as_bytes()).unwrap();
    assert_eq!(doc.items.len(), 7);
}

#[test]
fn invalid_colorset_labels_are_reported() {
    let r = parse_document(b"a: (light: #ff00ff, height: #00ff00)");
    match r {
        Err(Error::InvalidColorSetDeclaration { first, second }) => {
            assert_eq!(first, b"light".to_vec());
            assert_eq!(second, b"height".to_vec());
        }
        other => panic!("expected the label error, got {:?}", other),
    }
}

#[test]
fn hex_literal_channels_and_alpha() {
    let doc = parse_document(b"$a: #4224be\n$b: #ff00ff 44%\n$c: #4B0FC6").unwrap();
    let expected = [
        (b"a".to_vec(), Color { r: 66, g: 36, b: 190, a: 1000 }),
        (b"b".to_vec(), Color { r: 255, g: 0, b: 255, a: 440 }),
        (b"c".to_vec(), Color { r: 75, g: 15, b: 198, a: 1000 }),
    ];
    for (item, (name, color)) in doc.items.iter().zip(expected.iter()) {
        match item {
            DocumentItem::Variable(d) => {
                assert_eq!(&d.identifier, name);
                assert_eq!(d.value, Value::Color(*color));
            }
            other => panic!("expected a variable, got {:?}", other),
        }
    }
}

#[test]
fn rgba_literal_values() {
    let doc = parse_document(b"$c: rgba(25,200,255,1)").unwrap();
    match &doc.items[0] {
        DocumentItem::Variable(d) => {
            assert_eq!(d.value, Value::Color(Color { r: 25, g: 200, b: 255, a: 1000 }));
        }
        other => panic!("expected a variable, got {:?}", other),
    }
    let doc = parse_document(b"$h: rgba(0, 127, 255, 0.5)").unwrap();
    match &doc.items[0] {
        DocumentItem::Variable(d) => {
            assert_eq!(d.value, Value::Color(Color { r: 0, g: 127, b: 255, a: 500 }));
        }
        other => panic!("expected a variable, got {:?}", other),
    }
}

#[test]
fn variable_reference_opacity() {
    let doc = parse_document(b"a: $b 50%").unwrap();
    match &doc.items[0] {
        DocumentItem::Declaration(d) => match &d.value {
            Value::Variable(v) => {
                assert_eq!(v.identifier, b"b".to_vec());
                assert_eq!(v.opacity, 500);
            }
            other => panic!("expected a variable reference, got {:?}", other),
        },
        other => panic!("expected a declaration, got {:?}", other),
    }
}

#[test]
fn colorset_slot_order_is_irrelevant() {
    let doc1 = parse_document(b"a: (light: #ff00ff 30%, dark: #00ff00)").unwrap();
    let doc2 = parse_document(b"a: (dark: #00ff00, light: #ff00ff 30%)").unwrap();
    let cs1 = match &doc1.items[0] {
        DocumentItem::Declaration(d) => match &d.value {
            Value::ColorSet(cs) => cs.clone(),
            other => panic!("expected a colour set, got {:?}", other),
        },
        other => panic!("expected a declaration, got {:?}", other),
    };
    let cs2 = match &doc2.items[0] {
        DocumentItem::Declaration(d) => match &d.value {
            Value::ColorSet(cs) => cs.clone(),
            other => panic!("expected a declaration, got {:?}", other),
        },
        other => panic!("expected a declaration, got {:?}", other),
    };
    assert_eq!(cs1, cs2);
    assert_eq!(
        cs1.light,
        ColorSetValue::Color(Color { r: 255, g: 0, b: 255, a: 300 })
    );
    assert_eq!(cs1.dark, ColorSetValue::Color(Color { r: 0, g: 255, b: 0, a: 1000 }));
}

#[test]
fn percentage_above_hundred_is_rejected() {
    fails("$a: #ff00ff 150%");
}

#[test]
fn rgba_alpha_above_one_is_rejected() {
    fails("$a: rgba(0, 0, 0, 1.5)");
}

#[test]
fn rgba_accepts_surrounding_whitespace() {
    ok("$a: rgba(0, 0, 0, 0.5 )");
    ok("$a: rgba( 0,0,0,1 )");
    ok("$a: rgba(0,0,0,.5)");
}

#[test]
fn hex_alpha_percentage_values() {
    let doc = parse_document(b"$m: #aabbcc 33%").unwrap();
    match &doc.items[0] {
        DocumentItem::Variable(d) => {
            assert_eq!(d.value, Value::Color(Color { r: 170, g: 187, b: 204, a: 330 }));
        }
        other => panic!("expected a variable, got {:?}", other),
    }
}

#[test]
fn grammar_failures_are_parse_errors() {
    match parse_document(b"something") {
        Err(Error::ParseError { .. }) => {}
        other => panic!("expected a parse error, got {:?}", other),
    }
}
