use xcode_color_assets::ast::Color;
use xcode_color_assets::data::{DeclarationValue, Identifier, RuleSet, RuleSetItem};
use xcode_color_assets::error::Error;
use xcode_color_assets::parser::parse_document;

#[test]
fn end_to_end_text_primary() {
    let source = "Text {\n  Primary: (light: #151618, dark: #E7E8EA)\n}";
    let doc = parse_document(source.as_bytes()).unwrap();
    let tree = RuleSet::derive_from(&doc).unwrap();
    assert_eq!(tree.identifier.short, b"Custom".to_vec());
    assert_eq!(tree.identifier.full, b"".to_vec());
    assert_eq!(tree.items.len(), 1);
    match &tree.items[0] {
        RuleSetItem::RuleSet(text) => {
            assert_eq!(text.identifier.short, b"Text".to_vec());
            assert_eq!(text.identifier.full, b"Text".to_vec());
            assert_eq!(text.items.len(), 1);
            match &text.items[0] {
                RuleSetItem::Declaration(d) => {
                    assert_eq!(d.identifier.short, b"Primary".to_vec());
                    assert_eq!(d.identifier.full, b"TextPrimary".to_vec());
                    match &d.value {
                        DeclarationValue::ColorSet(cs) => {
                            assert_eq!(cs.light, Color { r: 21, g: 22, b: 24, a: 1000 });
                            assert_eq!(cs.dark, Color { r: 231, g: 232, b: 234, a: 1000 });
                        }
                        other => panic!("expected a colour set, got {:?}", other),
                    }
                }
                other => panic!("expected a declaration, got {:?}", other),
            }
        }
        other => panic!("expected a rule set, got {:?}", other),
    }
}

#[test]
fn assembly_is_deterministic_and_idempotent() {
    let source = r#"
    $mediumBright: #aabbcc 33%
    $red: #ff0000
    $white: #ffffff

    ApplicationBackground: (light: $white, dark: #141517)

    Text {
      Primary: (light: #151618, dark: #E7E8EA)
      Secondary: (light: #75767A, dark: #85868A)
    }

    NumericInput {
      ActionKey {
        Background: (light: $red, dark: #ff00ff)
        Highlight: (light: #cccccc, dark: #000000)
      }
    }

    Background: (light: #D6D9DE, dark: #313131)
  "#;
    let doc = parse_document(source.as_bytes()).unwrap();
    let first = RuleSet::derive_from(&doc).unwrap();
    let second = RuleSet::derive_from(&doc).unwrap();
    assert_eq!(first, second);
}

#[test]
fn scopes_are_sorted_by_short_identifier() {
    let source = "b: #000000\na: #ffffff\nZ { y: #111111\n x: #222222\n}";
    let doc = parse_document(source.as_bytes()).unwrap();
    let tree = RuleSet::derive_from(&doc).unwrap();
    let names: Vec<Vec<u8>> = tree
        .items
        .iter()
        .map(|it| match it {
            RuleSetItem::Declaration(d) => d.identifier.short.clone(),
            RuleSetItem::RuleSet(r) => r.identifier.short.clone(),
        })
        .collect();
    assert_eq!(names, vec![b"Z".to_vec(), b"a".to_vec(), b"b".to_vec()]);
    match &tree.items[0] {
        RuleSetItem::RuleSet(z) => {
            let inner: Vec<Vec<u8>> = z
                .items
                .iter()
                .map(|it| match it {
                    RuleSetItem::Declaration(d) => d.identifier.short.clone(),
                    RuleSetItem::RuleSet(r) => r.identifier.short.clone(),
                })
                .collect();
            assert_eq!(inner, vec![b"x".to_vec(), b"y".to_vec()]);
        }
        other => panic!("expected a rule set, got {:?}", other),
    }
}

#[test]
fn unknown_identifier_aborts_assembly() {
    let doc = parse_document(b"a: $missing").unwrap();
    match RuleSet::derive_from(&doc) {
        Err(Error::UnknownIdentifier { identifier }) => {
            assert_eq!(identifier, b"missing".to_vec());
        }
        other => panic!("expected the unknown-identifier error, got {:?}", other),
    }
}

#[test]
fn variables_do_not_appear_in_the_tree() {
    let doc = parse_document(b"$a: #ffffff\nb: $a").unwrap();
    let tree = RuleSet::derive_from(&doc).unwrap();
    assert_eq!(tree.items.len(), 1);
    match &tree.items[0] {
        RuleSetItem::Declaration(d) => {
            assert_eq!(d.identifier.short, b"b".to_vec());
            assert_eq!(d.value, DeclarationValue::Color(Color { r: 255, g: 255, b: 255, a: 1000 }));
        }
        other => panic!("expected a declaration, got {:?}", other),
    }
}

#[test]
fn qualified_identifiers_concatenate() {
    let root = Identifier::new();
    assert_eq!(root.short, b"Custom".to_vec());
    assert_eq!(root.full, b"".to_vec());
    assert_eq!(root.depth, 1);
    let text = root.appending(&b"Text".to_vec());
    assert_eq!(text.short, b"Text".to_vec());
    assert_eq!(text.full, b"Text".to_vec());
    assert_eq!(text.depth, 2);
    let primary = text.appending(&b"Primary".to_vec());
    assert_eq!(primary.short, b"Primary".to_vec());
    assert_eq!(primary.full, b"TextPrimary".to_vec());
    assert_eq!(primary.depth, 3);
}
