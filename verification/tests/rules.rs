use xcode_color_assets::ast::{Color, ColorSet, ColorSetValue, RuleSetItem, Variable};
use xcode_color_assets::parser::{colorset, ruleset};

#[test]
fn test_colorset() {
    let val1 = ColorSetValue::Color(Color { r: 255, g: 0, b: 255, a: 300 });
    let val2 = ColorSetValue::Color(Color { r: 0, g: 255, b: 0, a: 1000 });

    let expected_result = ColorSet { light: val1.clone(), dark: val2 };

    let input = b"(light: #ff00ff 30%, dark: #00ff00)";
    let (v1, consumed1) = colorset(input, 0).unwrap();
    assert_eq!(v1, expected_result);
    assert_eq!(consumed1, input.len());

    let input = b"(dark: #00ff00, light: #ff00ff 30%)";
    let (v2, _) = colorset(input, 0).unwrap();
    assert_eq!(v2, expected_result);

    let input = b"(dark: $applicationBackgroundLight, light: #ff00ff 30%)";
    let (v3, _) = colorset(input, 0).unwrap();
    assert_eq!(
        v3,
        ColorSet {
            light: val1,
            dark: ColorSetValue::Variable(Variable {
                identifier: b"applicationBackgroundLight".to_vec(),
                opacity: 1000,
            }),
        }
    );
}

#[test]
fn test_ruleset() {
    let source = r#"root {
      ApplicationBackground: (light: $white, dark: #141517)

      Key {
        Background: (light: $red, dark: #ff00ff)
      }

      AnotherKey {
        Highlight: (light: #cccccc, dark: #000000)
      }
    }"#;
    let (rs, consumed) = ruleset(source.as_bytes(), 0).unwrap();
    assert_eq!(consumed, source.len());
    assert_eq!(rs.identifier, b"root".to_vec());
    assert_eq!(rs.items.len(), 3);
    match &rs.items[0] {
        RuleSetItem::Declaration(d) => {
            assert_eq!(d.identifier, b"ApplicationBackground".to_vec());
        }
        other => panic!("expected a declaration, got {:?}", other),
    }
    match &rs.items[1] {
        RuleSetItem::RuleSet(r) => {
            assert_eq!(r.identifier, b"Key".to_vec());
            assert_eq!(r.items.len(), 1);
        }
        other => panic!("expected a rule set, got {:?}", other),
    }
    match &rs.items[2] {
        RuleSetItem::RuleSet(r) => {
            assert_eq!(r.identifier, b"AnotherKey".to_vec());
            assert_eq!(r.items.len(), 1);
        }
        other => panic!("expected a rule set, got {:?}", other),
    }
}
