use xcode_color_assets::parser::parse_document;

fn ok(contents: &str) {
    let r = parse_document(contents.as_bytes());
    assert!(r.is_ok(), "expected Ok for {:?}, got {:?}", contents, r.err());
}

fn fails(contents: &str) {
    let r = parse_document(contents.as_bytes());
    assert!(r.is_err(), "expected Err for {:?}", contents);
}

#[test]
fn parser_empty_document() {
    ok("");
}

#[test]
fn parser_variable_only() {
    ok("$var: #ff00ff");
}

#[test]
fn parser_declaration_only() {
    ok("a: #00ff00");
}

#[test]
fn parser_empty_ruleset() {
    ok("a {}");
    ok("\n    a { b {}\n    }\n  ");
}

#[test]
fn parser_variable_declaration_ruleset_order() {
    ok("\n      a: $var\n      a {}\n      $var: #ff00ff\n  ");
    ok("\n      $var: #ff00ff\n      a {}\n      a: $var\n  ");
}

#[test]
fn parser_garbage_doc() {
    fails("something");
    fails(".");
    fails("{}");
    fails("$");
}

#[test]
fn parser_color_variables() {
    ok("$myColor : #ff00ff 44%");
    ok("$a :#4224be");
    ok("$a1: #4B0FC6");
    ok("$a1: $a0");
    ok("$a: rgba(0, 127, 255, 0.5)");
    ok("$a: rgba (0, 127, 255, 0.5)");
    ok("$a: (light: #ff00ff, dark: #00ff00)");
}

#[test]
fn parser_garbage_hex_value() {
    fails("a: #ff0zff");
    fails("a: #fff");
    fails("a: #ffffff 33?");
    fails("a: #fffffff");
}

#[test]
fn parser_garbage_rgba_values() {
    fails("$a: rgba(0, 127; 255, 0.5)");
    fails("$a: rgba0, 127, 255, 0.5)");
    fails("$a: rgba(0, 300, 255, 0.5)");
}

#[test]
fn parser_color_sets() {
    ok(r#"
    a: (light: #ff00ff 30%, dark: #00ff00)
    b: (dark: #00ff00, light: #ff00ff 30%)
    c: (dark: $applicationBackgroundLight, light: #ff00ff 30%)
    d: (light: rgba(33, 199, 201, 1), dark: #ff00ff 30%)
  "#);
}

#[test]
fn parser_typos_in_color_sets() {
    fails("\n    a: (light = #ff00ff 30%, dark: #00ff00)\n  ");
    fails("\n    a: (light: #ff00ff 30%; dark: #00ff00)\n  ");
    fails("\n    a: (light: #ff00ff 30%, dark: variable)\n  ");
    fails("\n    a: [light: #ff00ff 30%, dark: #00ff00)\n  ");
    fails("\n    a: (light: #ff00ff 30%, dark: #00ff00]\n  ");
    fails(
        "\n    a: (light: #ff00ff 30%, dark: #00ff00)\n    b: (dark: #00ff00, light: #ff00ff 30%)\n    c: (dark: .applicationBackgroundLight, light: #ff00ff 30%)\n  ",
    );
}

#[test]
fn parser_document() {
    ok(r#"
    $mediumBright: #aabbcc 33%
    $red: #ff0000
    $white: #ffffff

    ApplicationBackground: (light: $white, dark: #141517)

    Text {
      Primary: (light: #151618, dark: #E7E8EA)
      Secondary: (light: #75767A, dark: #85868A)
    }

    NumericInput {
      ActionKey {
        Background: (light: $red, dark: #ff00ff)
        Highlight: (light: #cccccc, dark: #000000)
      }
    }

    Background: (light: #D6D9DE, dark: #313131)
  "#);
}
