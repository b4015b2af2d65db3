use robinson::css::{
    parse_css, Color, Declaration, Rule, Selector, SimpleSelector, Stylesheet, Unit, Value,
};
use robinson::ParseError;

fn magnitude(v: &Value) -> f32 {
    match v {
        Value::Length(n, _) => n.parse::<f32>().unwrap(),
        _ => panic!("not a length"),
    }
}

#[test]
fn css_parse_simple_css() {
    let input = r#"
            h1 { padding: 10px; }
        "#
    .to_string();

    let sheet = parse_css(input).unwrap();
    assert_eq!(
        sheet,
        Stylesheet {
            rules: vec![Rule {
                selectors: vec![Selector::Simple(SimpleSelector {
                    tag_name: Some("h1".to_string()),
                    id: None,
                    class: Vec::new(),
                })],
                declarations: vec![Declaration {
                    name: "padding".to_string(),
                    value: Value::Length("10".to_string(), Unit::Px),
                }]
            }]
        }
    );
    assert_eq!(magnitude(&sheet.rules[0].declarations[0].value), 10.0);
}

#[test]
fn parse_simple_css_with_color() {
    let input = r#"
            h1 { color: #aabbcc; }
        "#
    .to_string();

    assert_eq!(
        parse_css(input).unwrap(),
        Stylesheet {
            rules: vec![Rule {
                selectors: vec![Selector::Simple(SimpleSelector {
                    tag_name: Some("h1".to_string()),
                    id: None,
                    class: Vec::new(),
                })],
                declarations: vec![Declaration {
                    name: "color".to_string(),
                    value: Value::ColorValue(Color { r: 0xAA, g: 0xBB, b: 0xCC, a: 255 })
                }]
            }]
        }
    )
}

#[test]
fn parsing_complex_css() {
    let input = r#"
            h1, div.bar, #foo { padding: 10px; color: inherit; }
        "#
    .to_string();

    let sheet = parse_css(input).unwrap();
    assert_eq!(
        sheet,
        Stylesheet {
            rules: vec![Rule {
                selectors: vec![
                    Selector::Simple(SimpleSelector {
                        tag_name: Some("h1".to_string()),
                        id: None,
                        class: Vec::new(),
                    }),
                    Selector::Simple(SimpleSelector {
                        tag_name: Some("div".to_string()),
                        id: None,
                        class: vec!["bar".to_string()],
                    }),
                    Selector::Simple(SimpleSelector {
                        tag_name: None,
                        id: Some("foo".to_string()),
                        class: Vec::new(),
                    }),
                ],
                declarations: vec![
                    Declaration {
                        name: "padding".to_string(),
                        value: Value::Length("10".to_string(), Unit::Px)
                    },
                    Declaration {
                        name: "color".to_string(),
                        value: Value::Keyword("inherit".to_string()),
                    }
                ]
            }]
        }
    );
    assert_eq!(magnitude(&sheet.rules[0].declarations[0].value), 10.0);
}

#[test]
fn empty_declaration_block() {
    assert_eq!(
        parse_css("h1 {}".to_string()).unwrap(),
        Stylesheet {
            rules: vec![Rule {
                selectors: vec![Selector::Simple(SimpleSelector {
                    tag_name: Some("h1".to_string()),
                    id: None,
                    class: Vec::new(),
                })],
                declarations: vec![],
            }]
        }
    );
}

#[test]
fn empty_stylesheet() {
    assert_eq!(parse_css(String::new()).unwrap(), Stylesheet { rules: vec![] });
    assert_eq!(parse_css("  \n ".to_string()).unwrap(), Stylesheet { rules: vec![] });
}

#[test]
fn classes_keep_order_and_tag_name_last_wins() {
    let sheet = parse_css("div.b.a.b h2 { }".to_string()).unwrap();
    assert_eq!(
        sheet.rules[0].selectors,
        vec![Selector::Simple(SimpleSelector {
            tag_name: Some("h2".to_string()),
            id: None,
            class: vec!["b".to_string(), "a".to_string(), "b".to_string()],
        })]
    );
}

#[test]
fn fractional_length_and_upper_case_unit() {
    let sheet = parse_css("p { margin: 1.5PX; }".to_string()).unwrap();
    let v = &sheet.rules[0].declarations[0].value;
    assert_eq!(*v, Value::Length("1.5".to_string(), Unit::Px));
    assert_eq!(magnitude(v), 1.5);
}

#[test]
fn color_digits_in_both_cases() {
    let sheet = parse_css("a { color: #0aF0ff; }".to_string()).unwrap();
    assert_eq!(
        sheet.rules[0].declarations[0].value,
        Value::ColorValue(Color { r: 10, g: 240, b: 255, a: 255 })
    );
}

#[test]
fn several_rules_in_order() {
    let sheet = parse_css("a { x: y; } b { z: 0px; }".to_string()).unwrap();
    assert_eq!(sheet.rules.len(), 2);
    assert_eq!(sheet.rules[0].declarations[0].name, "x");
    assert_eq!(sheet.rules[1].declarations[0].name, "z");
}

#[test]
fn unknown_unit_fails() {
    assert_eq!(parse_css("h1 { padding: 10em; }".to_string()), Err(ParseError::UnknownUnit));
}

#[test]
fn two_dots_fail_numeric_conversion() {
    assert_eq!(
        parse_css("h1 { padding: 1.2.3px; }".to_string()),
        Err(ParseError::NumericConversionFailure)
    );
}

#[test]
fn bad_hex_digit_fails_numeric_conversion() {
    assert_eq!(
        parse_css("h1 { color: #gg0000; }".to_string()),
        Err(ParseError::NumericConversionFailure)
    );
}

#[test]
fn unexpected_token_in_selector_list() {
    assert_eq!(parse_css("h1 > p { }".to_string()), Err(ParseError::UnexpectedToken));
}

#[test]
fn missing_colon_or_semicolon_fails() {
    assert_eq!(parse_css("h1 { color red; }".to_string()), Err(ParseError::StructuralViolation));
    assert_eq!(parse_css("h1 { color: red }".to_string()), Err(ParseError::StructuralViolation));
}

#[test]
fn unterminated_rule_fails_at_end_of_input() {
    assert_eq!(parse_css("h1 { color: red;".to_string()), Err(ParseError::UnexpectedEndOfInput));
    assert_eq!(parse_css("h1".to_string()), Err(ParseError::UnexpectedEndOfInput));
}

#[test]
fn trailing_dot_fails_numeric_conversion() {
    assert_eq!(
        parse_css("h1 { padding: 10.px; }".to_string()),
        Err(ParseError::NumericConversionFailure)
    );
}
