use robinson::dom::{element, text, AttrMap, Node};
use robinson::html::parse;
use robinson::ParseError;

fn attrs(pairs: &[(&str, &str)]) -> AttrMap {
    let mut m = AttrMap::new();
    for (k, v) in pairs {
        m.insert(k.to_string(), v.to_string());
    }
    m
}

#[test]
fn html_parse_simple_css() {
    let input = r#"
            <div>
              Hello world, this is a useful link:
              <a href="https://example.com" target="_blank">
                  useful link
              </a>
            </div>
        "#
    .to_string();

    let mut link_attributes = AttrMap::new();
    link_attributes.insert("href".to_owned(), "https://example.com".to_owned());
    link_attributes.insert("target".to_owned(), "_blank".to_owned());

    assert_eq!(
        parse(input).unwrap(),
        element(
            "div".to_string(),
            AttrMap::new(),
            vec![
                text("Hello world, this is a useful link:\n              ".to_owned()),
                element(
                    "a".to_string(),
                    link_attributes,
                    vec![text("useful link\n              ".to_owned())],
                )
            ],
        )
    )
}

#[test]
fn single_root_is_returned_unwrapped() {
    let n = parse("<p>hi</p>".to_string()).unwrap();
    assert_eq!(n, element("p".to_string(), AttrMap::new(), vec![text("hi".to_string())]));
}

#[test]
fn several_roots_are_wrapped_in_html() {
    let n = parse("<a></a><b></b>".to_string()).unwrap();
    let expected: Node = element(
        "html".to_string(),
        AttrMap::new(),
        vec![
            element("a".to_string(), AttrMap::new(), vec![]),
            element("b".to_string(), AttrMap::new(), vec![]),
        ],
    );
    assert_eq!(n, expected);
}

#[test]
fn empty_input_gives_empty_html_element() {
    assert_eq!(
        parse(String::new()).unwrap(),
        element("html".to_string(), AttrMap::new(), vec![])
    );
    assert_eq!(
        parse("   \n\t ".to_string()).unwrap(),
        element("html".to_string(), AttrMap::new(), vec![])
    );
}

#[test]
fn repeated_attribute_takes_last_value() {
    let n = parse(r#"<a x="1" y='2' x="3"></a>"#.to_string()).unwrap();
    assert_eq!(
        n,
        element("a".to_string(), attrs(&[("x", "3"), ("y", "2")]), vec![])
    );
}

#[test]
fn attr_map_insert_replaces_value() {
    let mut m = AttrMap::new();
    m.insert("k".to_string(), "a".to_string());
    m.insert("k".to_string(), "b".to_string());
    assert_eq!(m.len(), 1);
    assert_eq!(m, attrs(&[("k", "b")]));
}

#[test]
fn nested_elements_and_text() {
    let n = parse("<ul><li>one</li><li>two</li></ul>".to_string()).unwrap();
    assert_eq!(
        n,
        element(
            "ul".to_string(),
            AttrMap::new(),
            vec![
                element("li".to_string(), AttrMap::new(), vec![text("one".to_string())]),
                element("li".to_string(), AttrMap::new(), vec![text("two".to_string())]),
            ],
        )
    );
}

#[test]
fn multibyte_text_is_kept_whole() {
    let n = parse("<p>héllo – ✓</p>".to_string()).unwrap();
    assert_eq!(
        n,
        element("p".to_string(), AttrMap::new(), vec![text("héllo – ✓".to_string())])
    );
}

#[test]
fn mismatched_close_tag_fails() {
    assert_eq!(parse("<a><b></a></b>".to_string()), Err(ParseError::TagMismatch));
    assert_eq!(parse("<div>x</span>".to_string()), Err(ParseError::TagMismatch));
}

#[test]
fn unterminated_tag_fails_at_end_of_input() {
    assert_eq!(parse("<div>".to_string()), Err(ParseError::UnexpectedEndOfInput));
    assert_eq!(parse("<div".to_string()), Err(ParseError::UnexpectedEndOfInput));
    assert_eq!(parse(r#"<a x="1></a>"#.to_string()), Err(ParseError::UnexpectedEndOfInput));
}

#[test]
fn unquoted_attribute_value_fails() {
    assert_eq!(parse("<a x=1></a>".to_string()), Err(ParseError::StructuralViolation));
}

#[test]
fn missing_equals_fails() {
    assert_eq!(parse(r#"<a x "1"></a>"#.to_string()), Err(ParseError::StructuralViolation));
}

#[test]
fn attr_map_equality_ignores_insertion_order() {
    assert_eq!(attrs(&[("a", "1"), ("b", "2")]), attrs(&[("b", "2"), ("a", "1")]));
    assert_ne!(attrs(&[("a", "1"), ("b", "2")]), attrs(&[("a", "1"), ("b", "3")]));
    assert_ne!(attrs(&[("a", "1")]), attrs(&[("a", "1"), ("b", "2")]));
}

#[test]
fn attr_map_get_returns_bound_value() {
    let m = attrs(&[("href", "x"), ("id", "y"), ("href", "z")]);
    assert_eq!(m.get(&"href".to_string()), Some(&"z".to_string()));
    assert_eq!(m.get(&"id".to_string()), Some(&"y".to_string()));
    assert_eq!(m.get(&"class".to_string()), None);
}

#[test]
fn stray_top_level_close_tag_fails() {
    assert_eq!(parse("<a></a></b>junk".to_string()), Err(ParseError::UnexpectedToken));
    assert_eq!(parse("</p>".to_string()), Err(ParseError::UnexpectedToken));
}
