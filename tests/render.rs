use robinson::dom::{element, text, AttrMap};
use robinson::html::parse;

#[test]
fn renders_nested_tree_with_indentation() {
    let mut attrs = AttrMap::new();
    attrs.insert("href".to_string(), "x".to_string());
    let n = element(
        "div".to_string(),
        AttrMap::new(),
        vec![
            text("  hi there \n".to_string()),
            element("a".to_string(), attrs, vec![text("link".to_string())]),
        ],
    );
    assert_eq!(
        n.to_string(),
        "<div>\n  hi there\n  <a href=\"x\">\n      link\n  </a>\n</div>"
    );
}

#[test]
fn renders_attributes_joined_by_spaces() {
    let mut attrs = AttrMap::new();
    attrs.insert("a".to_string(), "1".to_string());
    attrs.insert("b".to_string(), "2".to_string());
    let n = element("p".to_string(), attrs, vec![]);
    assert_eq!(n.to_string(), "<p a=\"1\" b=\"2\">\n</p>");
}

#[test]
fn renders_text_leaf_trimmed() {
    assert_eq!(text("\t word \u{a0}".to_string()).to_string(), "word");
    assert_eq!(text("   ".to_string()).to_string(), "");
}

#[test]
fn tag_counts_match_element_count() {
    let n = parse("<a><b>x</b><c></c>y<d><e></e></d></a>".to_string()).unwrap();
    let r = n.to_string();
    assert_eq!(r.matches('<').count(), 10);
    assert_eq!(r.matches("</").count(), 5);
}

#[test]
fn tag_counts_hold_with_slashes_in_strings() {
    let n = parse(r#"<p><a href="https://x.org/a/b">and/or</a></p>"#.to_string()).unwrap();
    let r = n.to_string();
    assert_eq!(r.matches('<').count(), 4);
    assert_eq!(r.matches("</").count(), 2);
}
