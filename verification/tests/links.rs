use canvas_tui::types::assignment::Assignment;
use canvas_tui::types::link::{
    copy_links, extract_links, is_searchable, links_from_anchors, same_links, same_text, Link,
    MAX_MARKUP_BYTES, MAX_MARKUP_TAGS,
};

fn link(url: &str, title: &str) -> Link {
    Link::new(url.to_string(), title.to_string())
}

#[test]
fn link_new_keeps_its_parts() {
    let l = Link::new("https://a.test/x".to_string(), "X".to_string());
    assert_eq!(l.url, "https://a.test/x");
    assert_eq!(l.title, "X");
    assert_eq!(l.clone(), l);
    assert_ne!(l, link("https://a.test/x", "Y"));
    assert_ne!(l, link("https://a.test/y", "X"));
}

#[test]
fn anchors_without_target_are_skipped() {
    let anchors = vec![
        (Some("u1".to_string()), "one".to_string()),
        (None, "nowhere".to_string()),
        (Some("u2".to_string()), "".to_string()),
        (None, "".to_string()),
        (Some("".to_string()), "empty target".to_string()),
    ];
    assert_eq!(
        links_from_anchors(&anchors),
        vec![link("u1", "one"), link("u2", ""), link("", "empty target")]
    );
    assert_eq!(links_from_anchors(&Vec::new()), Vec::<Link>::new());
}

#[test]
fn no_description_has_no_links() {
    assert_eq!(extract_links(&None), Vec::<Link>::new());
    assert_eq!(extract_links(&Some(String::new())), Vec::<Link>::new());
    assert_eq!(extract_links(&Some("plain words, no markup".to_string())), Vec::<Link>::new());
}

#[test]
fn links_come_out_in_document_order() {
    let html = "<p>Read <a href=\"https://a.test/1\">the <b>first</b> text</a> and \
                <a name=\"here\">this anchor</a>, then <a href='/two'>two</a>.</p>\
                <div><a href=\"\"></a></div>";
    assert_eq!(
        extract_links(&Some(html.to_string())),
        vec![link("https://a.test/1", "the first text"), link("/two", "two"), link("", "")]
    );
}

#[test]
fn extracting_twice_gives_the_same_links() {
    let description = Some("<a href=\"x\">x</a><a>skip</a><a href=\"y\">y &amp; z</a>".to_string());
    let first = extract_links(&description);
    let second = extract_links(&description);
    assert_eq!(first, second);
    assert_eq!(first, vec![link("x", "x"), link("y", "y & z")]);
}

#[test]
fn populate_links_follows_the_description() {
    let mut a = Assignment::new(
        "n".to_string(),
        None,
        Some("<a href=\"one\">1</a>".to_string()),
        "u".to_string(),
        None,
        "c".to_string(),
        false,
        false,
    )
    .unwrap();
    assert_eq!(a.links, vec![link("one", "1")]);
    a.description = Some("<a href=\"two\">2</a><a href=\"three\">3</a>".to_string());
    a.populate_links();
    assert_eq!(a.links, vec![link("two", "2"), link("three", "3")]);
    a.description = None;
    a.populate_links();
    assert_eq!(a.links, Vec::<Link>::new());
}

#[test]
fn link_lists_compare_and_copy() {
    let a = vec![link("1", "a"), link("2", "b")];
    assert!(same_links(&a, &copy_links(&a)));
    assert!(!same_links(&a, &vec![link("1", "a")]));
    assert!(!same_links(&a, &vec![link("1", "a"), link("2", "c")]));
    assert!(same_links(&Vec::new(), &Vec::new()));
    assert!(same_text(&None, &None));
    assert!(same_text(&Some("x".to_string()), &Some("x".to_string())));
    assert!(!same_text(&Some("x".to_string()), &None));
    assert!(!same_text(&Some("x".to_string()), &Some("y".to_string())));
}

fn nested(open: &str, times: usize, inner: &str) -> String {
    let mut markup = String::new();
    for _ in 0..times {
        markup.push_str(open);
    }
    markup.push_str(inner);
    markup
}

#[test]
fn limits_keep_the_parser_within_its_buffers_and_the_stack() {
    assert_eq!(MAX_MARKUP_BYTES, (i32::MAX as usize) / 3);
    assert_eq!(MAX_MARKUP_TAGS, 256);
}

#[test]
fn markup_is_searchable_up_to_the_tag_limit() {
    assert!(is_searchable(""));
    assert!(is_searchable("no tags, 1 > 0"));
    assert!(is_searchable(&"<".repeat(MAX_MARKUP_TAGS)));
    assert!(!is_searchable(&"<".repeat(MAX_MARKUP_TAGS + 1)));
    assert!(is_searchable(&nested("<i>é", MAX_MARKUP_TAGS, "…")));
    assert!(!is_searchable(&nested("<i>é", MAX_MARKUP_TAGS, "<")));
    assert!(is_searchable(&"\u{0}".repeat(100_000)));
}

#[test]
fn markup_beyond_the_tag_limit_has_no_links() {
    let within = nested("<div>", MAX_MARKUP_TAGS - 2, "<a href=\"x\">t</a>");
    assert_eq!(extract_links(&Some(within)), vec![link("x", "t")]);
    let beyond = nested("<div>", MAX_MARKUP_TAGS - 1, "<a href=\"x\">t</a>");
    assert_eq!(extract_links(&Some(beyond)), Vec::<Link>::new());
}

#[test]
fn deepest_nesting_within_the_limit_is_walked() {
    // plain nesting, the anchor outermost so that its text is gathered from the very bottom
    let blocks = nested("<div>", MAX_MARKUP_TAGS - 1, "deep");
    let markup = format!("<a href=\"top\">{}", blocks);
    assert_eq!(extract_links(&Some(markup)), vec![link("top", "deep")]);
    // tables, around each cell of which the parser supplies a body and a row
    let tables = nested("<table><td>", MAX_MARKUP_TAGS / 2 - 1, "<a href=\"cell\">c</a>");
    assert_eq!(extract_links(&Some(tables)), vec![link("cell", "c")]);
    // formatting elements, which the parser opens again in the next block
    let mut formats = String::from("<div>");
    for i in 0..MAX_MARKUP_TAGS - 5 {
        formats.push_str(&format!("<b id={}>", i));
    }
    formats.push_str("</div><div><a href=\"f\">f</a>");
    assert_eq!(extract_links(&Some(formats)), vec![link("f", "f")]);
}

#[test]
fn long_attribute_of_nul_bytes_is_read() {
    let markup = format!("<a href=\"{}\">n</a>", "\u{0}".repeat(1 << 20));
    let links = extract_links(&Some(markup));
    assert_eq!(links.len(), 1);
    assert_eq!(links[0].url.len(), 3 << 20);
    assert_eq!(links[0].title, "n");
}
