use hbt::collection::{Collection, Id};
use hbt::entity::{Entity, Extended, Label, Name};
use hbt::error::Error;
use hbt::html::{from_html_nodes, HtmlNode, HtmlNodeKind, TermContent};

fn attrs(pairs: &[(&str, &str)]) -> Vec<(String, String)> {
    pairs.iter().map(|(k, v)| (k.to_string(), v.to_string())).collect()
}

fn node(kind: HtmlNodeKind, end: usize) -> HtmlNode {
    HtmlNode { kind, end }
}

fn folder(name: &str, at: usize) -> HtmlNode {
    node(HtmlNodeKind::Term(TermContent::Folder(Some(name.to_string()))), at + 1)
}

fn link(href: &str, text: &str, at: usize) -> HtmlNode {
    node(
        HtmlNodeKind::Term(TermContent::Link(attrs(&[("href", href)]), Some(text.to_string()))),
        at + 1,
    )
}

fn sorted_labels(c: &Collection, i: usize) -> Vec<String> {
    let mut v: Vec<String> = c.entity(Id::new(i)).labels().iter().map(|l| l.as_str().to_string()).collect();
    v.sort();
    v
}

#[test]
fn bookmark_in_two_folders_is_stored_once() {
    // <dl><dt><h3>A</h3><dl><dt><a>..</a></dl><dt><h3>B</h3><dl><dt><a>..</a></dl></dl>
    let doc = vec![
        node(HtmlNodeKind::List, 7),
        folder("A", 1),
        node(HtmlNodeKind::List, 4),
        link("https://foo.com", "Foo", 3),
        folder("B", 4),
        node(HtmlNodeKind::List, 7),
        link("https://foo.com", "Foo", 6),
    ];
    let c = from_html_nodes(&doc).unwrap();
    assert_eq!(c.len(), 1);
    assert_eq!(sorted_labels(&c, 0), vec!["A".to_string(), "B".to_string()]);
}

#[test]
fn term_after_term_leaves_no_long_form_text() {
    let doc = vec![
        node(HtmlNodeKind::List, 4),
        link("https://foo.com", "Foo", 1),
        link("https://bar.com", "Bar", 2),
        node(HtmlNodeKind::Detail(Some("about bar".to_string())), 4),
    ];
    let c = from_html_nodes(&doc).unwrap();
    assert_eq!(c.len(), 2);
    assert!(c.entity(Id::new(0)).extended().is_none());
    assert_eq!(c.entity(Id::new(1)).extended().unwrap().as_str(), "about bar");
}

#[test]
fn folder_label_ends_with_its_list() {
    let doc = vec![
        node(HtmlNodeKind::List, 5),
        folder("A", 1),
        node(HtmlNodeKind::List, 4),
        link("https://foo.com", "Foo", 3),
        link("https://bar.com", "Bar", 4),
    ];
    let c = from_html_nodes(&doc).unwrap();
    assert_eq!(sorted_labels(&c, 0), vec!["A".to_string()]);
    assert!(sorted_labels(&c, 1).is_empty());
}

#[test]
fn link_without_href_is_missing_url() {
    let doc = vec![
        node(HtmlNodeKind::List, 2),
        node(HtmlNodeKind::Term(TermContent::Link(attrs(&[("add_date", "1")]), None)), 2),
    ];
    assert!(matches!(from_html_nodes(&doc), Err(Error::MissingUrl)));
}

#[test]
fn malformed_add_date_fails() {
    let doc = vec![
        node(HtmlNodeKind::List, 2),
        node(
            HtmlNodeKind::Term(TermContent::Link(attrs(&[("href", "https://foo.com"), ("add_date", "soon")]), None)),
            2,
        ),
    ];
    assert!(matches!(from_html_nodes(&doc), Err(Error::MalformedTimestamp(_))));
}

#[test]
fn attributes_fill_the_entity() {
    let a = attrs(&[
        ("href", "https://foo.com"),
        ("add_date", " 1700000000 "),
        ("last_modified", "1700000100"),
        ("last_visit", "1700000200"),
        ("tags", "rust, toread ,,web"),
        ("private", "1"),
        ("feed", "true"),
    ]);
    let names = vec![Name::new("Foo".to_string())];
    let labels = vec![Label::new("Folder".to_string())];
    let e = Entity::from_attrs(&a, &names, &labels, Some(Extended::new("notes".to_string()))).unwrap();
    assert_eq!(e.url().as_str(), "https://foo.com/");
    assert_eq!(e.created_at().seconds(), 1_700_000_000);
    let updated: Vec<i64> = e.updated_at().iter().map(|t| t.seconds()).collect();
    assert_eq!(updated, vec![1_700_000_100]);
    assert_eq!(e.last_visited_at().unwrap().seconds(), 1_700_000_200);
    let mut l: Vec<String> = e.labels().iter().map(|x| x.as_str().to_string()).collect();
    l.sort();
    assert_eq!(l, vec!["Folder".to_string(), "rust".to_string(), "web".to_string()]);
    assert_eq!(e.to_read(), Some(true));
    assert_eq!(e.shared(), Some(false));
    assert_eq!(e.is_feed(), Some(true));
    assert_eq!(e.extended().unwrap().as_str(), "notes");
}

#[test]
fn absent_attributes_take_defaults() {
    let a = attrs(&[("href", "https://foo.com"), ("add_date", "  ")]);
    let e = Entity::from_attrs(&a, &vec![], &vec![], None).unwrap();
    assert_eq!(e.created_at().seconds(), 0);
    assert!(e.updated_at().is_empty());
    assert!(e.last_visited_at().is_none());
    assert_eq!(e.shared(), Some(true));
    assert_eq!(e.to_read(), None);
    assert_eq!(e.is_feed(), None);
    assert!(e.names().is_empty());
}

#[test]
fn toread_attribute_sets_flag() {
    let a = attrs(&[("href", "https://foo.com"), ("toread", "1"), ("private", "0")]);
    let e = Entity::from_attrs(&a, &vec![], &vec![], None).unwrap();
    assert_eq!(e.to_read(), Some(true));
    assert_eq!(e.shared(), Some(true));
}

#[test]
fn relative_href_is_malformed() {
    let a = attrs(&[("href", "foo/bar")]);
    assert!(matches!(Entity::from_attrs(&a, &vec![], &vec![], None), Err(Error::MalformedUrl(_))));
}

#[test]
fn unrepresentable_timestamp_is_malformed() {
    let a = attrs(&[("href", "https://foo.com"), ("last_visit", "9223372036854775807")]);
    assert!(matches!(Entity::from_attrs(&a, &vec![], &vec![], None), Err(Error::MalformedTimestamp(_))));
}

#[test]
fn pending_link_at_end_is_stored() {
    let doc = vec![link("https://foo.com", "Foo", 0)];
    let c = from_html_nodes(&doc).unwrap();
    assert_eq!(c.len(), 1);
}
