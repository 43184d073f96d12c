use hbt::collection::{Collection, Id};
use hbt::error::Error;
use hbt::markdown::{from_markdown_events, LinkKind, MdEvent};

const NOV_15: i64 = 1_700_006_400;
const NOV_16: i64 = 1_700_092_800;
const NOV_17: i64 = 1_700_179_200;

fn parse(input: &str) -> Result<Collection, Error> {
    Collection::from_markdown(input)
}

fn url(c: &Collection, i: usize) -> String {
    c.entity(Id::new(i)).url().as_str().to_string()
}

fn names(c: &Collection, i: usize) -> Vec<String> {
    let mut v: Vec<String> = c.entity(Id::new(i)).names().iter().map(|n| n.as_str().to_string()).collect();
    v.sort();
    v
}

fn labels(c: &Collection, i: usize) -> Vec<String> {
    let mut v: Vec<String> = c.entity(Id::new(i)).labels().iter().map(|l| l.as_str().to_string()).collect();
    v.sort();
    v
}

fn edges(c: &Collection, i: usize) -> Vec<usize> {
    c.edges(Id::new(i)).iter().map(|e| e.index()).collect()
}

fn created(c: &Collection, i: usize) -> i64 {
    c.entity(Id::new(i)).created_at().seconds()
}

fn expect_entity(c: &Collection, i: usize, u: &str, n: &[&str], date: i64, l: &[&str]) {
    assert_eq!(url(c, i), u);
    assert_eq!(names(c, i), n.iter().map(|s| s.to_string()).collect::<Vec<_>>());
    assert_eq!(created(c, i), date);
    let mut want: Vec<String> = l.iter().map(|s| s.to_string()).collect();
    want.sort();
    assert_eq!(labels(c, i), want);
}

#[test]
fn tests_test_empty() {
    let collection = parse("").unwrap();
    assert!(collection.is_empty());
}

#[test]
fn test_no_date() {
    let actual = parse("- [Foo](https://foo.com)\n");
    assert!(matches!(actual, Err(Error::MissingDate)));
}

#[test]
fn test_only_date() {
    let collection = parse("# November 15, 2023\n").unwrap();
    assert!(collection.is_empty());
}

#[test]
fn test_no_labels() {
    let collection = parse("# November 15, 2023\n\n- [Foo](https://foo.com)\n- [Bar](https://bar.com)\n").unwrap();
    assert_eq!(collection.len(), 2);
    expect_entity(&collection, 0, "https://foo.com/", &["Foo"], NOV_15, &[]);
    expect_entity(&collection, 1, "https://bar.com/", &["Bar"], NOV_15, &[]);
    assert!(edges(&collection, 0).is_empty());
    assert!(edges(&collection, 1).is_empty());
}

#[test]
fn test_no_url() {
    let collection = parse("# November 15, 2023\n\n- Foo\n").unwrap();
    assert!(collection.is_empty());
}

#[test]
fn test_no_title() {
    let collection = parse("# November 15, 2023\n\n- <https://foo.com>\n").unwrap();
    assert_eq!(collection.len(), 1);
    expect_entity(&collection, 0, "https://foo.com/", &[], NOV_15, &[]);
}

#[test]
fn test_indented() {
    let collection = parse("# November 15, 2023\n\n  - [Foo](https://foo.com)\n").unwrap();
    assert_eq!(collection.len(), 1);
    expect_entity(&collection, 0, "https://foo.com/", &["Foo"], NOV_15, &[]);
}

#[test]
fn test_indented_double() {
    let collection = parse("# November 15, 2023\n\n    - [Foo](https://foo.com)\n").unwrap();
    assert!(collection.is_empty());
}

#[test]
fn test_parent() {
    let collection = parse("# November 15, 2023\n\n- [Foo](https://foo.com)\n  - [Bar](https://bar.com)\n").unwrap();
    assert_eq!(collection.len(), 2);
    expect_entity(&collection, 0, "https://foo.com/", &["Foo"], NOV_15, &[]);
    expect_entity(&collection, 1, "https://bar.com/", &["Bar"], NOV_15, &[]);
    assert_eq!(edges(&collection, 0), vec![1]);
    assert_eq!(edges(&collection, 1), vec![0]);
}

#[test]
fn test_parents() {
    let input = "# November 15, 2023\n\n- [Foo](https://foo.com)\n  - [Bar](https://bar.com)\n    - [Baz](https://baz.com)\n";
    let collection = parse(input).unwrap();
    assert_eq!(collection.len(), 3);
    expect_entity(&collection, 0, "https://foo.com/", &["Foo"], NOV_15, &[]);
    expect_entity(&collection, 1, "https://bar.com/", &["Bar"], NOV_15, &[]);
    expect_entity(&collection, 2, "https://baz.com/", &["Baz"], NOV_15, &[]);
    assert_eq!(edges(&collection, 0), vec![1]);
    assert_eq!(edges(&collection, 1), vec![0, 2]);
    assert_eq!(edges(&collection, 2), vec![1]);
}

#[test]
fn test_parents_indented() {
    let input = "# November 15, 2023\n\n  - [Foo](https://foo.com)\n    - [Bar](https://bar.com)\n      - [Baz](https://baz.com)\n";
    let collection = parse(input).unwrap();
    assert_eq!(collection.len(), 3);
    expect_entity(&collection, 0, "https://foo.com/", &["Foo"], NOV_15, &[]);
    expect_entity(&collection, 1, "https://bar.com/", &["Bar"], NOV_15, &[]);
    expect_entity(&collection, 2, "https://baz.com/", &["Baz"], NOV_15, &[]);
    assert_eq!(edges(&collection, 0), vec![1]);
    assert_eq!(edges(&collection, 1), vec![0, 2]);
    assert_eq!(edges(&collection, 2), vec![1]);
}

#[test]
fn test_single_parent() {
    let input = "# November 15, 2023\n\n- [Foo](https://foo.com)\n  - [Bar](https://bar.com)\n  - [Baz](https://baz.com)\n  - [Quux](https://quux.com)\n";
    let collection = parse(input).unwrap();
    assert_eq!(collection.len(), 4);
    expect_entity(&collection, 0, "https://foo.com/", &["Foo"], NOV_15, &[]);
    expect_entity(&collection, 1, "https://bar.com/", &["Bar"], NOV_15, &[]);
    expect_entity(&collection, 2, "https://baz.com/", &["Baz"], NOV_15, &[]);
    expect_entity(&collection, 3, "https://quux.com/", &["Quux"], NOV_15, &[]);
    assert_eq!(edges(&collection, 0), vec![1, 2, 3]);
    assert_eq!(edges(&collection, 1), vec![0]);
    assert_eq!(edges(&collection, 2), vec![0]);
    assert_eq!(edges(&collection, 3), vec![0]);
}

#[test]
fn test_no_parent() {
    let collection = parse("# November 15, 2023\n\n  - [Foo](https://foo.com)\n- [Bar](https://bar.com)\n").unwrap();
    assert_eq!(collection.len(), 2);
    expect_entity(&collection, 0, "https://foo.com/", &["Foo"], NOV_15, &[]);
    expect_entity(&collection, 1, "https://bar.com/", &["Bar"], NOV_15, &[]);
    assert!(edges(&collection, 0).is_empty());
    assert!(edges(&collection, 1).is_empty());
}

#[test]
fn test_inverted_parents() {
    let input = "# November 15, 2023\n\n  - [Foo](https://foo.com)\n  - [Bar](https://bar.com)\n- [Baz](https://baz.com)\n";
    let collection = parse(input).unwrap();
    assert_eq!(collection.len(), 3);
    expect_entity(&collection, 0, "https://foo.com/", &["Foo"], NOV_15, &[]);
    expect_entity(&collection, 1, "https://bar.com/", &["Bar"], NOV_15, &[]);
    expect_entity(&collection, 2, "https://baz.com/", &["Baz"], NOV_15, &[]);
    assert!(edges(&collection, 0).is_empty());
    assert!(edges(&collection, 1).is_empty());
    assert!(edges(&collection, 2).is_empty());
}

#[test]
fn test_label() {
    let input = "# November 15, 2023\n\n## Foo\n\n- [Foo](https://foo.com)\n- [Bar](https://bar.com)\n";
    let collection = parse(input).unwrap();
    assert_eq!(collection.len(), 2);
    expect_entity(&collection, 0, "https://foo.com/", &["Foo"], NOV_15, &["Foo"]);
    expect_entity(&collection, 1, "https://bar.com/", &["Bar"], NOV_15, &["Foo"]);
    assert!(edges(&collection, 0).is_empty());
    assert!(edges(&collection, 1).is_empty());
}

#[test]
fn test_labels() {
    let input = "# November 15, 2023\n\n## Foo\n\n- [Foo](https://foo.com)\n- [Bar](https://bar.com)\n\n## Baz\n\n- [Baz](https://baz.com)\n- [Quux](https://quux.com)\n";
    let collection = parse(input).unwrap();
    assert_eq!(collection.len(), 4);
    expect_entity(&collection, 0, "https://foo.com/", &["Foo"], NOV_15, &["Foo"]);
    expect_entity(&collection, 1, "https://bar.com/", &["Bar"], NOV_15, &["Foo"]);
    expect_entity(&collection, 2, "https://baz.com/", &["Baz"], NOV_15, &["Baz"]);
    expect_entity(&collection, 3, "https://quux.com/", &["Quux"], NOV_15, &["Baz"]);
}

#[test]
fn test_multiple_labels() {
    let input = "# November 15, 2023\n\n## Foo\n\n- [Foo](https://foo.com)\n\n### Bar\n\n- [Bar](https://bar.com)\n\n#### Baz\n\n- [Baz](https://baz.com)\n";
    let collection = parse(input).unwrap();
    assert_eq!(collection.len(), 3);
    expect_entity(&collection, 0, "https://foo.com/", &["Foo"], NOV_15, &["Foo"]);
    expect_entity(&collection, 1, "https://bar.com/", &["Bar"], NOV_15, &["Foo", "Bar"]);
    expect_entity(&collection, 2, "https://baz.com/", &["Baz"], NOV_15, &["Foo", "Bar", "Baz"]);
}

#[test]
fn test_basic() {
    let input = "# November 16, 2023\n\n## Foo\n\n- [Foo](https://foo.com)\n\n### Bar\n\n- <https://bar.com>\n\n## Misc\n\n- [Hello, world!](https://example.com/)\n";
    let collection = parse(input).unwrap();
    assert_eq!(collection.len(), 3);
    expect_entity(&collection, 0, "https://foo.com/", &["Foo"], NOV_16, &["Foo"]);
    expect_entity(&collection, 1, "https://bar.com/", &[], NOV_16, &["Foo", "Bar"]);
    expect_entity(&collection, 2, "https://example.com/", &["Hello, world!"], NOV_16, &["Misc"]);
    assert!(edges(&collection, 0).is_empty());
    assert!(edges(&collection, 1).is_empty());
    assert!(edges(&collection, 2).is_empty());
}

#[test]
fn test_nested() {
    let input = "# November 17, 2023\n\n## Foo\n\n- [Foo](https://foo.com)\n  - <https://bar.com>\n  - [Hello, world!](https://example.com/)\n    - [Quux](https://quux.com)\n  - <https://baz.com>\n";
    let collection = parse(input).unwrap();
    assert_eq!(collection.len(), 5);
    expect_entity(&collection, 0, "https://foo.com/", &["Foo"], NOV_17, &["Foo"]);
    expect_entity(&collection, 1, "https://bar.com/", &[], NOV_17, &["Foo"]);
    expect_entity(&collection, 2, "https://example.com/", &["Hello, world!"], NOV_17, &["Foo"]);
    expect_entity(&collection, 3, "https://quux.com/", &["Quux"], NOV_17, &["Foo"]);
    expect_entity(&collection, 4, "https://baz.com/", &[], NOV_17, &["Foo"]);
    assert_eq!(edges(&collection, 0), vec![1, 2, 4]);
    assert_eq!(edges(&collection, 1), vec![0]);
    assert_eq!(edges(&collection, 2), vec![0, 3]);
    assert_eq!(edges(&collection, 3), vec![2]);
    assert_eq!(edges(&collection, 4), vec![0]);
}

#[test]
fn date_section_with_two_flat_links() {
    let input = "# March 3, 2024\n\n- [One](https://one.example)\n- [Two](https://two.example)\n";
    let collection = parse(input).unwrap();
    assert_eq!(collection.len(), 2);
    let march_3: i64 = 1_709_424_000;
    assert_eq!(created(&collection, 0), march_3);
    assert_eq!(created(&collection, 1), march_3);
    assert!(edges(&collection, 0).is_empty());
    assert!(edges(&collection, 1).is_empty());
}

#[test]
fn nested_link_gives_edge_pair() {
    let input = "# March 3, 2024\n\n- [One](https://one.example)\n  - [Two](https://two.example)\n";
    let collection = parse(input).unwrap();
    assert_eq!(edges(&collection, 0), vec![1]);
    assert_eq!(edges(&collection, 1), vec![0]);
}

#[test]
fn link_before_any_date_is_missing_date() {
    let input = "## Label\n\n- [One](https://one.example)\n\n# March 3, 2024\n";
    assert!(matches!(parse(input), Err(Error::MissingDate)));
}

#[test]
fn unparsable_date_heading_fails() {
    let input = "# Someday soon\n\n- [One](https://one.example)\n";
    assert!(matches!(parse(input), Err(Error::MalformedDate(_))));
}

#[test]
fn malformed_link_url_fails() {
    let input = "# March 3, 2024\n\n- [One](relative/path)\n";
    assert!(matches!(parse(input), Err(Error::MalformedUrl(_))));
}

#[test]
fn out_of_order_sections_merge_times() {
    let input = "# March 3, 2024\n\n- [One](https://one.example)\n\n# March 1, 2024\n\n- [Uno](https://one.example)\n";
    let collection = parse(input).unwrap();
    assert_eq!(collection.len(), 1);
    let march_1: i64 = 1_709_251_200;
    let march_3: i64 = 1_709_424_000;
    let e = collection.entity(Id::new(0));
    assert_eq!(e.created_at().seconds(), march_1);
    let updated: Vec<i64> = e.updated_at().iter().map(|t| t.seconds()).collect();
    assert_eq!(updated, vec![march_3]);
    assert_eq!(names(&collection, 0), vec!["One".to_string(), "Uno".to_string()]);
}

#[test]
fn code_span_in_name_keeps_backticks() {
    let input = "# March 3, 2024\n\n- [The `tool` page](https://one.example)\n";
    let collection = parse(input).unwrap();
    assert_eq!(names(&collection, 0), vec!["The `tool` page".to_string()]);
}

#[test]
fn sibling_heading_replaces_label() {
    let input = "# March 3, 2024\n\n## A\n\n### B\n\n## C\n\n- [One](https://one.example)\n";
    let collection = parse(input).unwrap();
    assert_eq!(labels(&collection, 0), vec!["C".to_string()]);
}

#[test]
fn events_drive_the_reader() {
    let events = vec![
        MdEvent::HeadingStart(1),
        MdEvent::Text("March 3, 2024".to_string()),
        MdEvent::ListStart,
        MdEvent::LinkStart(LinkKind::Named, "https://one.example".to_string()),
        MdEvent::Text("One".to_string()),
        MdEvent::LinkEnd,
        MdEvent::ListStart,
        MdEvent::LinkStart(LinkKind::Bare, "https://two.example".to_string()),
        MdEvent::Text("https://two.example".to_string()),
        MdEvent::LinkEnd,
        MdEvent::ListEnd,
        MdEvent::ListEnd,
    ];
    let collection = from_markdown_events(&events).unwrap();
    assert_eq!(collection.len(), 2);
    assert_eq!(names(&collection, 0), vec!["One".to_string()]);
    assert!(names(&collection, 1).is_empty());
    assert_eq!(edges(&collection, 0), vec![1]);
    assert_eq!(edges(&collection, 1), vec![0]);
}

#[test]
fn link_end_without_link_is_missing_url() {
    let events = vec![
        MdEvent::HeadingStart(1),
        MdEvent::Text("March 3, 2024".to_string()),
        MdEvent::LinkEnd,
    ];
    assert!(matches!(from_markdown_events(&events), Err(Error::MissingUrl)));
}
