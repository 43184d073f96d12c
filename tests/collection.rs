use hbt::collection::{Collection, Id};
use hbt::entity::{Entity, Label, Name, Time, Url};

fn entity(url: &str, at: i64, name: Option<&str>, labels: &[&str]) -> Entity {
    Entity::new(
        Url::parse(url).unwrap(),
        Time::new(at),
        name.map(|n| Name::new(n.to_string())),
        labels.iter().map(|l| Label::new(l.to_string())).collect(),
    )
}

fn sorted_names(e: &Entity) -> Vec<String> {
    let mut v: Vec<String> = e.names().iter().map(|n| n.as_str().to_string()).collect();
    v.sort();
    v
}

fn sorted_labels(e: &Entity) -> Vec<String> {
    let mut v: Vec<String> = e.labels().iter().map(|l| l.as_str().to_string()).collect();
    v.sort();
    v
}

fn create_test_collection() -> Collection {
    let mut c = Collection::new();
    c.upsert(entity("https://foo.com", 10, Some("Foo"), &["tag1", "tag2"]));
    c.upsert(entity("https://bar.com", 20, Some("Bar"), &["tag2", "tag3"]));
    c
}

#[test]
fn test_update_labels() {
    let mut collection = create_test_collection();
    let update = vec![
        ("tag1".to_string(), "tag1-updated".to_string()),
        ("tag2".to_string(), "tag2-updated".to_string()),
    ];
    collection.update_labels(&update);

    let labels1 = sorted_labels(collection.entity(Id::new(0)));
    assert!(labels1.contains(&"tag1-updated".to_string()));
    assert!(labels1.contains(&"tag2-updated".to_string()));
    assert!(!labels1.contains(&"tag1".to_string()));
    assert!(!labels1.contains(&"tag2".to_string()));

    let labels2 = sorted_labels(collection.entity(Id::new(1)));
    assert!(labels2.contains(&"tag2-updated".to_string()));
    assert!(labels2.contains(&"tag3".to_string()));
    assert!(!labels2.contains(&"tag2".to_string()));
}

#[test]
fn test_update_labels_empty_mapping() {
    let mut collection = create_test_collection();
    let update: Vec<(String, String)> = vec![];
    collection.update_labels(&update);
    assert_eq!(sorted_labels(collection.entity(Id::new(0))), vec!["tag1".to_string(), "tag2".to_string()]);
}

#[test]
fn test_update_labels_non_string_values() {
    let mut collection = create_test_collection();
    let update = vec![("tag2".to_string(), "valid-update".to_string())];
    collection.update_labels(&update);
    let labels = sorted_labels(collection.entity(Id::new(0)));
    assert!(labels.contains(&"tag1".to_string()));
    assert!(labels.contains(&"valid-update".to_string()));
    assert!(!labels.contains(&"tag2".to_string()));
}

#[test]
fn update_labels_collapses_onto_one_label() {
    let mut c = Collection::new();
    c.upsert(entity("https://foo.com", 10, None, &["a", "b"]));
    c.update_labels(&vec![("a".to_string(), "x".to_string()), ("b".to_string(), "x".to_string())]);
    assert_eq!(sorted_labels(c.entity(Id::new(0))), vec!["x".to_string()]);
    assert_eq!(c.entity(Id::new(0)).labels().len(), 1);
}

#[test]
fn update_labels_last_pair_for_a_key_wins() {
    let mut c = Collection::new();
    c.upsert(entity("https://foo.com", 10, None, &["a"]));
    c.update_labels(&vec![("a".to_string(), "x".to_string()), ("a".to_string(), "y".to_string())]);
    assert_eq!(sorted_labels(c.entity(Id::new(0))), vec!["y".to_string()]);
}

#[test]
fn upsert_same_url_keeps_one_entity_with_unions() {
    let mut c = Collection::new();
    let a = c.upsert(entity("https://foo.com", 100, Some("First"), &["x"]));
    let b = c.upsert(entity("https://foo.com/", 200, Some("Second"), &["y"]));
    assert_eq!(a, b);
    assert_eq!(c.len(), 1);
    let e = c.entity(a);
    assert_eq!(sorted_names(e), vec!["First".to_string(), "Second".to_string()]);
    assert_eq!(sorted_labels(e), vec!["x".to_string(), "y".to_string()]);
    assert!(c.contains(&Url::parse("https://foo.com").unwrap()));
    assert_eq!(c.id(&Url::parse("https://foo.com").unwrap()), Some(Id::new(0)));
    assert_eq!(c.id(&Url::parse("https://bar.com").unwrap()), None);
}

#[test]
fn upsert_order_does_not_change_sets() {
    let mut one = Collection::new();
    one.upsert(entity("https://foo.com", 100, Some("A"), &["x"]));
    one.upsert(entity("https://foo.com", 200, Some("B"), &["y"]));
    let mut two = Collection::new();
    two.upsert(entity("https://foo.com", 200, Some("B"), &["y"]));
    two.upsert(entity("https://foo.com", 100, Some("A"), &["x"]));
    let e1 = one.entity(Id::new(0));
    let e2 = two.entity(Id::new(0));
    assert_eq!(sorted_names(e1), sorted_names(e2));
    assert_eq!(sorted_labels(e1), sorted_labels(e2));
    assert_eq!(e1.shared(), e2.shared());
    assert_eq!(e1.to_read(), e2.to_read());
    assert_eq!(e1.is_feed(), e2.is_feed());
}

#[test]
fn merge_keeps_earliest_creation_and_sorts_updates() {
    let mut c = Collection::new();
    c.upsert(entity("https://foo.com", 300, None, &[]));
    c.upsert(entity("https://foo.com", 100, None, &[]));
    c.upsert(entity("https://foo.com", 200, None, &[]));
    let e = c.entity(Id::new(0));
    assert_eq!(e.created_at().seconds(), 100);
    let updated: Vec<i64> = e.updated_at().iter().map(|t| t.seconds()).collect();
    assert_eq!(updated, vec![200, 300]);
}

#[test]
fn merge_with_later_time_appends_it() {
    let mut c = Collection::new();
    c.upsert(entity("https://foo.com", 100, None, &[]));
    c.upsert(entity("https://foo.com", 500, None, &[]));
    let e = c.entity(Id::new(0));
    assert_eq!(e.created_at().seconds(), 100);
    let updated: Vec<i64> = e.updated_at().iter().map(|t| t.seconds()).collect();
    assert_eq!(updated, vec![500]);
}

#[test]
fn add_edges_twice_keeps_each_edge_once() {
    let mut c = Collection::new();
    let a = c.upsert(entity("https://a.com", 1, None, &[]));
    let b = c.upsert(entity("https://b.com", 1, None, &[]));
    c.add_edges(a, b);
    c.add_edges(a, b);
    let ea: Vec<usize> = c.edges(a).iter().map(|i| i.index()).collect();
    let eb: Vec<usize> = c.edges(b).iter().map(|i| i.index()).collect();
    assert_eq!(ea, vec![1]);
    assert_eq!(eb, vec![0]);
}

#[test]
fn add_edge_is_directed() {
    let mut c = Collection::new();
    let a = c.upsert(entity("https://a.com", 1, None, &[]));
    let b = c.upsert(entity("https://b.com", 1, None, &[]));
    c.add_edge(a, b);
    assert_eq!(c.edges(a).len(), 1);
    assert!(c.edges(b).is_empty());
}

#[test]
fn ids_follow_insertion_order() {
    let mut c = Collection::with_capacity(4);
    assert!(c.is_empty());
    let a = c.insert(entity("https://a.com", 1, None, &[]));
    let b = c.insert(entity("https://b.com", 1, None, &[]));
    assert_eq!(a.index(), 0);
    assert_eq!(b.index(), 1);
    assert_eq!(c.len(), 2);
    assert_eq!(c.entities().len(), 2);
    assert_eq!(c.entities()[1].url().as_str(), "https://b.com/");
}

fn parts(id: usize, url: &str, edges: Vec<usize>) -> hbt::collection::NodeParts {
    hbt::collection::NodeParts { id, entity: entity(url, 1, None, &[]), edges }
}

#[test]
fn envelope_in_any_order_is_rebuilt_by_id() {
    let nodes = vec![
        parts(2, "https://c.com", vec![0]),
        parts(0, "https://a.com", vec![1, 2]),
        parts(1, "https://b.com", vec![0]),
    ];
    let c = Collection::from_envelope(0, 1, false, &nodes).unwrap();
    assert_eq!(c.len(), 3);
    assert_eq!(c.entity(Id::new(0)).url().as_str(), "https://a.com/");
    assert_eq!(c.entity(Id::new(2)).url().as_str(), "https://c.com/");
    let e0: Vec<usize> = c.edges(Id::new(0)).iter().map(|i| i.index()).collect();
    assert_eq!(e0, vec![1, 2]);
    assert_eq!(c.id(&Url::parse("https://b.com").unwrap()), Some(Id::new(1)));
}

#[test]
fn envelope_with_other_version_is_refused() {
    let nodes = vec![parts(0, "https://a.com", vec![])];
    assert!(matches!(Collection::from_envelope(0, 2, false, &nodes), Err(hbt::error::Error::IncompatibleVersion)));
    assert!(matches!(Collection::from_envelope(1, 1, false, &nodes), Err(hbt::error::Error::IncompatibleVersion)));
    assert!(matches!(Collection::from_envelope(0, 1, true, &nodes), Err(hbt::error::Error::IncompatibleVersion)));
    assert!(Collection::from_envelope(0, 1, false, &Vec::new()).unwrap().is_empty());
}

#[test]
fn envelope_with_bad_nodes_is_refused() {
    let gap = vec![parts(0, "https://a.com", vec![]), parts(2, "https://b.com", vec![])];
    assert!(matches!(Collection::from_envelope(0, 1, false, &gap), Err(hbt::error::Error::InconsistentNodes)));
    let same_url = vec![parts(0, "https://a.com", vec![]), parts(1, "https://a.com", vec![])];
    assert!(matches!(Collection::from_envelope(0, 1, false, &same_url), Err(hbt::error::Error::InconsistentNodes)));
    let far_edge = vec![parts(0, "https://a.com", vec![5])];
    assert!(matches!(Collection::from_envelope(0, 1, false, &far_edge), Err(hbt::error::Error::InconsistentNodes)));
    let twice = vec![parts(0, "https://a.com", vec![0, 0])];
    assert!(matches!(Collection::from_envelope(0, 1, false, &twice), Err(hbt::error::Error::InconsistentNodes)));
}
