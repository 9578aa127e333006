use unfurl::json::Json;
use unfurl::tree::{array_child_path, child_search, object_child_path, SearchNode};

fn num(t: &str) -> Json {
    Json::Number(t.to_string())
}

fn s(t: &str) -> Json {
    Json::String(t.to_string())
}

fn obj(entries: Vec<(&str, Json)>) -> Json {
    Json::Object(entries.into_iter().map(|(k, v)| (k.to_string(), v)).collect())
}

fn doc() -> Json {
    // {"Foo": "bar", "list": [10, "FOOBAR", true, null]}
    obj(vec![
        ("Foo", s("bar")),
        ("list", Json::Array(vec![num("10"), s("FOOBAR"), Json::Bool(true), Json::Null])),
    ])
}

#[test]
fn query_is_trimmed_and_lower_cased() {
    let idx = SearchNode::build(None, &doc(), "  FOO ");
    assert!(!idx.key_match);
    assert!(idx.subtree_match);
    assert_eq!(idx.match_count, 2);
    let foo = idx.child_at(0).unwrap();
    assert!(foo.key_match);
    assert!(!foo.value_match);
    assert_eq!(foo.match_count, 1);
    let list = idx.child_at(1).unwrap();
    assert!(!list.key_match);
    assert_eq!(list.match_count, 1);
    let foobar = list.child_at(1).unwrap();
    assert!(foobar.value_match);
    assert!(!list.child_at(0).unwrap().subtree_match);
}

#[test]
fn index_mirrors_the_document_shape() {
    let idx = SearchNode::build(None, &doc(), "x");
    assert!(idx.child_at(1).is_some());
    assert!(idx.child_at(2).is_none());
    let list = idx.child_at(1).unwrap();
    assert!(list.child_at(3).is_some());
    assert!(list.child_at(4).is_none());
    assert!(list.child_at(0).unwrap().child_at(0).is_none());
}

#[test]
fn array_items_are_keyed_by_index() {
    let idx = SearchNode::build(None, &doc(), "1");
    let list = idx.child_at(1).unwrap();
    // item 0 is the number 10 (value match), item 1 has key "1"
    assert!(list.child_at(0).unwrap().value_match);
    assert!(!list.child_at(0).unwrap().key_match);
    assert!(list.child_at(1).unwrap().key_match);
    assert_eq!(list.child_at(1).unwrap().match_count, 1);
    assert_eq!(idx.match_count, 2);
}

#[test]
fn booleans_and_null_match_by_their_text() {
    let idx = SearchNode::build(None, &doc(), "tru");
    let list = idx.child_at(1).unwrap();
    assert!(list.child_at(2).unwrap().value_match);
    assert_eq!(idx.match_count, 1);
    let idx = SearchNode::build(None, &doc(), "NULL");
    assert!(idx.child_at(1).unwrap().child_at(3).unwrap().value_match);
    assert_eq!(idx.match_count, 1);
}

#[test]
fn blank_query_matches_nothing() {
    for q in ["", "   ", "\t\n"] {
        let idx = SearchNode::build(None, &doc(), q);
        assert_eq!(idx.match_count, 0);
        assert!(!idx.subtree_match);
        assert!(!idx.child_at(0).unwrap().key_match);
    }
}

#[test]
fn query_case_does_not_matter() {
    let a = SearchNode::build(None, &doc(), "LiSt");
    let b = SearchNode::build(None, &doc(), "list");
    assert_eq!(a.match_count, b.match_count);
    assert_eq!(a.match_count, 1);
    assert!(a.child_at(1).unwrap().key_match);
}

#[test]
fn root_key_can_match() {
    let idx = SearchNode::build(Some("Root"), &num("5"), "roo");
    assert!(idx.key_match);
    assert!(!idx.value_match);
    assert_eq!(idx.match_count, 1);
}

#[test]
fn subtree_match_iff_some_match() {
    for q in ["foo", "zzz", "10", "a"] {
        let idx = SearchNode::build(None, &doc(), q);
        assert_eq!(idx.subtree_match, idx.match_count > 0);
        assert!(idx.match_count <= 7);
    }
}

#[test]
fn child_search_follows_the_index() {
    let idx = SearchNode::build(None, &doc(), "foo");
    assert!(child_search(None, 0).is_none());
    assert!(child_search(Some(&idx), 0).unwrap().key_match);
    assert!(child_search(Some(&idx), 5).is_none());
}

#[test]
fn hover_paths_name_keys_and_indexes() {
    assert_eq!(object_child_path("$", "a"), "$.a");
    assert_eq!(array_child_path("$.a", 12), "$.a[12]");
    assert_eq!(array_child_path(&object_child_path("", "k"), 0), ".k[0]");
}

fn check_every_node(n: &SearchNode, is_leaf: bool) {
    assert_eq!(n.subtree_match, n.match_count > 0);
    if n.key_match {
        assert!(n.subtree_match);
    }
    if n.value_match {
        assert!(n.subtree_match);
        assert!(is_leaf);
        assert!(n.child_at(0).is_none());
    }
}

#[test]
fn every_node_of_the_index_is_consistent() {
    let d = doc();
    for q in ["foo", "zzz", "10", "a", "b"] {
        let idx = SearchNode::build(None, &d, q);
        check_every_node(&idx, false);
        let mut i: usize = 0;
        while let Some(c) = idx.child_at(i) {
            check_every_node(c, c.child_at(0).is_none());
            let mut j: usize = 0;
            while let Some(g) = c.child_at(j) {
                check_every_node(g, g.child_at(0).is_none());
                j += 1;
            }
            i += 1;
        }
    }
}

#[test]
fn getters_give_the_node_fields() {
    let idx = SearchNode::build(None, &doc(), "foo");
    assert_eq!(idx.match_count(), idx.match_count);
    assert_eq!(idx.subtree_match(), idx.subtree_match);
    let foo = idx.child_at(0).unwrap();
    assert!(foo.key_match());
    assert!(!foo.value_match());
    assert_eq!(foo.match_count(), 1);
}
