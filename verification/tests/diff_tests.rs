use unfurl::diff::{compute_diff, format_leaf, format_value, key_prefix, DiffNode};
use unfurl::json::Json;

fn num(t: &str) -> Json {
    Json::Number(t.to_string())
}

fn s(t: &str) -> Json {
    Json::String(t.to_string())
}

fn obj(entries: Vec<(&str, Json)>) -> Json {
    Json::Object(entries.into_iter().map(|(k, v)| (k.to_string(), v)).collect())
}

fn key_of(d: &DiffNode) -> Option<String> {
    match d {
        DiffNode::Unchaged { key, .. }
        | DiffNode::Added { key, .. }
        | DiffNode::Removed { key, .. }
        | DiffNode::Changed { key, .. }
        | DiffNode::Object { key, .. }
        | DiffNode::Array { key, .. } => key.clone(),
    }
}

fn kind(d: &DiffNode) -> &'static str {
    match d {
        DiffNode::Unchaged { .. } => "unchanged",
        DiffNode::Added { .. } => "added",
        DiffNode::Removed { .. } => "removed",
        DiffNode::Changed { .. } => "changed",
        DiffNode::Object { .. } => "object",
        DiffNode::Array { .. } => "array",
    }
}

fn children(d: &DiffNode) -> &Vec<DiffNode> {
    match d {
        DiffNode::Object { children, .. } | DiffNode::Array { children, .. } => children,
        _ => panic!("not a container"),
    }
}

fn no_changes(d: &DiffNode) -> bool {
    match d {
        DiffNode::Unchaged { .. } => true,
        DiffNode::Object { children, .. } | DiffNode::Array { children, .. } => {
            children.iter().all(no_changes)
        }
        _ => false,
    }
}

#[test]
fn equal_scalars_are_unchanged() {
    let d = compute_diff(&s("x"), &s("x"));
    match d {
        DiffNode::Unchaged { key, value } => {
            assert!(key.is_none());
            assert_eq!(format!("{:?}", value), format!("{:?}", s("x")));
        }
        _ => panic!("expected unchanged"),
    }
    assert_eq!(kind(&compute_diff(&Json::Null, &Json::Null)), "unchanged");
    assert_eq!(kind(&compute_diff(&Json::Bool(true), &Json::Bool(false))), "changed");
}

#[test]
fn objects_list_new_keys_then_removed_ones() {
    let old = obj(vec![("a", num("1")), ("b", num("2"))]);
    let new = obj(vec![("b", num("3")), ("c", num("4"))]);
    let d = compute_diff(&old, &new);
    assert_eq!(kind(&d), "object");
    let ch = children(&d);
    assert_eq!(ch.len(), 3);
    assert_eq!(key_of(&ch[0]).as_deref(), Some("b"));
    assert_eq!(kind(&ch[0]), "changed");
    assert_eq!(key_of(&ch[1]).as_deref(), Some("c"));
    assert_eq!(kind(&ch[1]), "added");
    assert_eq!(key_of(&ch[2]).as_deref(), Some("a"));
    assert_eq!(kind(&ch[2]), "removed");
    match &ch[0] {
        DiffNode::Changed { old, new, .. } => {
            assert_eq!(format!("{:?}", old), format!("{:?}", num("2")));
            assert_eq!(format!("{:?}", new), format!("{:?}", num("3")));
        }
        _ => panic!(),
    }
}

#[test]
fn arrays_compare_index_by_index() {
    let old = Json::Array(vec![num("1"), num("2"), num("3")]);
    let new = Json::Array(vec![num("1"), num("5")]);
    let d = compute_diff(&old, &new);
    let ch = children(&d);
    assert_eq!(ch.len(), 3);
    assert_eq!(kind(&ch[0]), "unchanged");
    assert_eq!(key_of(&ch[0]).as_deref(), Some("0"));
    assert_eq!(kind(&ch[1]), "changed");
    assert_eq!(kind(&ch[2]), "removed");
    assert_eq!(key_of(&ch[2]).as_deref(), Some("2"));
    let d = compute_diff(&new, &old);
    assert_eq!(kind(&children(&d)[2]), "added");
}

#[test]
fn nested_containers_are_compared_recursively() {
    let old = obj(vec![("o", obj(vec![("x", Json::Null)]))]);
    let new = obj(vec![("o", obj(vec![("x", Json::Bool(false))]))]);
    let d = compute_diff(&old, &new);
    let inner = &children(&d)[0];
    assert_eq!(kind(inner), "object");
    assert_eq!(kind(&children(inner)[0]), "changed");
}

#[test]
fn different_kinds_are_changed() {
    let d = compute_diff(&obj(vec![]), &Json::Array(vec![]));
    assert_eq!(kind(&d), "changed");
    let d = compute_diff(&s("1"), &num("1"));
    assert_eq!(kind(&d), "changed");
}

#[test]
fn numbers_compare_as_serde_json_numbers() {
    assert_eq!(kind(&compute_diff(&num("-0.0"), &num("0.0"))), "unchanged");
    assert_eq!(kind(&compute_diff(&num("1"), &num("1.0"))), "changed");
    assert_eq!(kind(&compute_diff(&num("2.5"), &num("2.5"))), "unchanged");
    assert_eq!(kind(&compute_diff(&num("-3"), &num("-3"))), "unchanged");
}

#[test]
fn a_document_compared_with_itself_has_no_changes() {
    let v = obj(vec![
        ("a", Json::Array(vec![num("1"), num("1.5e10"), s("t")])),
        ("b", obj(vec![("c", Json::Null), ("d", Json::Bool(true))])),
    ]);
    assert!(no_changes(&compute_diff(&v, &v)));
}

#[test]
fn every_key_of_both_objects_is_covered() {
    let old = obj(vec![("k1", num("1")), ("k2", num("2")), ("k3", num("3"))]);
    let new = obj(vec![("k3", num("3")), ("k4", num("4"))]);
    let d = compute_diff(&old, &new);
    let keys: Vec<String> = children(&d).iter().map(|c| key_of(c).unwrap()).collect();
    assert_eq!(keys, vec!["k3", "k4", "k1", "k2"]);
}

#[test]
fn key_prefix_joins_key_and_suffix() {
    assert_eq!(key_prefix(&Some("name".to_string()), "{...}"), "name: {...}");
    assert_eq!(key_prefix(&None, "[3 items]"), "[3 items]");
    assert_eq!(key_prefix(&Some(String::new()), "x"), ": x");
}

fn same(a: &Json, b: &Json) -> bool {
    match (a, b) {
        (Json::Null, Json::Null) => true,
        (Json::Bool(x), Json::Bool(y)) => x == y,
        (Json::Number(x), Json::Number(y)) | (Json::String(x), Json::String(y)) => x == y,
        (Json::Array(x), Json::Array(y)) => {
            x.len() == y.len() && x.iter().zip(y.iter()).all(|(p, q)| same(p, q))
        }
        (Json::Object(x), Json::Object(y)) => {
            x.len() == y.len()
                && x.iter().zip(y.iter()).all(|((k, p), (l, q))| k == l && same(p, q))
        }
        _ => false,
    }
}

fn copy(v: &Json) -> Json {
    match v {
        Json::Null => Json::Null,
        Json::Bool(b) => Json::Bool(*b),
        Json::Number(t) => Json::Number(t.clone()),
        Json::String(t) => Json::String(t.clone()),
        Json::Array(items) => Json::Array(items.iter().map(copy).collect()),
        Json::Object(entries) => {
            Json::Object(entries.iter().map(|(k, v)| (k.clone(), copy(v))).collect())
        }
    }
}

fn new_side(d: &DiffNode) -> Option<Json> {
    match d {
        DiffNode::Unchaged { value, .. } | DiffNode::Added { value, .. } => Some(copy(value)),
        DiffNode::Changed { new, .. } => Some(copy(new)),
        DiffNode::Removed { .. } => None,
        DiffNode::Array { children, .. } => {
            Some(Json::Array(children.iter().filter_map(new_side).collect()))
        }
        DiffNode::Object { children, .. } => Some(Json::Object(
            children
                .iter()
                .filter_map(|c| new_side(c).map(|v| (key_of(c).unwrap(), v)))
                .collect(),
        )),
    }
}

#[test]
fn reordered_keys_make_no_changes() {
    let a = obj(vec![("x", num("1")), ("y", Json::Array(vec![s("p"), Json::Null]))]);
    let b = obj(vec![("y", Json::Array(vec![s("p"), Json::Null])), ("x", num("1"))]);
    assert!(no_changes(&compute_diff(&a, &b)));
    assert!(no_changes(&compute_diff(&b, &a)));
}

#[test]
fn integer_and_float_one_make_a_change() {
    let a = obj(vec![("a", num("1"))]);
    let b = obj(vec![("a", num("1.0"))]);
    let d = compute_diff(&a, &b);
    assert!(!no_changes(&d));
    assert_eq!(kind(&children(&d)[0]), "changed");
}

#[test]
fn longer_array_is_a_change() {
    let a = Json::Array(vec![num("1")]);
    let b = Json::Array(vec![num("1"), num("2")]);
    let d = compute_diff(&a, &b);
    assert!(!no_changes(&d));
    assert_eq!(kind(&children(&d)[1]), "added");
}

#[test]
fn the_new_document_can_be_read_back_from_the_diff() {
    let old = obj(vec![
        ("k1", num("1")),
        ("k2", Json::Array(vec![s("a"), s("b"), s("c")])),
        ("k3", obj(vec![("z", Json::Bool(false))])),
    ]);
    let new = obj(vec![
        ("k3", obj(vec![("z", Json::Bool(true)), ("w", Json::Null)])),
        ("k2", Json::Array(vec![s("a")])),
        ("k4", num("4")),
    ]);
    let d = compute_diff(&old, &new);
    assert!(key_of(&d).is_none());
    assert!(same(&new_side(&d).unwrap(), &new));
}

fn old_side(d: &DiffNode) -> Option<Json> {
    match d {
        DiffNode::Unchaged { value, .. } | DiffNode::Removed { value, .. } => Some(copy(value)),
        DiffNode::Changed { old, .. } => Some(copy(old)),
        DiffNode::Added { .. } => None,
        DiffNode::Array { children, .. } => {
            Some(Json::Array(children.iter().filter_map(old_side).collect()))
        }
        DiffNode::Object { children, .. } => Some(Json::Object(
            children
                .iter()
                .filter_map(|c| old_side(c).map(|v| (key_of(c).unwrap(), v)))
                .collect(),
        )),
    }
}

fn same_ignoring_key_order(a: &Json, b: &Json) -> bool {
    match (a, b) {
        (Json::Array(x), Json::Array(y)) => {
            x.len() == y.len()
                && x.iter().zip(y.iter()).all(|(p, q)| same_ignoring_key_order(p, q))
        }
        (Json::Object(x), Json::Object(y)) => {
            x.len() == y.len()
                && x.iter().all(|(k, p)| {
                    y.iter().any(|(l, q)| k == l && same_ignoring_key_order(p, q))
                })
        }
        _ => same(a, b),
    }
}

#[test]
fn the_old_document_can_be_read_back_from_the_diff() {
    let old = obj(vec![
        ("k1", num("1")),
        ("k2", Json::Array(vec![s("a"), s("b"), s("c")])),
        ("k3", obj(vec![("z", Json::Bool(false)), ("y", Json::Null)])),
    ]);
    let new = obj(vec![
        ("k3", obj(vec![("z", Json::Bool(true)), ("w", Json::Null)])),
        ("k2", Json::Array(vec![s("a")])),
        ("k4", num("4")),
    ]);
    let d = compute_diff(&old, &new);
    let back = old_side(&d).unwrap();
    assert!(same_ignoring_key_order(&back, &old));
    // removed keys come after the new object's keys
    match &back {
        Json::Object(es) => {
            let keys: Vec<&str> = es.iter().map(|(k, _)| k.as_str()).collect();
            assert_eq!(keys, vec!["k3", "k2", "k1"]);
        }
        _ => panic!("not an object"),
    }
}

fn mirrors(d: &DiffNode, e: &DiffNode) -> bool {
    if key_of(d) != key_of(e) {
        return false;
    }
    match (d, e) {
        (DiffNode::Unchaged { .. }, DiffNode::Unchaged { .. }) => true,
        (DiffNode::Added { value: v, .. }, DiffNode::Removed { value: w, .. })
        | (DiffNode::Removed { value: v, .. }, DiffNode::Added { value: w, .. }) => same(v, w),
        (DiffNode::Changed { old: o, new: n, .. }, DiffNode::Changed { old: p, new: q, .. }) => {
            same(o, q) && same(n, p)
        }
        (DiffNode::Array { children: cs, .. }, DiffNode::Array { children: ds, .. }) => {
            cs.len() == ds.len() && cs.iter().zip(ds.iter()).all(|(c, x)| mirrors(c, x))
        }
        (DiffNode::Object { children: cs, .. }, DiffNode::Object { children: ds, .. }) => {
            cs.iter().all(|c| ds.iter().any(|x| mirrors(c, x)))
                && ds.iter().all(|x| cs.iter().any(|c| mirrors(c, x)))
        }
        _ => false,
    }
}

#[test]
fn comparing_the_other_way_round_mirrors_the_diff() {
    let a = obj(vec![
        ("k1", num("1")),
        ("k2", Json::Array(vec![s("a"), s("b"), s("c")])),
        ("k3", obj(vec![("z", Json::Bool(false))])),
        ("k5", num("-0.0")),
    ]);
    let b = obj(vec![
        ("k3", obj(vec![("z", Json::Bool(true)), ("w", Json::Null)])),
        ("k2", Json::Array(vec![s("a")])),
        ("k4", num("4")),
        ("k5", num("0.0")),
    ]);
    let d = compute_diff(&a, &b);
    let e = compute_diff(&b, &a);
    assert!(mirrors(&d, &e));
    let dk: Vec<String> = children(&d).iter().map(|c| key_of(c).unwrap()).collect();
    let ek: Vec<String> = children(&e).iter().map(|c| key_of(c).unwrap()).collect();
    assert_eq!(dk, vec!["k3", "k2", "k4", "k5", "k1"]);
    assert_eq!(ek, vec!["k1", "k2", "k3", "k5", "k4"]);
}

#[test]
fn leaves_are_written_as_json() {
    assert_eq!(format_value(&s("hi")), "\"hi\"");
    assert_eq!(format_value(&Json::Null), "null");
    assert_eq!(format_value(&Json::Bool(true)), "true");
    assert_eq!(format_value(&Json::Bool(false)), "false");
    assert_eq!(format_value(&num("-2.5")), "-2.5");
    assert_eq!(format_value(&Json::Array(vec![num("1"), s("a"), Json::Null])), "[1,\"a\",null]");
    assert_eq!(format_value(&obj(vec![("k", Json::Array(vec![]))])), "{\"k\":[]}");
}

#[test]
fn leaf_rows_carry_their_key() {
    assert_eq!(format_leaf(&Some("name".to_string()), &s("x")), "name: \"x\"");
    assert_eq!(format_leaf(&None, &num("3")), "3");
    assert_eq!(format_leaf(&Some("0".to_string()), &Json::Bool(false)), "0: false");
}

#[test]
fn a_number_text_equals_itself() {
    assert_eq!(kind(&compute_diff(&num("1e400"), &num("1e400"))), "unchanged");
    assert_eq!(kind(&compute_diff(&num("0.0"), &num("-0.0"))), "unchanged");
    assert_eq!(kind(&compute_diff(&num("1e400"), &num("1"))), "changed");
}
