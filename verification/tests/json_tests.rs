use unfurl::json::{count_nodes, max_depth, node_count_checked, Json, JsonStats};

fn num(t: &str) -> Json {
    Json::Number(t.to_string())
}

fn s(t: &str) -> Json {
    Json::String(t.to_string())
}

fn obj(entries: Vec<(&str, Json)>) -> Json {
    Json::Object(entries.into_iter().map(|(k, v)| (k.to_string(), v)).collect())
}

fn sample() -> Json {
    // {"a": [1, 2, {"b": null}]}
    obj(vec![("a", Json::Array(vec![num("1"), num("2"), obj(vec![("b", Json::Null)])]))])
}

#[test]
fn counts_every_value_once() {
    assert_eq!(count_nodes(&sample()), 6);
    assert_eq!(count_nodes(&Json::Null), 1);
    assert_eq!(count_nodes(&Json::Array(vec![])), 1);
    assert_eq!(count_nodes(&obj(vec![("x", s("y"))])), 2);
}

#[test]
fn depth_of_scalars_and_containers() {
    assert_eq!(max_depth(&sample(), 0), 3);
    assert_eq!(max_depth(&Json::Bool(true), 0), 0);
    assert_eq!(max_depth(&Json::Array(vec![]), 0), 1);
    assert_eq!(max_depth(&obj(vec![]), 4), 5);
    assert_eq!(max_depth(&Json::Array(vec![num("1")]), 2), 3);
}

#[test]
fn depth_never_exceeds_node_count() {
    for v in [sample(), Json::Null, Json::Array(vec![Json::Array(vec![Json::Array(vec![])])])] {
        assert!(max_depth(&v, 0) <= count_nodes(&v));
    }
}

#[test]
fn stats_hold_count_and_depth() {
    let st = JsonStats::compute(&sample());
    assert_eq!(st.nodes, 6);
    assert_eq!(st.depth, 3);
}

#[test]
fn checked_count_matches_count() {
    assert_eq!(node_count_checked(&sample()), Some(6));
    assert_eq!(node_count_checked(&s("x")), Some(1));
}

#[test]
fn deep_clone_copies_everything() {
    let v = sample();
    let c = v.deep_clone();
    assert_eq!(format!("{:?}", v), format!("{:?}", c));
}

#[test]
fn parsing_moves_serde_json_values_into_the_model() {
    let v = unfurl::json::parse_document("{\"b\": [1, 2.50, -0.0], \"a\": \"x\", \"c\": null}").unwrap();
    assert_eq!(
        format!("{:?}", v),
        format!(
            "{:?}",
            obj(vec![
                ("a", s("x")),
                ("b", Json::Array(vec![num("1"), num("2.5"), num("-0.0")])),
                ("c", Json::Null),
            ])
        )
    );
}

#[test]
fn parse_errors_carry_serde_json_messages() {
    assert_eq!(
        unfurl::json::parse_document("[1,").unwrap_err(),
        "EOF while parsing a value at line 1 column 3"
    );
    assert!(unfurl::json::parse_document("").is_err());
}
