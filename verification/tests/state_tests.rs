use unfurl::diff::DiffNode;
use unfurl::json::Json;
use unfurl::state::UnfurlApp;
use unfurl::theme::Theme;

const DOC: &str = "{\"name\": \"unfurl\", \"n\": 3}";

#[test]
fn starts_empty_with_the_stored_theme() {
    let app = UnfurlApp::new(Theme::Nord);
    assert_eq!(app.theme(), Theme::Nord);
    assert!(app.input().is_empty());
    assert!(app.parsed().is_none());
    assert!(app.stats().is_none());
    assert!(app.search().is_none());
    assert!(app.error().is_none());
    assert!(!app.show_settings());
    assert!(!app.diff_mode());
}

#[test]
fn blank_input_is_an_empty_file() {
    let mut app = UnfurlApp::new(Theme::Dark);
    app.set_input("  \n ".to_string());
    assert!(app.format());
    assert_eq!(app.error().map(|e| e.as_str()), Some("Invalid: Empty file"));
    assert!(app.parsed().is_none());
}

#[test]
fn parse_failure_is_reported() {
    let mut app = UnfurlApp::new(Theme::Dark);
    app.set_input("{".to_string());
    assert!(app.format());
    assert_eq!(
        app.error().map(|e| e.as_str()),
        Some("Invalid JSON: EOF while parsing an object at line 1 column 1")
    );
    assert!(app.parsed().is_none());
    assert!(app.stats().is_none());
}

#[test]
fn formatting_shows_document_and_figures() {
    let mut app = UnfurlApp::new(Theme::Dark);
    app.set_input(DOC.to_string());
    assert!(app.format());
    assert!(app.error().is_none());
    match app.parsed() {
        Some(Json::Object(entries)) => {
            // serde_json's map yields its keys in sorted order
            assert_eq!(entries[0].0, "n");
            assert_eq!(entries[1].0, "name");
        }
        _ => panic!("expected an object"),
    }
    let st = app.stats().unwrap();
    assert_eq!(st.nodes, 3);
    assert_eq!(st.depth, 1);
    assert!(app.search().is_none());
}

#[test]
fn formatting_twice_changes_nothing() {
    let mut app = UnfurlApp::new(Theme::Dark);
    app.set_input(DOC.to_string());
    app.edit_search("un".to_string());
    app.format();
    let first = (
        format!("{:?}", app.parsed()),
        app.stats().map(|s| (s.nodes, s.depth)),
        format!("{:?}", app.search()),
        app.error().cloned(),
    );
    app.format();
    let second = (
        format!("{:?}", app.parsed()),
        app.stats().map(|s| (s.nodes, s.depth)),
        format!("{:?}", app.search()),
        app.error().cloned(),
    );
    assert_eq!(first, second);
}

#[test]
fn search_follows_the_query() {
    let mut app = UnfurlApp::new(Theme::Dark);
    app.set_input(DOC.to_string());
    app.format();
    app.edit_search(" UNF ".to_string());
    assert_eq!(app.search().unwrap().match_count, 1);
    app.edit_search("   ".to_string());
    assert!(app.search().is_none());
    app.edit_search("n".to_string());
    assert_eq!(app.search().unwrap().match_count, 2);
    app.reset_search();
    assert!(app.search().is_none());
    assert!(app.search_query().is_empty());
}

#[test]
fn formatting_keeps_the_search() {
    let mut app = UnfurlApp::new(Theme::Dark);
    app.edit_search("name".to_string());
    assert!(app.search().is_none());
    app.set_input(DOC.to_string());
    app.format();
    assert_eq!(app.search().unwrap().match_count, 1);
}

#[test]
fn clear_empties_everything_but_the_screens() {
    let mut app = UnfurlApp::new(Theme::Light);
    app.set_input(DOC.to_string());
    app.format();
    app.edit_search("n".to_string());
    app.toggle_diff();
    app.clear();
    assert!(app.input().is_empty());
    assert!(app.search_query().is_empty());
    assert!(app.parsed().is_none());
    assert!(app.search().is_none());
    assert!(app.error().is_none());
    assert!(app.diff_mode());
    assert_eq!(app.theme(), Theme::Light);
}

#[test]
fn settings_and_diff_screens_exclude_each_other() {
    let mut app = UnfurlApp::new(Theme::Dark);
    app.toggle_settings();
    assert!(app.show_settings());
    app.toggle_diff();
    assert!(app.diff_mode());
    assert!(!app.show_settings());
    app.toggle_settings();
    assert!(app.show_settings());
    assert!(!app.diff_mode());
    app.close_settings();
    assert!(!app.show_settings());
    app.toggle_diff();
    app.toggle_diff();
    assert!(!app.diff_mode());
    for _ in 0..5 {
        app.toggle_diff();
        assert!(!(app.show_settings() && app.diff_mode()));
        app.toggle_settings();
        assert!(!(app.show_settings() && app.diff_mode()));
    }
}

#[test]
fn choosing_a_theme_reports_a_change() {
    let mut app = UnfurlApp::new(Theme::Dark);
    assert!(app.choose_theme(Theme::Dracula));
    assert_eq!(app.theme(), Theme::Dracula);
    assert!(!app.choose_theme(Theme::Dracula));
}

#[test]
fn compare_reports_the_first_invalid_document() {
    let mut app = UnfurlApp::new(Theme::Dark);
    app.set_input("nope".to_string());
    app.set_diff_input_b("[".to_string());
    assert!(app.compare());
    assert_eq!(app.diff_error().map(|e| e.as_str()), Some("JSON A is invalid"));
    app.set_input("null".to_string());
    assert!(app.compare());
    assert_eq!(app.diff_error().map(|e| e.as_str()), Some("JSON B is invalid"));
    app.set_diff_input_b("true".to_string());
    assert!(app.compare());
    assert!(app.diff_error().is_none());
    match app.parsed() {
        Some(Json::Array(items)) => assert_eq!(items.len(), 2),
        _ => panic!("expected the pair of documents"),
    }
    assert!(app.stats().is_none());
}

#[test]
fn comparison_needs_both_documents_and_no_message() {
    let mut app = UnfurlApp::new(Theme::Dark);
    app.set_input("true".to_string());
    app.set_diff_input_b("false".to_string());
    match app.comparison() {
        Some(DiffNode::Changed { .. }) => {}
        _ => panic!("expected a changed leaf"),
    }
    app.set_diff_input_b("bad".to_string());
    assert!(app.comparison().is_none());
    assert!(app.compare());
    app.set_diff_input_b("false".to_string());
    assert!(app.comparison().is_none());
}
