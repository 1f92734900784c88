use steam_search_provider::filter::should_filter;
use steam_search_provider::index::{CatalogRecord, SearchIndex};
use steam_search_provider::provider::Application;
use steam_search_provider::text::contains_text;

fn record(app_id: u32, name: Option<&str>) -> CatalogRecord {
    CatalogRecord { app_id, name: name.map(|n| n.to_string()) }
}

fn strings(items: &[&str]) -> Vec<String> {
    items.iter().map(|s| s.to_string()).collect()
}

/// Portal 2 beside Proton 9.0, which the filter leaves out.
fn portal_app() -> Application {
    let index = SearchIndex::from_catalog(vec![
        record(100, Some("Portal 2")),
        record(2805730, Some("Proton 9.0")),
    ]);
    Application::new(index)
}

#[test]
fn filter_excludes_components() {
    assert!(should_filter(2805730));
    assert!(should_filter(228980));
    assert!(should_filter(1628350));
    assert!(should_filter(3658110));
}

#[test]
fn filter_keeps_unknown_ids() {
    assert!(!should_filter(100));
    assert!(!should_filter(0));
    assert!(!should_filter(u32::MAX));
    assert!(!should_filter(2805731));
}

#[test]
fn catalog_drops_filtered_entries() {
    let app = portal_app();
    assert_eq!(app.games.len(), 1);
    assert_eq!(app.games.get(&"100".to_string()), Some(&"Portal 2".to_string()));
    assert_eq!(app.games.get(&"2805730".to_string()), None);
}

#[test]
fn catalog_later_record_wins() {
    let index = SearchIndex::from_catalog(vec![
        record(100, Some("Old Name")),
        record(7, Some("Other")),
        record(100, Some("New Name")),
    ]);
    assert_eq!(index.len(), 2);
    assert_eq!(index.get(&"100".to_string()), Some(&"New Name".to_string()));
    assert_eq!(index.get(&"7".to_string()), Some(&"Other".to_string()));
}

#[test]
fn catalog_skips_records_without_name() {
    let index = SearchIndex::from_catalog(vec![record(100, None)]);
    assert_eq!(index.len(), 0);
    let index = SearchIndex::from_catalog(vec![record(100, Some("Kept")), record(100, None)]);
    assert_eq!(index.get(&"100".to_string()), Some(&"Kept".to_string()));
}

#[test]
fn catalog_ids_in_decimal() {
    let index = SearchIndex::from_catalog(vec![record(1234567, Some("A")), record(0, Some("Z"))]);
    assert_eq!(index.get(&"1234567".to_string()), Some(&"A".to_string()));
    assert_eq!(index.get(&"0".to_string()), Some(&"Z".to_string()));
}

#[test]
fn insert_replaces_name() {
    let mut index = SearchIndex::new();
    index.insert("1".to_string(), "First".to_string());
    index.insert("2".to_string(), "Second".to_string());
    index.insert("1".to_string(), "Third".to_string());
    assert_eq!(index.len(), 2);
    assert_eq!(index.get(&"1".to_string()), Some(&"Third".to_string()));
}

#[test]
fn query_single_term() {
    let app = portal_app();
    assert_eq!(app.initial_result_set(&strings(&["portal"])), strings(&["100"]));
}

#[test]
fn query_without_match() {
    let app = portal_app();
    assert_eq!(app.initial_result_set(&strings(&["zz"])), Vec::<String>::new());
}

#[test]
fn query_two_terms_duplicates() {
    let app = portal_app();
    assert_eq!(app.initial_result_set(&strings(&["portal", "2"])), strings(&["100", "100"]));
}

#[test]
fn query_without_terms() {
    let app = portal_app();
    assert_eq!(app.initial_result_set(&[]), Vec::<String>::new());
}

#[test]
fn query_ignores_case() {
    let mut index = SearchIndex::new();
    index.insert("5".to_string(), "ÉCLAIR Quest".to_string());
    let app = Application::new(index);
    assert_eq!(app.initial_result_set(&strings(&["éclair"])), strings(&["5"]));
    assert_eq!(app.initial_result_set(&strings(&["QUEST"])), strings(&["5"]));
    assert_eq!(app.initial_result_set(&strings(&["Éc", "xyz", "r q"])), strings(&["5", "5"]));
}

#[test]
fn query_results_are_games_matching_a_term() {
    let index = SearchIndex::from_catalog(vec![
        record(10, Some("Half-Life")),
        record(20, Some("Portal")),
        record(30, Some("Left 4 Dead")),
        record(228980, Some("Steamworks Common Redistributables")),
    ]);
    let app = Application::new(index);
    let terms = strings(&["l", "com"]);
    let found = app.initial_result_set(&terms);
    assert_eq!(found.len(), 3);
    for id in &found {
        let name = app.games.get(id).expect("a game of the index").to_lowercase();
        assert!(terms.iter().any(|t| name.contains(t.as_str())));
    }
    assert!(!found.contains(&"228980".to_string()));
}

#[test]
fn filter_order_does_not_matter() {
    let records = vec![
        (100, Some("Portal 2")),
        (2805730, Some("Proton 9.0")),
        (100, Some("Portal 2 Again")),
        (1070560, Some("Runtime")),
    ];
    let all = SearchIndex::from_catalog(records.iter().map(|(i, n)| record(*i, *n)).collect());
    let kept = SearchIndex::from_catalog(
        records.iter().filter(|(i, _)| !should_filter(*i)).map(|(i, n)| record(*i, *n)).collect(),
    );
    assert_eq!(all.len(), kept.len());
    for id in ["100", "2805730", "1070560"] {
        assert_eq!(all.get(&id.to_string()), kept.get(&id.to_string()));
    }
}

#[test]
fn describe_single_result() {
    let app = portal_app();
    let metas = app.result_metas(&strings(&["100"]));
    assert_eq!(metas.len(), 1);
    assert_eq!(metas[0].id, "100");
    assert_eq!(metas[0].name, "Portal 2");
    assert_eq!(metas[0].description, "100");
    assert_eq!(metas[0].icon, "icon_100");
}

#[test]
fn describe_keeps_order_and_length() {
    let mut index = SearchIndex::new();
    index.insert("100".to_string(), "Portal 2".to_string());
    index.insert("200".to_string(), "Dota 2".to_string());
    let app = Application::new(index);
    let metas = app.result_metas(&strings(&["200", "100", "200"]));
    let ids: Vec<&str> = metas.iter().map(|m| m.id.as_str()).collect();
    assert_eq!(ids, vec!["200", "100", "200"]);
    let names: Vec<&str> = metas.iter().map(|m| m.name.as_str()).collect();
    assert_eq!(names, vec!["Dota 2", "Portal 2", "Dota 2"]);
    assert_eq!(metas[0].icon, "icon_200");
    assert!(app.result_metas(&[]).is_empty());
}

#[test]
fn activate_builds_launch_uri() {
    let app = portal_app();
    let uri = app.activate_result(&"100".to_string(), &strings(&["portal"]), 42);
    assert_eq!(uri, "steam://rungameid/100");
    assert!(uri.contains("100"));
}

#[test]
fn contains_text_cases() {
    assert!(contains_text("portal 2", ""));
    assert!(contains_text("", ""));
    assert!(contains_text("portal 2", "tal 2"));
    assert!(contains_text("portal 2", "portal 2"));
    assert!(!contains_text("portal", "portal 2"));
    assert!(!contains_text("portal 2", "Portal"));
    assert!(contains_text("éclair", "cla"));
    assert!(!contains_text("", "a"));
}
