use mindtask::cli::search::{find_chars, lower_with_map, search_hits, snippet, snippet_block};
use mindtask::model::id::ConceptId;
use mindtask::model::project::Project;

#[test]
fn matches_is_case_insensitive_on_the_haystack() {
    assert!(mindtask::cli::search::matches("Design API", "api"));
    assert!(mindtask::cli::search::matches("ÉCOLE", "école"));
    assert!(!mindtask::cli::search::matches("Design API", "API"));
    assert!(mindtask::cli::search::matches("anything", ""));
}

#[test]
fn lower_with_map_records_where_each_char_came_from() {
    let (low, origin) = lower_with_map("AbC");
    assert_eq!(low, "abc");
    assert_eq!(origin, vec![0, 1, 2]);
    let (low, origin) = lower_with_map("İx");
    assert_eq!(low, "i\u{307}x");
    assert_eq!(origin, vec![0, 0, 1]);
}

#[test]
fn find_chars_gives_the_first_position() {
    let h: Vec<char> = "abcabc".chars().collect();
    let q: Vec<char> = "ca".chars().collect();
    assert_eq!(find_chars(&h, &q), Some(2));
    let none: Vec<char> = "zz".chars().collect();
    assert_eq!(find_chars(&h, &none), None);
    assert_eq!(find_chars(&h, &[]), Some(0));
}

#[test]
fn snippet_shows_context_with_ellipses() {
    let text = format!("{}needle{}", "a".repeat(50), "b".repeat(50));
    let s = snippet(&text, "needle", 200).unwrap();
    assert_eq!(s, format!("…{}needle{}…", "a".repeat(40), "b".repeat(40)));
    assert_eq!(snippet("short text", "absent", 80), None);
}

#[test]
fn snippet_is_one_line_and_fits() {
    let s = snippet("first line\nsecond Line with match", "line", 12).unwrap();
    assert!(!s.contains('\n'));
    assert_eq!(s.chars().count(), 12);
    assert_eq!(s, "first line …");
}

#[test]
fn snippet_block_only_for_description_searches() {
    assert_eq!(snippet_block(Some("has a match"), "match", false, 80), None);
    assert_eq!(snippet_block(None, "match", true, 80), None);
    assert_eq!(snippet_block(Some("has a match"), "match", true, 80).unwrap(), "     has a match");
}

#[test]
fn search_hits_finds_names_and_optionally_descriptions() {
    let mut p = Project::new();
    p.add_concept("Networking".into(), None, Some("routers".into())).unwrap();
    p.add_concept("Storage".into(), None, Some("disks and NET shares".into())).unwrap();
    p.add_task("Configure net".into(), None, None, None);
    p.add_task("Buy disks".into(), Some("for the net".into()), None, None);
    let (q, concepts, tasks) = search_hits(&p, "NET", false);
    assert_eq!(q, "net");
    assert_eq!(concepts, vec![0]);
    assert_eq!(tasks, vec![0]);
    let (_, concepts, tasks) = search_hits(&p, "NET", true);
    assert_eq!(concepts, vec![0, 1]);
    assert_eq!(tasks, vec![0, 1]);
    let _ = ConceptId(1);
}
