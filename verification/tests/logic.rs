use patent_tagger::domain::annotations::locate;
use patent_tagger::domain::audit::{audit_counts, confirmed_count};
use patent_tagger::domain::export::{abstract_sources, csv_field, tag_folder_names};
use patent_tagger::domain::full_automation::audit_bits;
use patent_tagger::domain::searches::{new_search, with_progress, SavedSearch, SearchError, SearchFields};
use patent_tagger::ops::client::token_lifetime_secs;
use patent_tagger::domain::jobs::tally;
use patent_tagger::domain::labels::{human_state, LabelState};
use patent_tagger::domain::library::{passes_tag_filters, search_query, LibraryFilters, DRAWINGS_EXISTS, FULLTEXT_EXISTS};
use patent_tagger::domain::settings::{
    bool_setting, tag_ids_setting, tag_ids_text, text_setting, DEFAULT_DRAWINGS_POLICY, DEFAULT_FULLTEXT_POLICY,
};
use patent_tagger::domain::tags::{
    check_hotkey, check_name_and_definition, parent_step, refused_for_hotkey, ParentStep, TagError, TagFields,
    MAX_ANCESTOR_STEPS,
};
use patent_tagger::ops::client::{blocked, clearance, outcome, status_of, try_again, Clearance, Outcome};
use patent_tagger::ops::error::OpsError;
use patent_tagger::ops::retry::MAX_ATTEMPTS;
use patent_tagger::ops::search::{page_from, percent_encode};
use patent_tagger::ops::throttle::parse as parse_throttle;

fn no_filters() -> LibraryFilters {
    LibraryFilters {
        query: None,
        include_tag_ids: Vec::new(),
        exclude_tag_ids: Vec::new(),
        label_source: None,
        review_state: None,
        fulltext_availability: None,
        drawings_availability: None,
    }
}

#[test]
fn library_query_without_filters_lists_fetched_documents_newest_first() {
    let q = search_query(&no_filters());
    assert_eq!(
        q.sql,
        "SELECT DISTINCT d.id, d.pub_key, d.title, d.review_state FROM documents d \
         WHERE d.fetch_status = 'fetched' ORDER BY d.id DESC"
    );
    assert!(q.binds.is_empty());
}

#[test]
fn library_query_binds_every_filter_value_in_order() {
    let mut f = no_filters();
    f.query = Some("battery".to_string());
    f.label_source = Some("machine".to_string());
    f.review_state = Some("validated".to_string());
    f.fulltext_availability = Some("available".to_string());
    f.drawings_availability = Some("unavailable".to_string());
    let q = search_query(&f);
    let expected = format!(
        "SELECT DISTINCT d.id, d.pub_key, d.title, d.review_state FROM documents d \
         JOIN documents_fts fts ON fts.rowid = d.id WHERE d.fetch_status = 'fetched' \
         AND documents_fts MATCH ?1 \
         AND EXISTS (SELECT 1 FROM labels l WHERE l.doc_id = d.id AND l.source = ?2) \
         AND d.review_state = ?3 AND {} AND NOT {} ORDER BY d.id DESC",
        FULLTEXT_EXISTS, DRAWINGS_EXISTS
    );
    assert_eq!(q.sql, expected);
    assert_eq!(q.binds, vec!["battery".to_string(), "human".to_string(), "validated".to_string()]);
}

#[test]
fn a_blank_text_query_matches_everything() {
    let mut f = no_filters();
    f.query = Some("   ".to_string());
    f.review_state = Some("queued".to_string());
    let q = search_query(&f);
    assert!(!q.sql.contains("documents_fts"));
    assert!(q.sql.contains("d.review_state = ?1"));
    assert_eq!(q.binds, vec!["queued".to_string()]);
}

#[test]
fn tag_filters_require_every_included_and_no_excluded_tag() {
    let mut f = no_filters();
    f.include_tag_ids = vec![1, 2];
    f.exclude_tag_ids = vec![3];
    assert!(passes_tag_filters(&f, &[1, 2, 4]));
    assert!(!passes_tag_filters(&f, &[1]));
    assert!(!passes_tag_filters(&f, &[1, 2, 3]));
    assert!(passes_tag_filters(&no_filters(), &[]));
}

fn tag_fields<'a>(name: &'a str, definition: &'a str) -> TagFields<'a> {
    TagFields { name, definition, parent_id: None, color: None, hotkey: None }
}

#[test]
fn tag_fields_are_trimmed_and_blank_optionals_dropped() {
    let f = TagFields { name: "  Battery ", definition: " About batteries ", parent_id: Some(3), color: Some("  "), hotkey: Some(" b ") }
        .normalised();
    assert_eq!(f.name, "Battery");
    assert_eq!(f.definition, "About batteries");
    assert_eq!(f.parent_id, Some(3));
    assert_eq!(f.color, None);
    assert_eq!(f.hotkey, Some("b"));
}

#[test]
fn a_tag_needs_a_name_then_a_definition() {
    assert!(matches!(check_name_and_definition(&tag_fields("", "")), Err(TagError::EmptyName)));
    assert!(matches!(check_name_and_definition(&tag_fields("Battery", "")), Err(TagError::EmptyDefinition)));
    assert!(check_name_and_definition(&tag_fields("Battery", "About batteries")).is_ok());
}

#[test]
fn hotkeys_are_single_unreserved_characters_compared_in_lowercase() {
    assert_eq!(check_hotkey("B").unwrap(), "b");
    assert!(matches!(check_hotkey("bb"), Err(TagError::InvalidHotkey)));
    assert!(matches!(check_hotkey(""), Err(TagError::InvalidHotkey)));
    match check_hotkey("J") {
        Err(TagError::ReservedHotkey(k)) => assert_eq!(k, "J"),
        other => panic!("expected a reserved hotkey, got {other:?}"),
    }
    assert!(matches!(check_hotkey("/"), Err(TagError::ReservedHotkey(_))));
    assert!(refused_for_hotkey(&TagError::InvalidHotkey));
    assert!(refused_for_hotkey(&TagError::HotkeyInUse("b".to_string(), "Other".to_string())));
    assert!(!refused_for_hotkey(&TagError::EmptyName));
}

#[test]
fn the_parent_walk_refuses_a_cycle_and_an_overlong_chain() {
    // Editing tag 1, proposed parent 2, whose parent is 1: a cycle.
    assert_eq!(parent_step(Some(1), 0, 2, Some(1)), ParentStep::Up(1));
    assert_eq!(parent_step(Some(1), 1, 1, None), ParentStep::Refuse);
    // A new tag under a top-level tag is fine.
    assert_eq!(parent_step(None, 0, 2, None), ParentStep::Accept);
    assert_eq!(parent_step(None, MAX_ANCESTOR_STEPS + 1, 7, Some(8)), ParentStep::Refuse);
    assert_eq!(parent_step(None, MAX_ANCESTOR_STEPS, 7, Some(8)), ParentStep::Up(8));
}

#[test]
fn a_review_labels_checked_tags_pos_and_the_others_neg() {
    assert_eq!(human_state(&[1, 3], 3), LabelState::Pos);
    assert_eq!(human_state(&[1, 3], 2), LabelState::Neg);
    assert_eq!(LabelState::Pos.as_str(), "pos");
    assert_eq!(LabelState::Neg.as_str(), "neg");
}

#[test]
fn job_counts_take_each_states_row() {
    let rows = vec![("failed".to_string(), 2), ("pending".to_string(), 5)];
    let c = tally("fulltext", &rows);
    assert_eq!(c.kind, "fulltext");
    assert_eq!((c.pending, c.running, c.failed), (5, 0, 2));
    let empty = tally("drawings", &[]);
    assert_eq!((empty.pending, empty.running, empty.failed), (0, 0, 0));
}

#[test]
fn settings_fall_back_to_their_defaults() {
    assert!(bool_setting(Some("true"), false));
    assert!(!bool_setting(Some("yes"), true));
    assert!(bool_setting(None, true));
    assert_eq!(text_setting(None, DEFAULT_FULLTEXT_POLICY), "after_tagging_all");
    assert_eq!(text_setting(None, DEFAULT_DRAWINGS_POLICY), "on_demand");
    assert_eq!(text_setting(Some("never".to_string()), DEFAULT_DRAWINGS_POLICY), "never");
}

#[test]
fn policy_tag_ids_round_trip_through_their_stored_text() {
    let text = tag_ids_text(&[1, 2, 3]);
    assert_eq!(text, "[1,2,3]");
    assert_eq!(tag_ids_setting(Some(text.as_str())), vec![1, 2, 3]);
    assert_eq!(tag_ids_setting(None), Vec::<i64>::new());
    assert_eq!(tag_ids_setting(Some("not json")), Vec::<i64>::new());
    assert_eq!(tag_ids_text(&[]), "[]");
}

#[test]
fn audit_sampling_bits_are_a_fixed_hash_of_the_id() {
    assert_eq!(audit_bits(0), 3687806117);
    assert_eq!(audit_bits(1), 3362277248);
    assert_eq!(audit_bits(42), 619383203);
    assert_eq!(audit_bits(-1), 828620670);
    assert_eq!(audit_bits(42), audit_bits(42));
}

#[test]
fn clearance_follows_the_last_throttling_header() {
    assert!(matches!(clearance(&None), Clearance::Go));
    let green = parse_throttle("idle (retrieval=green:200, search=green:30)").unwrap();
    assert!(matches!(clearance(&Some(green)), Clearance::Go));
    let yellow = parse_throttle("busy (retrieval=green:200, search=yellow:30)").unwrap();
    match clearance(&Some(yellow)) {
        Clearance::WaitThenGo(d) => assert_eq!(d.as_secs(), 2),
        other => panic!("expected a pause, got {other:?}"),
    }
    let black = parse_throttle("overloaded (retrieval=black:0)").unwrap();
    assert!(matches!(clearance(&Some(black)), Clearance::Stop));
    match blocked() {
        OpsError::Blocked(s) => assert_eq!(s, "black"),
        other => panic!("expected blocked, got {other:?}"),
    }
}

#[test]
fn responses_are_sorted_by_status() {
    assert_eq!(outcome(200), Outcome::Success);
    assert_eq!(outcome(204), Outcome::Success);
    assert_eq!(outcome(401), Outcome::Unauthorized);
    assert_eq!(outcome(404), Outcome::Failure);
    assert_eq!(outcome(503), Outcome::Failure);
}

#[test]
fn only_server_and_network_errors_are_tried_again_within_the_attempts() {
    let server = OpsError::Api { status: 503, message: "busy".to_string() };
    let client = OpsError::Api { status: 404, message: "missing".to_string() };
    assert_eq!(status_of(&server), Some(503));
    assert_eq!(status_of(&OpsError::QuotaExhausted), None);
    assert!(try_again(&server, 0));
    assert!(!try_again(&client, 0));
    assert!(try_again(&OpsError::Parse("x".to_string()), 0));
    assert!(!try_again(&server, MAX_ATTEMPTS - 1));
    let unauthorized = OpsError::Api { status: 401, message: "token expired".to_string() };
    assert!(try_again(&unauthorized, 0));
    assert!(!try_again(&unauthorized, MAX_ATTEMPTS - 1));
}

#[test]
fn a_percent_encoded_query_holds_only_url_safe_characters() {
    let encoded = percent_encode("pa=\"Ünïted & Sons\" and py>=2001 #x/?");
    assert!(encoded
        .chars()
        .all(|c| c == '%' || c.is_ascii_alphanumeric() || matches!(c, '-' | '.' | '_' | '~')));
    assert_eq!(percent_encode("a b&c"), "a%20b%26c");
    assert_eq!(percent_encode("Ü"), "%C3%9C");
}

#[test]
fn walking_up_the_parents_never_accepts_a_cycle() {
    // Tags 1 <- 2 <- 3 (3's parent is 2, 2's parent is 1). Making 3 the
    // parent of 1 would close a cycle; making 3 the parent of a new tag is fine.
    let parent_of = |t: i64| -> Option<i64> {
        match t {
            3 => Some(2),
            2 => Some(1),
            _ => None,
        }
    };
    let walk = |editing: Option<i64>, start: i64| -> bool {
        let mut at = start;
        let mut steps = 0u32;
        loop {
            match parent_step(editing, steps, at, parent_of(at)) {
                ParentStep::Refuse => return false,
                ParentStep::Accept => return true,
                ParentStep::Up(p) => {
                    at = p;
                    steps += 1;
                }
            }
        }
    };
    assert!(!walk(Some(1), 3));
    assert!(!walk(Some(2), 2));
    assert!(walk(None, 3));
    assert!(walk(Some(4), 3));
}

fn saved(total: Option<i64>, next_start: i64) -> SavedSearch {
    SavedSearch {
        id: 1,
        name: "X".to_string(),
        applicant: "X".to_string(),
        country: None,
        year_from: None,
        year_to: None,
        query: "pa=\"X\"".to_string(),
        total_results: total,
        next_start,
        imported: 0,
        created_at: "2026-01-01T00:00:00Z".to_string(),
        last_run_at: None,
        exhausted: false,
        results_read: 0,
        capped: false,
    }
}

#[test]
fn progress_follows_the_stored_counters() {
    let fresh = with_progress(saved(None, 1));
    assert!(!fresh.exhausted);
    assert_eq!(fresh.results_read, 0);
    assert!(!fresh.capped);
    let midway = with_progress(saved(Some(150), 101));
    assert!(!midway.exhausted);
    assert_eq!(midway.results_read, 100);
    let done = with_progress(saved(Some(150), 151));
    assert!(done.exhausted);
    assert_eq!(done.results_read, 150);
    let capped = with_progress(saved(Some(5000), 2001));
    assert!(capped.exhausted);
    assert!(capped.capped);
    assert_eq!(capped.results_read, 2000);
}

#[test]
fn a_new_search_needs_a_name_and_valid_fields() {
    let fields = |name: &str, country: Option<&str>| SearchFields {
        name: name.to_string(),
        applicant: " Siemens ; Siemens Healthineers ".to_string(),
        country: country.map(str::to_string),
        year_from: Some(2020),
        year_to: Some(2024),
    };
    assert!(matches!(new_search(&fields("  ", Some("ep"))), Err(SearchError::EmptyName)));
    assert!(matches!(new_search(&fields("S", Some("E1"))), Err(SearchError::InvalidCountry)));
    let n = new_search(&fields(" Siemens ", Some(" ep "))).unwrap();
    assert_eq!(n.name, "Siemens");
    assert_eq!(n.applicant, "Siemens ; Siemens Healthineers");
    assert_eq!(n.country.as_deref(), Some("EP"));
    assert_eq!(n.query, "(pa=\"Siemens\" or pa=\"Siemens Healthineers\") and pn=EP and pd within \"2020 2024\"");
}

#[test]
fn audits_count_confirmations_and_mistakes() {
    let pairs: Vec<(String, String)> = [("pos", "pos"), ("pos", "neg"), ("neg", "pos"), ("neg", "neg"), ("pos", "pos")]
        .iter()
        .map(|(a, h)| (a.to_string(), h.to_string()))
        .collect();
    assert_eq!(audit_counts(&pairs), (2, 1, 1));
    assert_eq!(audit_counts(&[]), (0, 0, 0));
    let states: Vec<String> = ["pos", "neg", "pos"].iter().map(|s| s.to_string()).collect();
    assert_eq!(confirmed_count(&states), 2);
}

#[test]
fn export_sources_name_the_abstracts_publication() {
    assert_eq!(abstract_sources(Some("EP.1234567.A1")), vec!["abstract EP.1234567.A1".to_string()]);
    assert!(abstract_sources(None).is_empty());
}

#[test]
fn tokens_are_renewed_a_minute_before_they_expire() {
    assert_eq!(token_lifetime_secs(1200), 1140);
    assert_eq!(token_lifetime_secs(60), 0);
    assert_eq!(token_lifetime_secs(10), 0);
}

#[test]
fn a_later_tag_leaves_existing_folder_names_alone() {
    let before = tag_folder_names(&[(1, "Batteries"), (2, "batteries"), (3, "Solar")]);
    let after = tag_folder_names(&[(1, "Batteries"), (2, "batteries"), (3, "Solar"), (4, "BATTERIES")]);
    for id in [1, 2, 3] {
        assert_eq!(before[&id], after[&id]);
    }
    assert_eq!(after[&4], "BATTERIES (3)");
    assert_eq!(before[&2], "batteries (2)");
}

fn read_back(field: &str) -> String {
    if field.len() >= 2 && field.starts_with('"') && field.ends_with('"') {
        field[1..field.len() - 1].replace("\"\"", "\"")
    } else {
        field.to_string()
    }
}

#[test]
fn csv_fields_read_back_as_their_values() {
    for v in ["plain", "a, b", "say \"hi\"", "two\nlines", "\"", "", "\"\"\"x"] {
        assert_eq!(read_back(&csv_field(v)), v, "{v:?}");
    }
}

#[test]
fn a_search_without_matches_is_an_empty_page() {
    let empty = page_from(Err(OpsError::Api { status: 404, message: "no results".to_string() })).unwrap();
    assert_eq!(empty.total_results, 0);
    assert!(empty.publications.is_empty());
    match page_from(Err(OpsError::Api { status: 500, message: "down".to_string() })) {
        Err(OpsError::Api { status, message }) => assert_eq!((status, message.as_str()), (500, "down")),
        other => panic!("expected the error back, got {other:?}"),
    }
    assert!(matches!(page_from(Ok("<not xml".to_string())), Err(OpsError::Parse(_))));
}

#[test]
fn locate_counts_overlapping_occurrences() {
    assert_eq!(locate("aaa", "aa", 2, 4), Some((1, 3)));
    assert_eq!(locate("abab", "ab", 3, 5), Some((2, 4)));
}
