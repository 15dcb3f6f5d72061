use patent_tagger::domain::selection::{
    select_abstract, select_drawings, select_fulltext, select_title, Candidate, DrawingsCandidate,
    FulltextCandidate,
};

fn candidate(docdb_id: &str, country: &str, app_num: Option<&str>, langs: &[(&str, &str)]) -> Candidate {
    Candidate {
        docdb_id: docdb_id.to_string(),
        country: country.to_string(),
        application_number: app_num.map(str::to_string),
        titles: Vec::new(),
        abstracts: langs.iter().map(|(l, t)| (l.to_string(), t.to_string())).collect(),
    }
}

#[test]
fn prefers_the_requested_publications_own_english_abstract() {
    let requested = candidate("EP.1.A1", "EP", Some("EP1"), &[("en", "own abstract")]);
    let family = vec![candidate("US.1.A", "US", Some("US1"), &[("en", "other abstract")])];
    let selected = select_abstract(&requested, &family).unwrap();
    assert_eq!(selected.text, "own abstract");
    assert_eq!(selected.source_docdb_id, "EP.1.A1");
}

#[test]
fn falls_back_to_another_publication_of_the_same_application() {
    let requested = candidate("EP.1.B1", "EP", Some("EP1"), &[]);
    let family = vec![
        candidate("EP.1.A1", "EP", Some("EP1"), &[("en", "A1 abstract")]),
        candidate("WO.1.A1", "WO", Some("WO1"), &[("en", "WO abstract")]),
    ];
    let selected = select_abstract(&requested, &family).unwrap();
    assert_eq!(selected.text, "A1 abstract");
    assert_eq!(selected.source_docdb_id, "EP.1.A1");
}

#[test]
fn falls_back_to_family_member_preferring_wo_over_us_over_gb_over_ep_over_other() {
    let requested = candidate("EP.1.A1", "EP", Some("EP1"), &[]);
    let family = vec![
        candidate("DE.1.A1", "DE", Some("DE1"), &[("en", "DE abstract")]),
        candidate("US.1.A1", "US", Some("US1"), &[("en", "US abstract")]),
        candidate("WO.1.A1", "WO", Some("WO1"), &[("en", "WO abstract")]),
        candidate("GB.1.A1", "GB", Some("GB1"), &[("en", "GB abstract")]),
    ];
    let selected = select_abstract(&requested, &family).unwrap();
    assert_eq!(selected.source_docdb_id, "WO.1.A1", "WO should win over US/GB/DE");
}

#[test]
fn no_english_anywhere_yields_none() {
    let requested = candidate("EP.1.A1", "EP", Some("EP1"), &[("de", "nur deutsch")]);
    let family = vec![candidate("EP.1.B1", "EP", Some("EP1"), &[("fr", "seulement en français")])];
    assert_eq!(select_abstract(&requested, &family), None);
}

#[test]
fn same_application_step_is_skipped_when_only_other_applications_share_the_family() {
    let requested = candidate("EP.1.A1", "EP", Some("EP1"), &[]);
    let family = vec![candidate("US.1.A1", "US", Some("US-continuation"), &[("en", "US abstract")])];
    let selected = select_abstract(&requested, &family).unwrap();
    assert_eq!(selected.source_docdb_id, "US.1.A1");
}

#[test]
fn title_selection_follows_the_same_cascade() {
    let mut requested = candidate("EP.1.A1", "EP", Some("EP1"), &[]);
    requested.titles.push(("de".to_string(), "nur deutsch".to_string()));
    let mut wo = candidate("WO.1.A1", "WO", Some("WO1"), &[]);
    wo.titles.push(("en".to_string(), "English title".to_string()));
    let selected = select_title(&requested, &[wo]).unwrap();
    assert_eq!(selected.text, "English title");
}

#[test]
fn the_requested_publication_is_never_its_own_family_fallback() {
    let requested = candidate("EP.1.A1", "EP", Some("EP1"), &[]);
    let family = vec![
        candidate("EP.1.A1", "EP", Some("EP1"), &[("en", "a copy of itself")]),
        candidate("XX.1.A1", "XX", Some("XX1"), &[("en", "other")]),
        candidate("YY.1.A1", "YY", Some("YY1"), &[("en", "later other")]),
    ];
    let selected = select_abstract(&requested, &family).unwrap();
    assert_eq!(selected.source_docdb_id, "XX.1.A1", "ties keep the first member");
}

fn fulltext_candidate(docdb_id: &str, country: &str, app_num: Option<&str>, langs: &[&str]) -> FulltextCandidate {
    FulltextCandidate {
        docdb_id: docdb_id.to_string(),
        country: country.to_string(),
        application_number: app_num.map(str::to_string),
        langs: langs.iter().map(|l| l.to_string()).collect(),
    }
}

#[test]
fn fulltext_prefers_the_requested_publications_own_english_text() {
    let requested = fulltext_candidate("EP.1.A1", "EP", Some("EP1"), &["EN"]);
    let selected = select_fulltext(&requested, &[]).unwrap();
    assert_eq!(selected.source_docdb_id, "EP.1.A1");
    assert_eq!(selected.lang, "EN");
    assert!(!selected.non_english_only);
}

#[test]
fn fulltext_falls_back_to_another_publication_of_the_same_application() {
    let requested = fulltext_candidate("EP.1.B1", "EP", Some("EP1"), &[]);
    let family = vec![
        fulltext_candidate("EP.1.A1", "EP", Some("EP1"), &["EN"]),
        fulltext_candidate("WO.1.A1", "WO", Some("WO1"), &["EN"]),
    ];
    let selected = select_fulltext(&requested, &family).unwrap();
    assert_eq!(selected.source_docdb_id, "EP.1.A1");
}

#[test]
fn fulltext_falls_back_to_family_member_preferring_wo_over_us_over_gb_over_ep() {
    let requested = fulltext_candidate("EP.1.A1", "EP", Some("EP1"), &[]);
    let family = vec![
        fulltext_candidate("DE.1.A1", "DE", Some("DE1"), &["EN"]),
        fulltext_candidate("US.1.A1", "US", Some("US1"), &["EN"]),
        fulltext_candidate("WO.1.A1", "WO", Some("WO1"), &["EN"]),
    ];
    let selected = select_fulltext(&requested, &family).unwrap();
    assert_eq!(selected.source_docdb_id, "WO.1.A1");
}

#[test]
fn fulltext_falls_back_to_non_english_when_no_english_exists_anywhere() {
    let requested = fulltext_candidate("EP.1.A1", "EP", Some("EP1"), &["DE"]);
    let family = vec![fulltext_candidate("US.1.A1", "US", Some("US-continuation"), &["DE", "FR"])];
    let selected = select_fulltext(&requested, &family).unwrap();
    assert_eq!(selected.source_docdb_id, "EP.1.A1", "own non-English text still beats a family member's");
    assert_eq!(selected.lang, "DE");
    assert!(selected.non_english_only);
}

#[test]
fn fulltext_returns_none_when_nothing_is_available_anywhere() {
    let requested = fulltext_candidate("EP.1.A1", "EP", Some("EP1"), &[]);
    assert_eq!(select_fulltext(&requested, &[]), None);
}

#[test]
fn fulltext_picks_the_alphabetically_first_language() {
    let requested = fulltext_candidate("EP.1.A1", "EP", None, &["FR", "DE", "IT"]);
    let selected = select_fulltext(&requested, &[]).unwrap();
    assert_eq!(selected.lang, "DE");
    let mixed = fulltext_candidate("EP.1.A1", "EP", None, &["en", "FR", "EN"]);
    assert_eq!(select_fulltext(&mixed, &[]).unwrap().lang, "EN");
}

fn drawings_candidate(docdb_id: &str, country: &str, app_num: Option<&str>, has_drawings: bool) -> DrawingsCandidate {
    DrawingsCandidate {
        docdb_id: docdb_id.to_string(),
        country: country.to_string(),
        application_number: app_num.map(str::to_string),
        has_drawings,
    }
}

#[test]
fn drawings_prefer_the_requested_publication() {
    let requested = drawings_candidate("EP.1.B1", "EP", Some("EP1"), true);
    let selected = select_drawings(&requested, &[]).unwrap();
    assert_eq!(selected.source_docdb_id, "EP.1.B1");
}

#[test]
fn drawings_fall_back_to_the_same_application_then_family_priority() {
    let requested = drawings_candidate("EP.1.B1", "EP", Some("EP1"), false);
    let family = vec![
        drawings_candidate("EP.1.A1", "EP", Some("EP1"), true),
        drawings_candidate("WO.1.A1", "WO", Some("WO1"), true),
    ];
    let selected = select_drawings(&requested, &family).unwrap();
    assert_eq!(selected.source_docdb_id, "EP.1.A1", "same application should win over a family member");

    let requested_no_same_app = drawings_candidate("EP.1.B1", "EP", Some("EP1"), false);
    let family_only = vec![
        drawings_candidate("US.1.A1", "US", Some("US1"), true),
        drawings_candidate("WO.1.A1", "WO", Some("WO1"), true),
    ];
    let selected = select_drawings(&requested_no_same_app, &family_only).unwrap();
    assert_eq!(selected.source_docdb_id, "WO.1.A1");
}

#[test]
fn drawings_none_when_no_publication_has_any() {
    let requested = drawings_candidate("EP.1.A1", "EP", Some("EP1"), false);
    let family = vec![drawings_candidate("US.1.A1", "US", Some("US1"), false)];
    assert_eq!(select_drawings(&requested, &family), None);
}
