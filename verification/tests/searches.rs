use patent_tagger::domain::searches::{
    build_query, next_range, one_per_family, SavedSearch, SearchError, SearchFields, SearchHit,
    MAX_RESULTS, PAGE_SIZE,
};

fn fields(applicant: &str) -> SearchFields {
    SearchFields { name: "S".to_string(), applicant: applicant.to_string(), ..Default::default() }
}

#[test]
fn build_query_with_one_applicant() {
    assert_eq!(build_query(&fields("Siemens AG")).unwrap(), "pa=\"Siemens AG\"");
}

#[test]
fn build_query_combines_name_variants_and_optional_filters() {
    let f = SearchFields {
        country: Some(" ep ".to_string()),
        year_from: Some(2020),
        year_to: Some(2024),
        ..fields("Siemens; Siemens  Healthineers ;")
    };
    assert_eq!(
        build_query(&f).unwrap(),
        "(pa=\"Siemens\" or pa=\"Siemens Healthineers\") and pn=EP and pd within \"2020 2024\""
    );
}

#[test]
fn build_query_with_an_open_year_range() {
    let from = SearchFields { year_from: Some(2020), ..fields("X") };
    let to = SearchFields { year_to: Some(2024), ..fields("X") };
    assert_eq!(build_query(&from).unwrap(), "pa=\"X\" and pd>=2020");
    assert_eq!(build_query(&to).unwrap(), "pa=\"X\" and pd<=2024");
}

#[test]
fn build_query_strips_characters_that_break_a_quoted_term() {
    assert_eq!(build_query(&fields("A \"B\" \\C")).unwrap(), "pa=\"A B C\"");
}

#[test]
fn build_query_rejects_invalid_fields() {
    assert!(matches!(build_query(&fields(" ; ")), Err(SearchError::EmptyApplicant)));
    let country = SearchFields { country: Some("EPO".to_string()), ..fields("X") };
    assert!(matches!(build_query(&country), Err(SearchError::InvalidCountry)));
    let years = SearchFields { year_from: Some(2024), year_to: Some(2020), ..fields("X") };
    assert!(matches!(build_query(&years), Err(SearchError::InvalidYears)));
    let short = SearchFields { year_from: Some(99), ..fields("X") };
    assert!(matches!(build_query(&short), Err(SearchError::InvalidYears)));
}

#[test]
fn build_query_checks_the_applicant_before_country_and_years() {
    let all_bad = SearchFields {
        country: Some("E1".to_string()),
        year_from: Some(5),
        ..fields("")
    };
    assert!(matches!(build_query(&all_bad), Err(SearchError::EmptyApplicant)));
    let bad_country = SearchFields { country: Some("é".to_string()), year_from: Some(5), ..fields("X") };
    assert!(matches!(build_query(&bad_country), Err(SearchError::InvalidCountry)));
    let blank_country = SearchFields { country: Some("  ".to_string()), ..fields("X;Y;Z") };
    assert_eq!(build_query(&blank_country).unwrap(), "(pa=\"X\" or pa=\"Y\" or pa=\"Z\")");
}

fn saved(total_results: Option<i64>, next_start: i64) -> SavedSearch {
    SavedSearch {
        id: 1,
        name: "S".to_string(),
        applicant: "X".to_string(),
        country: None,
        year_from: None,
        year_to: None,
        query: "pa=\"X\"".to_string(),
        total_results,
        next_start,
        imported: 0,
        created_at: "2026-01-01T00:00:00Z".to_string(),
        last_run_at: None,
        exhausted: false,
        results_read: 0,
        capped: false,
    }
}

#[test]
fn next_range_reads_pages_up_to_the_total() {
    assert_eq!(next_range(&saved(None, 1)), Some((1, PAGE_SIZE)));
    assert_eq!(next_range(&saved(Some(150), 101)), Some((101, 150)));
    assert_eq!(next_range(&saved(Some(150), 151)), None);
    assert_eq!(next_range(&saved(Some(0), 1)), None);
}

#[test]
fn next_range_stops_at_the_result_cap() {
    assert_eq!(next_range(&saved(Some(5000), 1901)), Some((1901, MAX_RESULTS)));
    assert_eq!(next_range(&saved(Some(5000), 2001)), None);
    assert_eq!(next_range(&saved(None, i64::MAX)), None);
}

fn hit(number: &str, kind: &str, family: Option<&str>, date: Option<&str>, en: bool) -> SearchHit {
    SearchHit {
        country: "EP".to_string(),
        doc_number: number.to_string(),
        kind: kind.to_string(),
        family_id: family.map(str::to_string),
        publication_date: date.map(str::to_string),
        has_english_abstract: en,
    }
}

#[test]
fn one_per_family_keeps_the_earliest_english_publication() {
    let hits = vec![
        hit("3", "B1", Some("f1"), Some("2022-01-01"), true),
        hit("1", "A1", Some("f1"), Some("2019-01-01"), false),
        hit("2", "A1", Some("f1"), Some("2020-01-01"), true),
        hit("9", "A1", Some("f2"), Some("2021-01-01"), true),
    ];
    let chosen: Vec<String> = one_per_family(&hits).iter().map(|h| h.docdb_id()).collect();
    assert_eq!(chosen, vec!["EP.2.A1", "EP.9.A1"]);
}

#[test]
fn one_per_family_falls_back_to_the_earliest_publication_without_english() {
    let hits = vec![
        hit("2", "A1", Some("f1"), None, false),
        hit("1", "A1", Some("f1"), Some("2020-01-01"), false),
    ];
    assert_eq!(one_per_family(&hits)[0].docdb_id(), "EP.1.A1");
}

#[test]
fn one_per_family_groups_hits_without_a_family_id_by_pub_key() {
    let hits = vec![
        hit("1", "B1", None, Some("2022-01-01"), true),
        hit("1", "A1", None, Some("2020-01-01"), true),
        hit("2", "A1", None, Some("2020-01-01"), true),
    ];
    let chosen: Vec<String> = one_per_family(&hits).iter().map(|h| h.docdb_id()).collect();
    assert_eq!(chosen, vec!["EP.1.A1", "EP.2.A1"]);
}

#[test]
fn one_per_family_keeps_page_order_on_ties() {
    let hits = vec![
        hit("5", "A1", Some("f"), None, true),
        hit("6", "A1", Some("f"), None, true),
        hit("7", "B1", None, None, false),
    ];
    let chosen: Vec<String> = one_per_family(&hits).iter().map(|h| h.docdb_id()).collect();
    assert_eq!(chosen, vec!["EP.5.A1", "EP.7.B1"]);
    assert_eq!(hits[0].pub_key(), "EP5");
    assert!(one_per_family(&[]).is_empty());
}
