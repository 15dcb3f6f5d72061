use patent_tagger::domain::annotations::Annotation;
use patent_tagger::domain::documents::DocumentDetail;
use patent_tagger::domain::export::{
    csv_field, document_txt, sanitize_folder_name, tag_folder_names, to_csv, DocumentExportDrawings,
    DocumentExportFulltext, ExportHighlight, ExportRow,
};

#[test]
fn sanitize_folder_name_replaces_characters_windows_forbids() {
    assert_eq!(sanitize_folder_name("A/B: C?"), "A_B_ C_");
    assert_eq!(sanitize_folder_name("x\\y*z|\"<>"), "x_y_z____");
    assert_eq!(sanitize_folder_name("tab\there"), "tab_here");
    assert_eq!(sanitize_folder_name("Batteries"), "Batteries");
    assert_eq!(
        sanitize_folder_name("Électrodes – solides"),
        "Électrodes – solides"
    );
}

#[test]
fn sanitize_folder_name_trims_trailing_dots_and_spaces_and_is_never_empty() {
    assert_eq!(sanitize_folder_name("  name. . "), "name");
    assert_eq!(sanitize_folder_name(".."), "_");
    assert_eq!(sanitize_folder_name("   "), "_");
}

#[test]
fn sanitize_folder_name_suffixes_reserved_device_names() {
    assert_eq!(sanitize_folder_name("con"), "con_");
    assert_eq!(sanitize_folder_name("COM1"), "COM1_");
    assert_eq!(sanitize_folder_name("lpt9.txt"), "lpt9.txt_");
    assert_eq!(sanitize_folder_name("COM0"), "COM0");
    assert_eq!(sanitize_folder_name("CONSOLE"), "CONSOLE");
}

#[test]
fn tag_folder_names_disambiguate_case_insensitive_clashes_by_id() {
    let names = tag_folder_names(&[(3, "a/b"), (1, "A_B"), (2, "_Untagged"), (4, "other")]);
    assert_eq!(names[&1], "A_B");
    assert_eq!(names[&2], "_Untagged (2)");
    assert_eq!(names[&3], "a_b (2)");
    assert_eq!(names[&4], "other");
}

const NOW: &str = "2026-01-01T00:00:00Z";

#[test]
fn to_csv_escapes_commas_and_quotes() {
    let rows = vec![ExportRow {
        pub_key: "EP1234567".to_string(),
        title: Some("A \"gadget\", improved".to_string()),
        tags: vec!["Battery".to_string()],
        sources: vec!["abstract EP.1234567.A1".to_string()],
        highlights: Vec::new(),
    }];
    let csv = to_csv(&rows);
    assert!(csv.contains("\"A \"\"gadget\"\", improved\""));
}

fn base_detail() -> DocumentDetail {
    DocumentDetail {
        id: 1,
        pub_key: "EP1234567".to_string(),
        title: Some("A gadget".to_string()),
        abstract_text: Some("An abstract".to_string()),
        abstract_source: Some("EP.1234567.A1".to_string()),
        kind_codes: vec!["A1".to_string()],
        ..Default::default()
    }
}

#[test]
fn document_txt_states_missing_parts_explicitly_when_never_retrieved() {
    let text = document_txt(&base_detail(), &["Battery".to_string()], None, None, &[]);
    assert!(text.starts_with("Publication: EP1234567 (A1)\n"));
    assert!(text.contains("Applicants: Not available"));
    assert!(text.contains("Sources: abstract EP.1234567.A1\n"));
    assert!(text.contains("===== ABSTRACT =====\nAn abstract"));
    assert!(text.contains("===== DESCRIPTION =====\nDescription not retrieved."));
    assert!(text.contains("===== CLAIMS =====\nClaims not retrieved."));
    assert!(text.contains("===== DRAWINGS =====\nDrawings not retrieved."));
}

#[test]
fn document_txt_reports_full_text_and_drawings_when_fetched() {
    let fulltext = DocumentExportFulltext {
        status: "fetched".to_string(),
        description: Some("[0001] A widget.".to_string()),
        claims: Some("1. A widget.".to_string()),
        lang: Some("EN".to_string()),
        source: Some("EP.1234567.B1".to_string()),
    };
    let drawings = DocumentExportDrawings {
        status: "fetched".to_string(),
        page_paths: vec![
            "drawings/001.png".to_string(),
            "drawings/002.png".to_string(),
        ],
        source: Some("EP.1234567.A1".to_string()),
    };
    let text = document_txt(&base_detail(), &[], Some(&fulltext), Some(&drawings), &[]);
    assert!(text.contains(
        "Sources: abstract EP.1234567.A1; full text EP.1234567.B1; drawings EP.1234567.A1\n"
    ));
    assert!(text.contains("===== DESCRIPTION =====\n[0001] A widget.\n"));
    assert!(text.contains("===== CLAIMS =====\n1. A widget.\n"));
    assert!(text.contains("===== DRAWINGS =====\ndrawings/001.png\ndrawings/002.png\n"));
}

#[test]
fn document_txt_marks_non_english_text_with_its_language() {
    let fulltext = DocumentExportFulltext {
        status: "non_english_only".to_string(),
        description: Some("[0001] Nur Deutsch.".to_string()),
        claims: None,
        lang: Some("DE".to_string()),
        source: Some("EP.1234567.A1".to_string()),
    };
    let text = document_txt(&base_detail(), &[], Some(&fulltext), None, &[]);
    assert!(text.contains(
        "===== DESCRIPTION =====\n[Non-English text, language: DE]\n[0001] Nur Deutsch.\n"
    ));
    assert!(text.contains("===== CLAIMS =====\nClaims not available for this publication.\n"));
}

#[test]
fn document_txt_states_not_available_distinctly_from_not_retrieved() {
    let fulltext = DocumentExportFulltext {
        status: "not_available".to_string(),
        ..Default::default()
    };
    let drawings = DocumentExportDrawings {
        status: "not_available".to_string(),
        ..Default::default()
    };
    let text = document_txt(&base_detail(), &[], Some(&fulltext), Some(&drawings), &[]);
    assert!(text.contains("===== DESCRIPTION =====\nFull text not available in OPS.\n"));
    assert!(text.contains("===== DRAWINGS =====\nThis publication has no drawings.\n"));
}

#[test]
fn document_txt_lists_highlights_after_drawings() {
    let highlight = |location: &str, quote: &str, comment: Option<&str>, detached: bool| {
        Annotation {
            id: 1,
            doc_id: 1,
            section: "claims".to_string(),
            start: 0,
            end: 1,
            quote: quote.to_string(),
            comment: comment.map(str::to_string),
            color: "yellow".to_string(),
            created_at: NOW.to_string(),
            updated_at: NOW.to_string(),
            detached,
            location: location.to_string(),
        }
    };
    let highlights = [
        highlight(
            "Claim 1",
            "a mould\ncontainer",
            Some("Key feature.\nSee also D1."),
            false,
        ),
        highlight("Description", "old text", None, true),
    ];
    let text = document_txt(&base_detail(), &[], None, None, &highlights);
    assert!(text.ends_with(
        "===== DRAWINGS =====\nDrawings not retrieved.\n\
         ===== HIGHLIGHTS =====\n\
         Claim 1 (yellow): \"a mould container\"\n  Comment: Key feature.\n           See also D1.\n\
         Description (yellow, passage no longer in the text): \"old text\"\n"
    ));

    let without = document_txt(&base_detail(), &[], None, None, &[]);
    assert!(!without.contains("HIGHLIGHTS"));
}

#[test]
fn csv_field_quotes_only_when_needed() {
    assert_eq!(csv_field("plain"), "plain");
    assert_eq!(csv_field("a,b"), "\"a,b\"");
    assert_eq!(csv_field("say \"hi\""), "\"say \"\"hi\"\"\"");
    assert_eq!(csv_field("two\nlines"), "\"two\nlines\"");
    assert_eq!(csv_field(""), "");
}

#[test]
fn to_csv_writes_a_header_and_one_line_per_row() {
    let rows = vec![
        ExportRow {
            pub_key: "EP1".to_string(),
            title: None,
            tags: vec!["A".to_string(), "B".to_string()],
            sources: Vec::new(),
            highlights: Vec::new(),
        },
    ];
    assert_eq!(to_csv(&rows), "publication_number,title,tags,sources\nEP1,,A; B,\n");
    assert_eq!(to_csv(&[]), "publication_number,title,tags,sources\n");
}

#[test]
fn export_highlight_keeps_the_annotation_fields() {
    let a = Annotation {
        id: 4,
        doc_id: 2,
        section: "abstract".to_string(),
        start: 3,
        end: 11,
        quote: "abstract".to_string(),
        comment: Some("why".to_string()),
        color: "green".to_string(),
        created_at: NOW.to_string(),
        updated_at: NOW.to_string(),
        detached: false,
        location: "Abstract".to_string(),
    };
    let h = ExportHighlight::from(a);
    assert_eq!(h.section, "abstract");
    assert_eq!(h.location, "Abstract");
    assert_eq!(h.quote, "abstract");
    assert_eq!(h.comment.as_deref(), Some("why"));
    assert_eq!(h.color, "green");
    assert!(!h.detached);
}

#[test]
fn document_txt_reports_a_failed_retrieval_and_a_missing_language() {
    let fulltext = DocumentExportFulltext {
        status: "non_english_only".to_string(),
        description: Some("Text.".to_string()),
        claims: None,
        lang: None,
        source: None,
    };
    let drawings = DocumentExportDrawings {
        status: "error".to_string(),
        ..Default::default()
    };
    let text = document_txt(&base_detail(), &[], Some(&fulltext), Some(&drawings), &[]);
    assert!(text.contains("===== DESCRIPTION =====\n[Non-English text, language: unknown]\nText.\n"));
    assert!(text.contains("===== DRAWINGS =====\nDrawings retrieval failed.\n"));
    let failed = DocumentExportFulltext { status: "error".to_string(), ..Default::default() };
    let text = document_txt(&base_detail(), &[], Some(&failed), None, &[]);
    assert!(text.contains("===== CLAIMS =====\nFull text retrieval failed.\n"));
    let pending = DocumentExportFulltext { status: "pending".to_string(), ..Default::default() };
    let text = document_txt(&base_detail(), &[], Some(&pending), None, &[]);
    assert!(text.contains("===== CLAIMS =====\nClaims not retrieved.\n"));
}

#[test]
fn document_txt_header_lists_applicants_cpc_and_tags() {
    let detail = DocumentDetail {
        applicants: vec!["ACME Corp".to_string(), "Foo Industries".to_string()],
        publication_date: Some("2020-05-14".to_string()),
        cpc: vec!["B28B1/29".to_string(), "B28B7/00".to_string()],
        kind_codes: vec!["A1".to_string(), "B1".to_string()],
        abstract_source: None,
        abstract_text: None,
        title: None,
        ..base_detail()
    };
    let text = document_txt(&detail, &["Battery".to_string(), "Ceramics".to_string()], None, None, &[]);
    assert_eq!(
        text,
        "Publication: EP1234567 (A1, B1)\n\
         Title: Not available\n\
         Applicants: ACME Corp; Foo Industries\n\
         Publication date: 2020-05-14\n\
         CPC: B28B1/29, B28B7/00\n\
         Tags: Battery; Ceramics\n\
         Sources: None\n\
         \n\
         ===== ABSTRACT =====\n\
         Not available\n\
         ===== DESCRIPTION =====\n\
         Description not retrieved.\n\
         ===== CLAIMS =====\n\
         Claims not retrieved.\n\
         ===== DRAWINGS =====\n\
         Drawings not retrieved.\n"
    );
}

#[test]
fn tag_folder_names_number_repeated_clashes() {
    let names = tag_folder_names(&[(1, "x"), (2, "X"), (3, "x."), (4, "CON")]);
    assert_eq!(names[&1], "x");
    assert_eq!(names[&2], "X (2)");
    assert_eq!(names[&3], "x (3)");
    assert_eq!(names[&4], "CON_");
    assert!(tag_folder_names(&[]).is_empty());
}

#[test]
fn folder_names_do_not_depend_on_the_order_of_the_tags() {
    let forward = tag_folder_names(&[(1, "A_B"), (2, "_Untagged"), (3, "a/b"), (4, "other")]);
    let backward = tag_folder_names(&[(4, "other"), (3, "a/b"), (2, "_Untagged"), (1, "A_B")]);
    assert_eq!(forward, backward);
    assert_eq!(forward[&3], "a_b (2)");
}
