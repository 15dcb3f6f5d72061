use patent_tagger::domain::annotations::{
    check_color, check_request, clean_comment, locate, location, quote_for, reading_order, resolve,
    utf16_slice, Annotation, AnnotationError, SectionTexts, Stored,
};

const DESCRIPTION: &str = "[0001] The invention relates to bricks.\n[0002] A mould is filled.";
const CLAIMS: &str = "1. Apparatus for bricks.\n2. Apparatus as claimed in claim 1.";

fn texts() -> SectionTexts {
    SectionTexts {
        title: Some("A brick press".to_string()),
        abstract_text: Some("An apparatus for bricks.".to_string()),
        description: Some(DESCRIPTION.to_string()),
        claims: Some(CLAIMS.to_string()),
    }
}

fn stored(section: &str, start: usize, end: usize, quote: &str) -> Stored {
    Stored {
        id: 7,
        doc_id: 1,
        section: section.to_string(),
        start,
        end,
        quote: quote.to_string(),
        comment: Some("note".to_string()),
        color: "pink".to_string(),
        created_at: "2026-09-25T10:00:00Z".to_string(),
        updated_at: "2026-09-25T10:00:00Z".to_string(),
    }
}

#[test]
fn locate_prefers_the_nearest_occurrence() {
    let text = "brick one, brick two, brick three";
    assert_eq!(locate(text, "brick", 13, 18), Some((11, 16)));
    assert_eq!(locate(text, "brick", 30, 35), Some((22, 27)));
    assert_eq!(locate(text, "clay", 0, 4), None);
}

#[test]
fn locate_keeps_the_stored_position_when_the_quote_is_there() {
    let text = "brick one, brick two";
    assert_eq!(locate(text, "brick", 11, 16), Some((11, 16)));
    // A tie in distance goes to the earlier occurrence.
    assert_eq!(locate("ab ab", "ab", 1, 2), Some((0, 2)));
}

#[test]
fn utf16_slice_takes_code_units() {
    let text = "a𝛼b";
    assert_eq!(utf16_slice(text, 0, 1).as_deref(), Some("a"));
    assert_eq!(utf16_slice(text, 1, 3).as_deref(), Some("𝛼"));
    assert_eq!(utf16_slice(text, 3, 4).as_deref(), Some("b"));
    // Splitting the surrogate pair, an empty span and one past the end.
    assert_eq!(utf16_slice(text, 1, 2), None);
    assert_eq!(utf16_slice(text, 2, 4), None);
    assert_eq!(utf16_slice(text, 2, 2), None);
    assert_eq!(utf16_slice(text, 0, 5), None);
}

#[test]
fn location_names_the_block() {
    let start = "[0001] The invention relates to bricks.\n[0002] A ".len();
    assert_eq!(location("description", Some(DESCRIPTION), start), "Description [0002]");
    assert_eq!(location("claims", Some(CLAIMS), 28), "Claim 2");
    assert_eq!(location("title", None, 0), "Title");
    assert_eq!(location("abstract", Some("x"), 0), "Abstract");
    assert_eq!(location("description", None, 3), "Description");
    assert_eq!(location("claims", None, 3), "Claims");
    assert_eq!(location("description", Some("Background\nmore"), 2), "Description, heading");
    assert_eq!(location("claims", Some("Claims:\n1. A."), 2), "Claims");
}

#[test]
fn resolve_follows_the_quote_and_detaches_when_it_is_gone() {
    let start = "[0001] The invention relates to bricks.\n[0002] A ".len();
    let here = resolve(stored("description", start, start + 5, "mould"), &texts());
    assert!(!here.detached);
    assert_eq!((here.start, here.end), (start, start + 5));
    assert_eq!(here.location, "Description [0002]");

    let mut moved_texts = texts();
    moved_texts.description =
        Some("[0001] Field.\n[0002] The invention relates to bricks.\n[0003] A mould is filled.".to_string());
    let moved = resolve(stored("description", start, start + 5, "mould"), &moved_texts);
    assert!(!moved.detached);
    assert_eq!(moved.location, "Description [0003]");
    assert_eq!(moved.start, "[0001] Field.\n[0002] The invention relates to bricks.\n[0003] A ".len());

    let mut gone_texts = texts();
    gone_texts.description = Some("[0001] Other text.".to_string());
    let gone = resolve(stored("description", start, start + 5, "mould"), &gone_texts);
    assert!(gone.detached);
    assert_eq!((gone.start, gone.end), (start, start + 5));
    assert_eq!(gone.quote, "mould");
    assert_eq!(gone.location, "Description");
    assert_eq!(gone.comment.as_deref(), Some("note"));
}

#[test]
fn new_highlights_are_checked() {
    assert!(matches!(check_request("summary", "yellow"), Err(AnnotationError::UnknownSection(s)) if s == "summary"));
    assert!(matches!(check_request("title", "red"), Err(AnnotationError::UnknownColor(c)) if c == "red"));
    assert!(check_request("claims", "blue").is_ok());
    assert!(check_color("green").is_ok());
    assert!(matches!(check_color("Green"), Err(AnnotationError::UnknownColor(_))));

    let t = texts();
    assert_eq!(quote_for(&t, "claims", 28, 37).unwrap(), "Apparatus");
    assert!(matches!(quote_for(&t, "title", 3, 3), Err(AnnotationError::InvalidRange)));
    assert!(matches!(quote_for(&t, "title", 0, 999), Err(AnnotationError::InvalidRange)));
    assert!(matches!(quote_for(&t, "title", 1, 2), Err(AnnotationError::InvalidRange)));
    let empty = SectionTexts::default();
    assert!(matches!(quote_for(&empty, "claims", 0, 1), Err(AnnotationError::NoText(s)) if s == "claims"));
    assert_eq!(clean_comment(Some("  key part  ")), Some("key part"));
    assert_eq!(clean_comment(Some(" ")), None);
    assert_eq!(clean_comment(None), None);
}

fn annotation(id: i64, section: &str, start: usize) -> Annotation {
    Annotation {
        id,
        doc_id: 1,
        section: section.to_string(),
        start,
        end: start + 1,
        quote: "x".to_string(),
        comment: None,
        color: "yellow".to_string(),
        created_at: String::new(),
        updated_at: String::new(),
        detached: false,
        location: String::new(),
    }
}

#[test]
fn reading_order_is_section_then_position() {
    let list = vec![
        annotation(1, "claims", 3),
        annotation(2, "description", 11),
        annotation(3, "abstract", 3),
        annotation(4, "description", 0),
    ];
    let sections: Vec<_> = reading_order(list)
        .into_iter()
        .map(|a| (a.section, a.start))
        .collect();
    assert_eq!(
        sections,
        [
            ("abstract".to_string(), 3),
            ("description".to_string(), 0),
            ("description".to_string(), 11),
            ("claims".to_string(), 3),
        ]
    );
}
