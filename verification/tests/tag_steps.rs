use patent_tagger::domain::tags::{
    schema_import_start, schema_import_step, tag_check_start, tag_check_step, SchemaImport, SchemaImportAction,
    SchemaImportEvent, StoredFact, TagCheck, TagError, TagFields, TagSchema,
};

fn fields<'a>(name: &'a str, hotkey: Option<&'a str>, parent_id: Option<i64>) -> TagFields<'a> {
    TagFields { name, definition: "About it", parent_id, color: None, hotkey }
}

fn entry(name: &str, parent: Option<&str>, hotkey: Option<&str>) -> TagSchema {
    TagSchema {
        name: name.to_string(),
        definition: "About it".to_string(),
        parent: parent.map(|p| p.to_string()),
        color: None,
        hotkey: hotkey.map(|h| h.to_string()),
    }
}

#[test]
fn tag_check_refuses_empty_fields_before_reading() {
    assert!(matches!(tag_check_start(&fields("", None, None)), Err(TagError::EmptyName)));
    let f = TagFields { name: "Battery", definition: "", parent_id: None, color: None, hotkey: None };
    assert!(matches!(tag_check_start(&f), Err(TagError::EmptyDefinition)));
    let stage = tag_check_start(&fields("Battery", Some("B"), Some(3))).unwrap();
    assert_eq!(
        stage,
        TagCheck::Name { name: "Battery".to_string(), hotkey: Some("B".to_string()), parent_id: Some(3) }
    );
}

#[test]
fn tag_check_name_of_another_tag_is_a_duplicate() {
    let stage = tag_check_start(&fields("Battery", None, None)).unwrap();
    match tag_check_step(stage.clone(), None, StoredFact::NameOwner(Some(5))) {
        Err(TagError::DuplicateName(n)) => assert_eq!(n, "Battery"),
        other => panic!("expected a duplicate name, got {other:?}"),
    }
    match tag_check_step(stage.clone(), Some(4), StoredFact::NameOwner(Some(5))) {
        Err(TagError::DuplicateName(n)) => assert_eq!(n, "Battery"),
        other => panic!("expected a duplicate name, got {other:?}"),
    }
    // The tag's own name, or a free one, passes; without hotkey or parent that is all.
    assert_eq!(tag_check_step(stage.clone(), Some(5), StoredFact::NameOwner(Some(5))).unwrap(), TagCheck::Done);
    assert_eq!(tag_check_step(stage, None, StoredFact::NameOwner(None)).unwrap(), TagCheck::Done);
}

#[test]
fn tag_check_hotkey_is_checked_then_its_owner() {
    let stage = tag_check_start(&fields("Battery", Some("B"), Some(3))).unwrap();
    let next = tag_check_step(stage, None, StoredFact::NameOwner(None)).unwrap();
    assert_eq!(next, TagCheck::Hotkey { hotkey: "B".to_string(), lower: "b".to_string(), parent_id: Some(3) });
    match tag_check_step(next.clone(), None, StoredFact::HotkeyOwner(Some("Cathode".to_string()))) {
        Err(TagError::HotkeyInUse(k, owner)) => {
            assert_eq!(k, "B");
            assert_eq!(owner, "Cathode");
        }
        other => panic!("expected the hotkey in use, got {other:?}"),
    }
    assert_eq!(tag_check_step(next, None, StoredFact::HotkeyOwner(None)).unwrap(), TagCheck::Parent(3));

    let reserved = tag_check_start(&fields("Battery", Some("J"), None)).unwrap();
    match tag_check_step(reserved, None, StoredFact::NameOwner(None)) {
        Err(TagError::ReservedHotkey(k)) => assert_eq!(k, "J"),
        other => panic!("expected a reserved hotkey, got {other:?}"),
    }
    let long = tag_check_start(&fields("Battery", Some("bb"), None)).unwrap();
    assert!(matches!(tag_check_step(long, None, StoredFact::NameOwner(None)), Err(TagError::InvalidHotkey)));
}

#[test]
fn tag_check_parent_must_exist_be_active_and_not_descend_from_the_tag() {
    let parent = TagCheck::Parent(3);
    assert!(matches!(tag_check_step(parent.clone(), None, StoredFact::Tag(None)), Err(TagError::InvalidParent)));
    assert!(matches!(
        tag_check_step(parent.clone(), None, StoredFact::Tag(Some((None, true)))),
        Err(TagError::InvalidParent)
    ));
    assert_eq!(tag_check_step(parent.clone(), None, StoredFact::Tag(Some((None, false)))).unwrap(), TagCheck::Done);
    let up = tag_check_step(parent.clone(), Some(9), StoredFact::Tag(Some((Some(7), false)))).unwrap();
    assert_eq!(up, TagCheck::Ancestor { id: 7, steps: 1 });
    // The parent is the tag itself.
    assert!(matches!(
        tag_check_step(parent, Some(3), StoredFact::Tag(Some((None, false)))),
        Err(TagError::InvalidParent)
    ));
    // An ancestor that is the tag edited makes a cycle; a missing one ends the walk.
    assert!(matches!(
        tag_check_step(TagCheck::Ancestor { id: 9, steps: 2 }, Some(9), StoredFact::Tag(Some((None, false)))),
        Err(TagError::InvalidParent)
    ));
    assert_eq!(tag_check_step(up.clone(), Some(9), StoredFact::Tag(None)).unwrap(), TagCheck::Done);
    assert_eq!(
        tag_check_step(up, Some(9), StoredFact::Tag(Some((Some(8), true)))).unwrap(),
        TagCheck::Ancestor { id: 8, steps: 2 }
    );
}

#[test]
fn tag_check_fact_for_another_stage_changes_nothing() {
    let stage = TagCheck::Parent(3);
    assert_eq!(tag_check_step(stage.clone(), None, StoredFact::NameOwner(Some(1))).unwrap(), stage);
}

#[test]
fn schema_import_of_nothing_finishes_at_once() {
    let (state, action) = schema_import_start(&[]);
    assert!(matches!(action, SchemaImportAction::Finish));
    assert_eq!(
        state.outcome,
        SchemaImport { created: Vec::new(), hotkeys_dropped: Vec::new(), parents_dropped: Vec::new() }
    );
}

#[test]
fn schema_import_skips_existing_names_drops_bad_hotkeys_and_refused_parents() {
    let schema = vec![entry(" Anode ", Some(" Electrode "), Some("j")), entry("Electrode", None, None)];
    let (state, action) = schema_import_start(&schema);
    match &action {
        SchemaImportAction::LookUpName(n) => assert_eq!(n, "Anode"),
        other => panic!("expected a name lookup, got {other:?}"),
    }
    let (state, action) = schema_import_step(&schema, state, SchemaImportEvent::NameExists(false));
    assert!(matches!(action, SchemaImportAction::Insert(0, true)));
    let refused = SchemaImportEvent::Inserted(Err(TagError::ReservedHotkey("j".to_string())));
    let (state, action) = schema_import_step(&schema, state, refused);
    assert!(matches!(action, SchemaImportAction::Insert(0, false)));
    assert_eq!(state.outcome.hotkeys_dropped, vec!["Anode".to_string()]);
    let (state, action) = schema_import_step(&schema, state, SchemaImportEvent::Inserted(Ok(10)));
    match &action {
        SchemaImportAction::LookUpName(n) => assert_eq!(n, "Electrode"),
        other => panic!("expected a name lookup, got {other:?}"),
    }
    assert_eq!(state.pending, vec![(10, "Electrode".to_string())]);
    // "Electrode" exists already: skipped, and linking begins.
    let (state, action) = schema_import_step(&schema, state, SchemaImportEvent::NameExists(true));
    assert!(matches!(action, SchemaImportAction::ReadTag(10)));
    let (state, action) = schema_import_step(&schema, state, SchemaImportEvent::TagRead(Some("Anode".to_string())));
    match &action {
        SchemaImportAction::FindParent(n) => assert_eq!(n, "Electrode"),
        other => panic!("expected a parent lookup, got {other:?}"),
    }
    let (state, action) = schema_import_step(&schema, state, SchemaImportEvent::ParentFound(Some((4, false))));
    assert!(matches!(action, SchemaImportAction::Link(10, 4)));
    let (state, action) = schema_import_step(&schema, state, SchemaImportEvent::Linked(Err(TagError::InvalidParent)));
    assert!(matches!(action, SchemaImportAction::Finish));
    assert_eq!(
        state.outcome,
        SchemaImport {
            created: vec![10],
            hotkeys_dropped: vec!["Anode".to_string()],
            parents_dropped: vec!["Anode".to_string()],
        }
    );
}

#[test]
fn schema_import_links_an_active_parent_and_drops_an_archived_one() {
    let schema = vec![entry("Anode", Some("Electrode"), None), entry("Cathode", Some("Electrode"), None)];
    let (state, _) = schema_import_start(&schema);
    let (state, _) = schema_import_step(&schema, state, SchemaImportEvent::NameExists(false));
    let (state, _) = schema_import_step(&schema, state, SchemaImportEvent::Inserted(Ok(1)));
    let (state, _) = schema_import_step(&schema, state, SchemaImportEvent::NameExists(false));
    let (state, action) = schema_import_step(&schema, state, SchemaImportEvent::Inserted(Ok(2)));
    assert!(matches!(action, SchemaImportAction::ReadTag(1)));
    let (state, _) = schema_import_step(&schema, state, SchemaImportEvent::TagRead(Some("Anode".to_string())));
    let (state, action) = schema_import_step(&schema, state, SchemaImportEvent::ParentFound(Some((7, false))));
    assert!(matches!(action, SchemaImportAction::Link(1, 7)));
    let (state, action) = schema_import_step(&schema, state, SchemaImportEvent::Linked(Ok(())));
    assert!(matches!(action, SchemaImportAction::ReadTag(2)));
    let (state, _) = schema_import_step(&schema, state, SchemaImportEvent::TagRead(Some("Cathode".to_string())));
    let (state, action) = schema_import_step(&schema, state, SchemaImportEvent::ParentFound(Some((7, true))));
    assert!(matches!(action, SchemaImportAction::Finish));
    assert_eq!(
        state.outcome,
        SchemaImport { created: vec![1, 2], hotkeys_dropped: Vec::new(), parents_dropped: vec!["Cathode".to_string()] }
    );
}

#[test]
fn schema_import_stops_on_other_refusals() {
    let schema = vec![entry("", None, None)];
    let (state, _) = schema_import_start(&schema);
    let (state, _) = schema_import_step(&schema, state, SchemaImportEvent::NameExists(false));
    let (_, action) = schema_import_step(&schema, state, SchemaImportEvent::Inserted(Err(TagError::EmptyName)));
    assert!(matches!(action, SchemaImportAction::Fail(TagError::EmptyName)));

    // A second refusal after the hotkey was dropped stops it too.
    let schema = vec![entry("Anode", None, Some("bb"))];
    let (state, _) = schema_import_start(&schema);
    let (state, _) = schema_import_step(&schema, state, SchemaImportEvent::NameExists(false));
    let (state, _) = schema_import_step(&schema, state, SchemaImportEvent::Inserted(Err(TagError::InvalidHotkey)));
    let (_, action) = schema_import_step(&schema, state, SchemaImportEvent::Inserted(Err(TagError::InvalidHotkey)));
    assert!(matches!(action, SchemaImportAction::Fail(TagError::InvalidHotkey)));

    // A tag gone before linking.
    let schema = vec![entry("Anode", Some("Electrode"), None)];
    let (state, _) = schema_import_start(&schema);
    let (state, _) = schema_import_step(&schema, state, SchemaImportEvent::NameExists(false));
    let (state, _) = schema_import_step(&schema, state, SchemaImportEvent::Inserted(Ok(3)));
    let (_, action) = schema_import_step(&schema, state, SchemaImportEvent::TagRead(None));
    assert!(matches!(action, SchemaImportAction::Fail(TagError::NotFound(3))));
}
