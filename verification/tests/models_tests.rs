use totalrecall::models::{Note, NoteMetadata, Observation};

#[test]
fn test_note_metadata_default() {
    let meta = NoteMetadata::default();
    assert!(meta.title.is_none());
    assert!(meta.date.is_none());
    assert!(meta.note_type.is_none());
    assert!(meta.tags.is_none());
    assert!(meta.archived.is_none());
}

#[test]
fn test_observation_clone_and_debug() {
    let obs = Observation {
        id: "abc".to_string(),
        note_id: "2026-03-09".to_string(),
        timestamp: "10:30".to_string(),
        section: Some("Work".to_string()),
        category: Some("task".to_string()),
        content: "Finished the tests".to_string(),
        full_context: "- [task] Finished the tests".to_string(),
        tags: vec!["rust".to_string()],
    };
    let cloned = obs.clone();
    assert_eq!(obs.id, cloned.id);
    assert_eq!(obs.tags, cloned.tags);
    let _ = format!("{:?}", obs);
}

#[test]
fn test_note_archived_field() {
    let note = Note {
        id: "id1".to_string(),
        date: "2026-03-09".to_string(),
        metadata: NoteMetadata::default(),
        content: "test".to_string(),
        observations: vec![],
        created_at: 1000,
        updated_at: 2000,
        archived: true,
    };
    assert!(note.archived);
    assert_eq!(note.created_at, 1000);
}

#[test]
fn frontmatter_block_is_between_the_first_two_rulers() {
    assert_eq!(
        NoteMetadata::frontmatter_block("---\ntitle: Partial\n---\nSome content"),
        Some("\ntitle: Partial\n".to_string())
    );
    assert_eq!(NoteMetadata::frontmatter_block("No frontmatter here, just plain text."), None);
    assert_eq!(NoteMetadata::frontmatter_block("---\n---\nBody"), Some("\n".to_string()));
}
