use totalrecall::file_parser::FileParser;

fn sample_note() -> &'static str {
    "---\ntitle: Daily Note\n---\n\
     ## Work\n\
     ## 10:30\n\
     - [task] Finished the Rust tests #rust #testing\n\
     - [note] Reviewed PR for main branch\n\
     ## 14:00\n\
     - [idea] Refactor embedder to support batching\n"
}

#[test]
fn test_parse_observations_count() {
    let obs = FileParser::parse_observations(sample_note()).unwrap();
    assert_eq!(obs.len(), 3, "expected 3 observations from sample note");
}

#[test]
fn test_parse_observations_category() {
    let obs = FileParser::parse_observations(sample_note()).unwrap();
    assert_eq!(obs[0].category, Some("task".to_string()));
    assert_eq!(obs[1].category, Some("note".to_string()));
    assert_eq!(obs[2].category, Some("idea".to_string()));
}

#[test]
fn test_parse_observations_timestamp() {
    let obs = FileParser::parse_observations(sample_note()).unwrap();
    assert_eq!(obs[0].timestamp, "10:30");
    assert_eq!(obs[1].timestamp, "10:30");
    assert_eq!(obs[2].timestamp, "14:00");
}

#[test]
fn test_parse_observations_section() {
    let obs = FileParser::parse_observations(sample_note()).unwrap();
    assert_eq!(obs[0].section, Some("Work".to_string()));
    assert_eq!(obs[1].section, Some("Work".to_string()));
}

#[test]
fn test_parse_observations_empty_content() {
    let obs = FileParser::parse_observations("").unwrap();
    assert!(obs.is_empty());
}

#[test]
fn test_parse_observations_no_observations() {
    let content = "---\ntitle: Empty\n---\n## 09:00\nJust prose, no bullet points.\n";
    let obs = FileParser::parse_observations(content).unwrap();
    assert!(obs.is_empty());
}

#[test]
fn test_parse_observations_full_context_not_empty() {
    let obs = FileParser::parse_observations(sample_note()).unwrap();
    for o in &obs {
        assert!(!o.full_context.is_empty(), "full_context should always be non-empty");
    }
}

#[test]
fn test_parse_observations_full_context_preserved() {
    let obs = FileParser::parse_observations(sample_note()).unwrap();
    assert!(obs[0].full_context.contains("[task]"), "full_context should contain the whole line");
}

#[test]
fn test_is_timestamp_format() {
    let content = "## 08:00\n- [x] Something\n";
    let obs = FileParser::parse_observations(content).unwrap();
    assert_eq!(obs.len(), 1);
    assert_eq!(obs[0].timestamp, "08:00");
    assert!(obs[0].section.is_none());
}

#[test]
fn observations_carry_tags_and_clean_content() {
    let obs = FileParser::parse_observations(sample_note()).unwrap();
    assert_eq!(
        obs[0].tags,
        vec!["Finished".to_string(), "rust".to_string(), "testing".to_string()]
    );
    assert_eq!(obs[0].content, "rust testing");
    assert_eq!(obs[0].full_context, "- [task] Finished the Rust tests #rust #testing");
    assert_eq!(obs[1].tags, vec!["Reviewed".to_string()]);
    assert_eq!(obs[1].content, "");
}

#[test]
fn observation_ids_are_fresh() {
    let obs = FileParser::parse_observations(sample_note()).unwrap();
    assert_ne!(obs[0].id, obs[1].id);
    assert_eq!(obs[0].id.len(), 36);
}
