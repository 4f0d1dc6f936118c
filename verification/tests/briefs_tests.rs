use totalrecall::args::ArgValue;
use totalrecall::briefs::{archive_decision, archive_name, brief_gate, is_safe_worker, parse_brief_args};
use totalrecall::claims::ClaimRead;

#[test]
fn workers_are_single_safe_segments() {
    assert!(is_safe_worker("parser"));
    assert!(is_safe_worker("a.b"));
    assert!(!is_safe_worker(""));
    assert!(!is_safe_worker("a/b"));
    assert!(!is_safe_worker("/etc"));
    assert!(!is_safe_worker(".."));
    assert!(!is_safe_worker("x..y"));
}

#[test]
fn archives_are_named_by_the_superseded_mtime() {
    assert_eq!(archive_name("parser", "2026-09-13T12:22:11Z"), "parser-2026-09-13T122211Z.md");
}

#[test]
fn an_archive_is_never_overwritten() {
    assert_eq!(archive_decision(false, false, "w-x.md"), Ok(true));
    assert_eq!(archive_decision(true, true, "w-x.md"), Ok(false));
    assert!(archive_decision(true, false, "w-x.md").err().unwrap().contains("no archive is ever overwritten"));
}

#[test]
fn the_brief_gate_compares_file_and_session_tokens() {
    let held = ClaimRead::Held {
        holder: "s".to_string(),
        token: "t".to_string(),
        acquired_at: "a".to_string(),
    };
    assert!(brief_gate(&held, &Some("t".to_string()), "2026-09-13").is_ok());
    assert!(brief_gate(&held, &Some("u".to_string()), "2026-09-13").is_err());
    assert!(brief_gate(&ClaimRead::Absent, &Some("t".to_string()), "2026-09-13")
        .err()
        .unwrap()
        .starts_with("write_brief refused: no valid orchestrator_2026-09-13 claim"));
}

#[test]
fn brief_args_are_two_strings() {
    let ok = parse_brief_args(
        &Some(vec![
            ("worker".to_string(), ArgValue::Str("w".to_string())),
            ("brief".to_string(), ArgValue::Str("b".to_string())),
        ]),
        "object",
    );
    assert_eq!(ok, Ok(("w".to_string(), "b".to_string())));
    assert_eq!(
        parse_brief_args(&Some(vec![("worker".to_string(), ArgValue::Bool(true))]), "object"),
        Err("write_brief refused: field 'worker' must be a string (got boolean)".to_string())
    );
    assert_eq!(
        parse_brief_args(&None, "string"),
        Err("write_brief refused: arguments must be a JSON object (got string)".to_string())
    );
}
