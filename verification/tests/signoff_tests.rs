use totalrecall::append::{append_payload, entry_line};
use totalrecall::args::ArgValue;
use totalrecall::signoff::{parse_args, parse_worker_line, serialize_line};
use totalrecall::signoff_read::{handlers, parse_ranked_line, parse_signoff};

fn fields(pairs: &[(&str, ArgValue)]) -> Option<Vec<(String, ArgValue)>> {
    Some(pairs.iter().map(|(k, v)| (k.to_string(), v.clone())).collect())
}

fn s(t: &str) -> ArgValue {
    ArgValue::Str(t.to_string())
}

#[test]
fn serialized_line_has_the_pinned_shape() {
    let line = serialize_line(
        "w1",
        "yes",
        "none",
        "none",
        "no",
        None,
        "wf",
        "2026-09-13T12:00:00Z",
        "s-1",
    );
    assert_eq!(
        line,
        "Worker signoff (w1) | done: yes | unpushed: none | awaits human: none | still running: no | workflow: wf | ts: 2026-09-13T12:00:00Z | session: s-1"
    );
    let with_review = serialize_line("w1", "no", "2", "x", "y", Some("ok"), "wf", "t", "s");
    assert!(with_review.contains(" | still running: y | kaibo review: ok | workflow: wf"));
}

#[test]
fn a_serialized_line_reads_back() {
    let line = serialize_line(
        " w1 ",
        "yes",
        "none",
        "none",
        "no",
        Some("fine"),
        "wf",
        "2026-09-13T12:00:00Z",
        "s-1",
    );
    let w = parse_worker_line(&line).unwrap();
    assert_eq!(w.worker, "w1");
    assert_eq!(w.done, "yes");
    assert_eq!(w.unpushed, "none");
    assert_eq!(w.awaits_human, "none");
    assert_eq!(w.still_running, "no");
    assert_eq!(w.kaibo_review, Some("fine".to_string()));
    assert_eq!(w.workflow, Some("wf".to_string()));
    assert_eq!(w.ts, Some("2026-09-13T12:00:00Z".to_string()));
    assert_eq!(w.session, Some("s-1".to_string()));
}

#[test]
fn worker_lines_missing_fields_are_skipped() {
    assert!(parse_worker_line("Worker signoff (w) | done: yes").is_none());
    assert!(parse_worker_line("Worker signoff () | done: yes | unpushed: a | awaits human: b | still running: c").is_none());
    assert!(parse_worker_line("Worker signoff (w) | done yes | unpushed: a | awaits human: b | still running: c").is_none());
    assert!(parse_worker_line("worker signoff (w) | done: yes | unpushed: a | awaits human: b | still running: c").is_none());
    let w = parse_worker_line("Worker signoff (w) | done: yes | unpushed: a | awaits human: b | still running: c | extra: z").unwrap();
    assert_eq!(w.workflow, None);
}

#[test]
fn signoff_args_default_the_status_fields() {
    let a = parse_args(&fields(&[("role", s("w1")), ("workflow", s("wf")), ("done", s("no"))])).unwrap();
    assert_eq!(a.role, "w1");
    assert_eq!(a.unpushed, "none");
    assert_eq!(a.awaits_human, "none");
    assert_eq!(a.still_running, "no");
    assert_eq!(a.kaibo_review, None);
}

#[test]
fn signoff_args_refusals() {
    assert!(parse_args(&None).is_err());
    assert!(parse_args(&fields(&[("role", s("w1")), ("workflow", s("wf"))])).is_err());
    assert!(parse_args(&fields(&[("role", s("w(1)")), ("workflow", s("wf")), ("done", s("no"))])).is_err());
    assert!(parse_args(&fields(&[("role", s("  ")), ("workflow", s("wf")), ("done", s("no"))])).is_err());
    assert!(parse_args(&fields(&[("role", s("w")), ("workflow", s("a\nb")), ("done", s("no"))])).is_err());
    assert!(parse_args(&fields(&[("role", s("w")), ("workflow", s("wf")), ("done", s("maybe"))])).is_err());
    let e = parse_args(&fields(&[("role", s("w")), ("workflow", s("wf")), ("done", s("no")), ("path", s("/"))]))
        .err()
        .unwrap();
    assert!(e.starts_with("append_signoff refused: unknown field(s) [\"path\"]"));
}

#[test]
fn entry_line_applies_the_byte_cap() {
    let a = parse_args(&fields(&[("role", s("w1")), ("workflow", s("wf")), ("done", s("yes"))])).unwrap();
    let line = entry_line(&a, "2026-09-13T12:00:00Z", "s-1").unwrap();
    assert!(line.starts_with("Worker signoff (w1) | done: yes"));
    let long = "x".repeat(20_000);
    let b = parse_args(&fields(&[("role", s("w1")), ("workflow", s(&long)), ("done", s("yes"))])).unwrap();
    let err = entry_line(&b, "2026-09-13T12:00:00Z", "s-1").err().unwrap();
    assert!(err.contains("the cap is 16384 bytes"));
}

#[test]
fn append_payload_separates_from_an_unterminated_tail() {
    assert_eq!(append_payload(true, "x"), "\nx\n");
    assert_eq!(append_payload(false, "x"), "x\n");
}

#[test]
fn ranked_lines_need_digits_dot_space() {
    assert_eq!(parse_ranked_line("1. First thing "), Some((1, "First thing".to_string())));
    assert_eq!(parse_ranked_line("12. x"), Some((12, "x".to_string())));
    assert_eq!(parse_ranked_line("   continuation"), None);
    assert_eq!(parse_ranked_line("1.x"), None);
}

#[test]
fn signoff_file_parses_into_its_four_parts() {
    let text = "# Signoff\n\nLast updated: 2026-09-13\n\n## If you read nothing else\n1. First thing\n2. Second thing\n   continuation\n\nWorker signoff (w1) | done: yes | unpushed: none | awaits human: none | still running: no\n\n## History\n- old block\n\n- older\n";
    let p = parse_signoff(text);
    assert_eq!(p.header, "Last updated: 2026-09-13");
    assert_eq!(
        p.ranked,
        vec![(1, "First thing".to_string()), (2, "Second thing".to_string())]
    );
    assert_eq!(p.history, vec!["old block".to_string(), "older".to_string()]);
    assert_eq!(p.worker_signoffs.len(), 1);
    assert_eq!(p.worker_signoffs[0].worker, "w1");
}

#[test]
fn a_signoff_without_the_heading_has_no_block() {
    let p = parse_signoff("just text\n");
    assert_eq!(p.header, "");
    assert!(p.ranked.is_empty());
    assert!(p.history.is_empty());
}

#[test]
fn signoff_read_answers_for_read_signoff() {
    assert_eq!(handlers(), vec!["read_signoff"]);
}

#[test]
fn an_appended_entry_is_read_back_last() {
    let a = parse_args(&fields(&[("role", s("builder")), ("workflow", s("wf-1")), ("done", s("yes"))])).unwrap();
    let line = entry_line(&a, "2026-09-13T12:00:00Z", "s-9").unwrap();
    let old = "## If you read nothing else\n1. x\nWorker signoff (early) | done: no | unpushed: none | awaits human: none | still running: no";
    let before = parse_signoff(old);
    let after = parse_signoff(&format!("{old}{}", append_payload(!old.ends_with('\n'), &line)));
    assert_eq!(after.worker_signoffs.len(), before.worker_signoffs.len() + 1);
    let last = after.worker_signoffs.last().unwrap();
    assert_eq!(last.worker, "builder");
    assert_eq!(last.done, "yes");
}
