use totalrecall::args::ArgValue;
use totalrecall::claims::ClaimRead;
use totalrecall::signoff_read::parse_signoff;
use totalrecall::warmstart::{compose_rewrite, has_warm_heading, parse_warm_start_args, warm_start_gate};

fn fields(pairs: &[(&str, &str)]) -> Option<Vec<(String, ArgValue)>> {
    Some(pairs.iter().map(|(k, v)| (k.to_string(), ArgValue::Str(v.to_string()))).collect())
}

#[test]
fn rewrite_moves_the_old_block_into_history() {
    let original = "# Signoff\n\nLast updated: d1\n\n## If you read nothing else\n1. a\n\n## History\n- old\n";
    let r = compose_rewrite(original, "## If you read nothing else\n1. b").unwrap();
    assert_eq!(
        r.intended,
        "# Signoff\n\n## If you read nothing else\n1. b\n## History\n- old\n- Last updated: d1\n- ## If you read nothing else\n- 1. a\n"
    );
}

#[test]
fn rewrite_creates_a_history_section_when_absent() {
    let original = "Last updated: d1\n## If you read nothing else\n1. a\n";
    let r = compose_rewrite(original, "## If you read nothing else\n1. b\n").unwrap();
    assert_eq!(
        r.intended,
        "## If you read nothing else\n1. b\n## History\n- Last updated: d1\n- ## If you read nothing else\n- 1. a\n"
    );
}

#[test]
fn rewrite_refuses_without_a_region_or_with_history_first() {
    assert!(compose_rewrite("no region here\n", "## If you read nothing else\n1. b\n").is_err());
    let history_first = "## History\n- x\n## If you read nothing else\n1. a\n";
    assert!(compose_rewrite(history_first, "## If you read nothing else\n1. b\n").is_err());
}

#[test]
fn warm_start_args_need_content_and_token() {
    let ok = parse_warm_start_args(&fields(&[("content", "x"), ("orchestrator_token", "t")]), "object");
    assert_eq!(ok.unwrap(), ("x".to_string(), "t".to_string()));
    assert!(parse_warm_start_args(&fields(&[("content", "  "), ("orchestrator_token", "t")]), "object").is_err());
    assert!(parse_warm_start_args(&fields(&[("content", "x")]), "object").is_err());
    let e = parse_warm_start_args(&None, "array").err().unwrap();
    assert_eq!(e, "write_warm_start refused: arguments must be a JSON object (got array)");
}

#[test]
fn warm_start_gate_needs_all_three_tokens_to_agree() {
    let held = ClaimRead::Held {
        holder: "s-1".to_string(),
        token: "tok".to_string(),
        acquired_at: "t".to_string(),
    };
    assert!(warm_start_gate(&held, &Some("tok".to_string()), &"tok".to_string(), "2026-09-13").is_ok());
    assert!(warm_start_gate(&held, &None, &"tok".to_string(), "2026-09-13").is_err());
    assert!(warm_start_gate(&held, &Some("tok".to_string()), &"other".to_string(), "2026-09-13").is_err());
    assert!(warm_start_gate(&ClaimRead::Absent, &Some("tok".to_string()), &"tok".to_string(), "d").is_err());
}

#[test]
fn heading_line_must_stand_alone() {
    assert!(has_warm_heading("## If you read nothing else\n1. x\n"));
    assert!(!has_warm_heading("1. x\n"));
    assert!(!has_warm_heading("## If you read nothing else!\n"));
}

#[test]
fn a_written_block_reads_back_ranked_and_the_old_one_joins_history() {
    let original = "# Signoff\nLast updated: d1\n## If you read nothing else\n1. old a\n2. old b\n## Workers\nWorker signoff (w) | done: yes\n## History\n- first\n\n";
    let content = "Last updated: d2\n## If you read nothing else\n1. new a\n  continued\n2. new b";
    let r = compose_rewrite(original, content).unwrap();
    let after = parse_signoff(&r.intended);
    let block = parse_signoff(&format!("{content}\n"));
    assert_eq!(after.ranked, block.ranked);
    assert_eq!(after.ranked, vec![(1, "new a".to_string()), (2, "new b".to_string())]);
    assert_eq!(after.header, "Last updated: d2");
    let before = parse_signoff(original);
    let mut want = before.history.clone();
    want.extend(["Last updated: d1", "## If you read nothing else", "1. old a", "2. old b"].map(String::from));
    assert_eq!(after.history, want);
    assert_eq!(after.worker_signoffs.len(), before.worker_signoffs.len());
}
