use totalrecall::args::ArgValue;
use totalrecall::claims::{
    classify_claim, claim_date, claim_document, claim_step, dayfile_gate, is_stale_claim,
    lost_race, mint_token, parse_claim_args, parse_dayfile_args, ClaimFile, ClaimRead, ClaimStep,
};

fn held(holder: &str, token: &str) -> ClaimRead {
    ClaimRead::Held {
        holder: holder.to_string(),
        token: token.to_string(),
        acquired_at: "2026-09-13T08:00:00Z".to_string(),
    }
}

#[test]
fn claim_files_read_as_claims_or_orphans() {
    let doc = "{\"holder_session_id\":\"s-1\",\"token\":\"tok-1\",\"acquired_at\":\"t0\"}";
    match classify_claim(ClaimFile::Text(doc.to_string())) {
        ClaimRead::Held { holder, token, acquired_at } => {
            assert_eq!((holder.as_str(), token.as_str(), acquired_at.as_str()), ("s-1", "tok-1", "t0"));
        }
        _ => panic!("a full claim record is a claim"),
    }
    assert!(matches!(classify_claim(ClaimFile::Text("{\"token\":\"x\"}".to_string())), ClaimRead::Orphan));
    assert!(matches!(classify_claim(ClaimFile::Text("".to_string())), ClaimRead::Orphan));
    assert!(matches!(classify_claim(ClaimFile::Text("{\"holder_session_id\":1,\"token\":\"x\",\"acquired_at\":\"y\"}".to_string())), ClaimRead::Orphan));
    assert!(matches!(classify_claim(ClaimFile::Unreadable), ClaimRead::Orphan));
    assert!(matches!(classify_claim(ClaimFile::Missing), ClaimRead::Absent));
}

#[test]
fn the_written_record_reads_back_as_the_claim() {
    let doc = claim_document("s-1", "tok-\"q\"", "2026-09-13T00:00:00Z");
    assert_eq!(
        doc,
        "{\"acquired_at\":\"2026-09-13T00:00:00Z\",\"holder_session_id\":\"s-1\",\"token\":\"tok-\\\"q\\\"\"}"
    );
    match classify_claim(ClaimFile::Text(doc)) {
        ClaimRead::Held { token, .. } => assert_eq!(token, "tok-\"q\""),
        _ => panic!("the record is a claim"),
    }
}

#[test]
fn claim_decisions_follow_the_disk() {
    assert!(matches!(claim_step(&ClaimRead::Absent, "s-1", "2026-09-13", None), ClaimStep::Create));
    assert!(matches!(claim_step(&held("s-1", "t"), "s-1", "2026-09-13", None), ClaimStep::Reclaim));
    match claim_step(&held("s-2", "t"), "s-1", "2026-09-13", None) {
        ClaimStep::Refuse(m) => assert_eq!(
            m,
            "claim_orchestrator refused: orchestrator-2026-09-13 is held by session=s-2 (acquired 2026-09-13T08:00:00Z) — a live claim is single-writer: only the holding session may claim that date. The claim file is unchanged; the holder must release (or the claim must age out) before another session may take it"
        ),
        _ => panic!("another session's claim is refused"),
    }
    assert!(matches!(claim_step(&ClaimRead::Orphan, "s-1", "d", Some(30)), ClaimStep::TakeOver));
    match claim_step(&ClaimRead::Orphan, "s-1", "d", Some(29)) {
        ClaimStep::Refuse(m) => assert!(m.contains("taken over once it has been orphaned for 30 s")),
        _ => panic!("a fresh orphan is waited out"),
    }
    assert!(matches!(claim_step(&ClaimRead::Orphan, "s-1", "d", None), ClaimStep::Refuse(_)));
}

#[test]
fn a_lost_race_hands_back_only_our_own_claim() {
    assert!(lost_race(&held("s-1", "t"), "s-1", "d").is_ok());
    assert!(lost_race(&held("s-2", "t"), "s-1", "d").err().unwrap().contains("held by session=s-2"));
    assert!(lost_race(&ClaimRead::Absent, "s-1", "d").err().unwrap().ends_with("not a usable claim — retry"));
}

#[test]
fn tokens_are_sixteen_hex_digits() {
    assert_eq!(mint_token(1, 0, 0), "tok-000000009e3779b9");
    let expected = ((7u64.wrapping_mul(0x9E37_79B9) ^ 1_789_302_131).wrapping_mul(5)) as u64;
    assert_eq!(mint_token(7, 1_789_302_131, 4), format!("tok-{:016x}", expected));
}

#[test]
fn stale_claims_are_real_dates_before_today() {
    let today = "2026-09-13".to_string();
    assert!(is_stale_claim("orchestrator-2026-09-12", &today));
    assert!(!is_stale_claim("orchestrator-2026-09-13", &today));
    assert!(!is_stale_claim("orchestrator-2026-09-14", &today));
    assert!(!is_stale_claim("orchestrator-2026-02-30", &today));
    assert!(!is_stale_claim("archive", &today));
}

#[test]
fn claim_dates_default_to_today() {
    assert_eq!(claim_date(&None, "2026-09-13".to_string()), Ok("2026-09-13".to_string()));
    assert_eq!(claim_date(&Some("2024-02-29".to_string()), "x".to_string()), Ok("2024-02-29".to_string()));
    assert_eq!(
        claim_date(&Some("2023-02-29".to_string()), "x".to_string()),
        Err("claim_orchestrator refused: date '2023-02-29' is not a valid YYYY-MM-DD calendar date".to_string())
    );
}

#[test]
fn claim_args_allow_only_a_string_date() {
    assert_eq!(parse_claim_args(&Some(vec![])), Ok(None));
    assert_eq!(
        parse_claim_args(&Some(vec![("date".to_string(), ArgValue::Str("2026-09-13".to_string()))])),
        Ok(Some("2026-09-13".to_string()))
    );
    assert_eq!(
        parse_claim_args(&Some(vec![("date".to_string(), ArgValue::Bool(true))])),
        Err("claim_orchestrator refused: field 'date' must be a string when present (got bool)".to_string())
    );
    assert_eq!(
        parse_claim_args(&Some(vec![("when".to_string(), ArgValue::Null)])),
        Err("claim_orchestrator refused: unknown field(s) [\"when\"] — the schema allows only: date".to_string())
    );
}

#[test]
fn dayfile_args_need_both_strings() {
    let ok = parse_dayfile_args(&Some(vec![
        ("content".to_string(), ArgValue::Str("c".to_string())),
        ("orchestrator_token".to_string(), ArgValue::Str("t".to_string())),
    ]));
    assert_eq!(ok, Ok(("c".to_string(), "t".to_string())));
    assert_eq!(
        parse_dayfile_args(&Some(vec![("content".to_string(), ArgValue::Str("c".to_string()))])),
        Err("write_dayfile refused: missing required field 'orchestrator_token'".to_string())
    );
}

#[test]
fn the_dayfile_gate_needs_both_legs() {
    let t = "tok".to_string();
    assert!(dayfile_gate(&held("s-1", "tok"), &Some(t.clone()), &t, "2026-09-13").is_ok());
    assert_eq!(
        dayfile_gate(&held("s-1", "tok"), &None, &t, "2026-09-13"),
        Err("write_dayfile refused: no valid orchestrator_2026-09-13 claim — single-writer dayfile".to_string())
    );
    assert!(dayfile_gate(&ClaimRead::Orphan, &Some(t.clone()), &t, "d").is_err());
    assert!(dayfile_gate(&held("s-1", "other"), &Some(t.clone()), &t, "d").is_err());
}
