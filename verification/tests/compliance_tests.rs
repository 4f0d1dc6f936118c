use totalrecall::compliance::{compliance_args, compliance_rows, AuditEntry};
use totalrecall::session::Sessions;

fn entry(id: Option<&str>, ts: Option<&str>) -> AuditEntry {
    AuditEntry { session_id: id.map(str::to_string), ts: ts.map(str::to_string) }
}

#[test]
fn the_report_puts_the_caller_first_then_others_by_id() {
    let audit = vec![
        entry(Some("s-z"), Some("t1")),
        entry(Some("me"), None),
        entry(Some("me"), Some("t3")),
        entry(Some("s-a"), Some("t4")),
        entry(None, Some("t5")),
        entry(Some("s-z"), Some("t6")),
    ];
    let records = vec![
        ("caller".to_string(), "\"h1\"".to_string()),
        ("s-a".to_string(), "\"h2\"".to_string()),
        ("caller".to_string(), "\"h3\"".to_string()),
    ];
    let mut st = Sessions::new();
    let caller = "caller".to_string();
    let _ = st.gate(&caller);
    let rows = compliance_rows(&audit, &records, &st, &"me".to_string(), &caller);
    let ids: Vec<&str> = rows.iter().map(|r| r.session_id.as_str()).collect();
    assert_eq!(ids, vec!["me", "s-a", "s-z"]);
    assert_eq!(rows[0].handshaked_at, Some("\"h3\"".to_string()));
    assert_eq!(rows[0].first_write_ts, None);
    assert_eq!(rows[0].write_count, 2);
    assert!(rows[0].attempted_write_before_handshake);
    assert_eq!(rows[0].refused_count, 1);
    assert_eq!(rows[1].handshaked_at, Some("\"h2\"".to_string()));
    assert_eq!(rows[1].first_write_ts, Some("t4".to_string()));
    assert_eq!(rows[2].write_count, 2);
    assert_eq!(rows[2].first_write_ts, Some("t1".to_string()));
    assert!(!rows[2].attempted_write_before_handshake);
}

#[test]
fn compliance_takes_no_arguments() {
    assert!(compliance_args(&Some(vec![]), "{}").is_ok());
    let e = compliance_args(
        &Some(vec![
            ("a".to_string(), totalrecall::args::ArgValue::Null),
            ("b".to_string(), totalrecall::args::ArgValue::Null),
        ]),
        "{}",
    )
    .err()
    .unwrap();
    assert_eq!(e, "session_compliance refused: unknown field(s) 'a', 'b' — the schema takes no arguments");
    assert_eq!(
        compliance_args(&None, "[1]").err().unwrap(),
        "session_compliance refused: arguments must be a JSON object (got [1])"
    );
}
