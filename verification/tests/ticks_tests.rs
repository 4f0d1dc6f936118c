use totalrecall::args::ArgValue;
use totalrecall::ticks::{last_tick_verdict, parse_last_tick_args, parse_log_tick_args, TickRecord};

fn tick(ts: &str, check: &str) -> TickRecord {
    TickRecord {
        ts: Some(ts.to_string()),
        check: Some(check.to_string()),
        session_id: Some(ArgValue::Str("s-1".to_string())),
        result: Some(ArgValue::Str("ok".to_string())),
    }
}

const NOON: i64 = 1_789_300_800;

#[test]
fn the_tick_window_boundary_is_45_minutes() {
    let ticks = vec![tick("2026-09-13T12:00:00Z", "c1")];
    assert_eq!(last_tick_verdict("c1", &ticks, NOON + 44 * 60), Ok(0));
    assert_eq!(
        last_tick_verdict("c1", &ticks, NOON + 45 * 60),
        Err("silence is never good news: check c1 last ticked 2026-09-13T12:00:00Z (45m ago)".to_string())
    );
    assert_eq!(
        last_tick_verdict("c1", &ticks, NOON + 2 * 3600 + 5 * 60),
        Err("silence is never good news: check c1 last ticked 2026-09-13T12:00:00Z (2h05m ago)".to_string())
    );
}

#[test]
fn an_unregistered_check_is_refused() {
    let ticks = vec![tick("2026-09-13T12:00:00Z", "other")];
    assert_eq!(
        last_tick_verdict("c1", &ticks, NOON),
        Err("last_tick refused: check 'c1' is not registered — no ticks on record in .audit/*.jsonl; a check is registered by log_tick recording it".to_string())
    );
}

#[test]
fn unreadable_stamps_are_not_freshness() {
    let ticks = vec![tick("yesterday", "c1"), TickRecord { ts: None, ..tick("x", "c1") }];
    assert_eq!(
        last_tick_verdict("c1", &ticks, NOON),
        Err("last_tick refused: check 'c1' has 2 tick(s) on record but none with a readable ISO-8601Z `ts` — freshness cannot be computed from them".to_string())
    );
}

#[test]
fn the_newest_tick_wins_and_a_later_record_breaks_a_tie() {
    let ticks = vec![
        tick("2026-09-13T12:10:00Z", "c1"),
        tick("2026-09-13T11:00:00Z", "c1"),
        tick("2026-09-13T12:10:00Z", "c1"),
        tick("2026-09-13T12:30:00Z", "c2"),
    ];
    assert_eq!(last_tick_verdict("c1", &ticks, NOON + 20 * 60), Ok(2));
}

fn fields(pairs: &[(&str, ArgValue)]) -> Option<Vec<(String, ArgValue)>> {
    Some(pairs.iter().map(|(k, v)| (k.to_string(), v.clone())).collect())
}

#[test]
fn log_tick_args_are_checked() {
    let ok = parse_log_tick_args(&fields(&[
        ("check", ArgValue::Str("  c1 ".to_string())),
        ("result", ArgValue::Str("green".to_string())),
    ]));
    assert_eq!(ok, Ok(("c1".to_string(), "green".to_string())));
    assert_eq!(
        parse_log_tick_args(&fields(&[("check", ArgValue::Str("c".to_string()))])),
        Err("log_tick refused: missing required field 'check' and/or 'result'".to_string())
    );
    assert_eq!(
        parse_log_tick_args(&fields(&[("check", ArgValue::Str("c".to_string())), ("x", ArgValue::Null)])),
        Err("log_tick refused: unknown field 'x' — the schema allows only check, result".to_string())
    );
    assert_eq!(
        parse_log_tick_args(&fields(&[
            ("check", ArgValue::Number("5".to_string())),
            ("result", ArgValue::Str("r".to_string())),
        ])),
        Err("log_tick refused: field 'check' must be a string (got 5)".to_string())
    );
    assert!(parse_log_tick_args(&fields(&[
        ("check", ArgValue::Str(" ".to_string())),
        ("result", ArgValue::Str("r".to_string())),
    ]))
    .is_err());
}

#[test]
fn last_tick_args_are_checked() {
    assert_eq!(
        parse_last_tick_args(&fields(&[("check", ArgValue::Str(" c1".to_string()))])),
        Ok("c1".to_string())
    );
    assert_eq!(
        parse_last_tick_args(&fields(&[])),
        Err("last_tick refused: missing required field 'check'".to_string())
    );
    assert_eq!(
        parse_last_tick_args(&None),
        Err("last_tick refused: arguments must be a JSON object ({\"check\": …})".to_string())
    );
}
