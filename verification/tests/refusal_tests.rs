use totalrecall::args::ArgValue;
use totalrecall::claims::{parse_claim_args, parse_dayfile_args};
use totalrecall::compliance::compliance_args;
use totalrecall::signoff::parse_args;
use totalrecall::ticks::{parse_last_tick_args, parse_log_tick_args};

fn fields(pairs: &[(&str, ArgValue)]) -> Option<Vec<(String, ArgValue)>> {
    Some(pairs.iter().map(|(k, v)| (k.to_string(), v.clone())).collect())
}

fn s(t: &str) -> ArgValue {
    ArgValue::Str(t.to_string())
}

#[test]
fn log_tick_refusals_come_in_schema_order() {
    assert_eq!(
        parse_log_tick_args(&fields(&[("check", s("a")), ("zzz", ArgValue::Null)])).err().as_deref(),
        Some("log_tick refused: unknown field 'zzz' — the schema allows only check, result")
    );
    assert_eq!(
        parse_log_tick_args(&fields(&[("check", ArgValue::Number("7".into())), ("result", s("ok"))]))
            .err()
            .as_deref(),
        Some("log_tick refused: field 'check' must be a string (got 7)")
    );
    assert_eq!(
        parse_log_tick_args(&fields(&[("check", s("c")), ("result", ArgValue::Bool(true))]))
            .err()
            .as_deref(),
        Some("log_tick refused: field 'result' must be a string (got true)")
    );
    assert_eq!(
        parse_last_tick_args(&fields(&[("check", ArgValue::Array("[1]".into()))])).err().as_deref(),
        Some("last_tick refused: field 'check' must be a string (got [1])")
    );
}

#[test]
fn signoff_refusals_name_the_first_problem() {
    let base = |extra: &[(&str, ArgValue)]| {
        let mut v = vec![("role", s("builder")), ("workflow", s("wf")), ("done", s("yes"))];
        v.extend_from_slice(extra);
        fields(&v)
    };
    assert_eq!(
        parse_args(&base(&[("nope", s("x")), ("also", s("y"))])).err().as_deref(),
        Some("append_signoff refused: unknown field(s) [\"nope\", \"also\"] — the schema allows only: role, workflow, done, unpushed, awaits_human, still_running, kaibo_review")
    );
    assert_eq!(
        parse_args(&base(&[("unpushed", ArgValue::Null)])).err().as_deref(),
        Some("append_signoff refused: field 'unpushed' must be a string when present (got null)")
    );
    assert_eq!(
        parse_args(&fields(&[("role", s("r")), ("workflow", s("w")), ("done", s("maybe"))])).err().as_deref(),
        Some("append_signoff refused: 'done' must be \"yes\" or \"no\" (schema enum; got \"maybe\")")
    );
    assert_eq!(
        parse_args(&base(&[("still_running", s("a\nb"))])).err().as_deref(),
        Some("append_signoff refused: 'still_running' contains a newline — the entry is exactly ONE line")
    );
}

#[test]
fn claim_and_dayfile_refusals_name_the_field() {
    assert_eq!(
        parse_claim_args(&fields(&[("date", ArgValue::Bool(false))])).err().as_deref(),
        Some("claim_orchestrator refused: field 'date' must be a string when present (got bool)")
    );
    assert_eq!(
        parse_dayfile_args(&fields(&[("content", s("x"))])).err().as_deref(),
        Some("write_dayfile refused: missing required field 'orchestrator_token'")
    );
}

#[test]
fn compliance_refuses_any_field() {
    assert_eq!(
        compliance_args(&fields(&[("a", ArgValue::Null), ("b", ArgValue::Null)]), "{}").err().as_deref(),
        Some("session_compliance refused: unknown field(s) 'a', 'b' — the schema takes no arguments")
    );
    assert_eq!(
        compliance_args(&None, "[1]").err().as_deref(),
        Some("session_compliance refused: arguments must be a JSON object (got [1])")
    );
    assert_eq!(compliance_args(&fields(&[]), "{}"), Ok(()));
}
