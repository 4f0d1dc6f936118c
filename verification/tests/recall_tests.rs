use totalrecall::args::{debug_names, ArgValue};
use totalrecall::index::{Query, Scope};
use totalrecall::recall::{
    handlers, parse_recall_args, recall_hits, recall_query, workflow_tag, LiveFile,
};

fn fields(pairs: &[(&str, ArgValue)]) -> Option<Vec<(String, ArgValue)>> {
    Some(pairs.iter().map(|(k, v)| (k.to_string(), v.clone())).collect())
}

fn s(t: &str) -> ArgValue {
    ArgValue::Str(t.to_string())
}

#[test]
fn recall_args_default_scope_all() {
    let a = parse_recall_args(&fields(&[("query", s("milk"))])).unwrap();
    assert_eq!(a.query, "milk");
    assert!(a.scope == Scope::All);
    assert_eq!(a.workflow, None);
    assert_eq!(a.since, None);
}

#[test]
fn recall_args_read_every_field() {
    let a = parse_recall_args(&fields(&[
        ("query", s("x")),
        ("scope", s("briefs")),
        ("workflow", s("  alpha ")),
        ("since", s("2026-09-01")),
    ]))
    .unwrap();
    assert!(a.scope == Scope::Briefs);
    assert_eq!(a.workflow, Some("alpha".to_string()));
    assert_eq!(a.since, Some("2026-09-01".to_string()));
    let b = parse_recall_args(&fields(&[("query", s("x")), ("scope", ArgValue::Null)])).unwrap();
    assert!(b.scope == Scope::All);
}

#[test]
fn recall_args_refusals_name_the_field() {
    let e = parse_recall_args(&fields(&[("query", s("x")), ("path", s("/etc"))])).err().unwrap();
    assert_eq!(
        e,
        "recall refused: unknown field(s) [\"path\"] — the schema allows only: query, scope, workflow, since"
    );
    let e = parse_recall_args(&fields(&[("scope", s("all"))])).err().unwrap();
    assert_eq!(e, "recall refused: missing required field 'query'");
    let e = parse_recall_args(&fields(&[("query", s(""))])).err().unwrap();
    assert!(e.starts_with("recall refused: field 'query' must not be empty"));
    let e = parse_recall_args(&fields(&[("query", s("x")), ("scope", s("wiki"))])).err().unwrap();
    assert_eq!(e, "recall refused: scope must be one of dayfile|signoff|briefs|all (got \"wiki\")");
    let e = parse_recall_args(&fields(&[("query", s("x")), ("since", s("last week"))])).err().unwrap();
    assert_eq!(e, "recall refused: since must be an ISO date YYYY-MM-DD (got \"last week\")");
    let e = parse_recall_args(&fields(&[("query", s("x")), ("workflow", s(" "))])).err().unwrap();
    assert!(e.starts_with("recall refused: field 'workflow' must not be empty"));
    let e = parse_recall_args(&fields(&[("query", ArgValue::Number("3".to_string()))])).err().unwrap();
    assert_eq!(e, "recall refused: field 'query' must be a string (got 3)");
    assert!(parse_recall_args(&None).is_err());
}

#[test]
fn debug_names_renders_like_debug() {
    let v = vec!["a".to_string(), "b\"c".to_string()];
    assert_eq!(debug_names(&v), format!("{:?}", v));
    assert_eq!(debug_names(&Vec::new()), "[]");
}

#[test]
fn workflow_tags_are_found_in_any_field() {
    assert_eq!(
        workflow_tag("Worker signoff (w) | done: yes | WorkFlow:  x:y  | ts: t"),
        Some("x:y".to_string())
    );
    assert_eq!(workflow_tag("workflow: alpha"), Some("alpha".to_string()));
    assert_eq!(workflow_tag("a | workflow:   | b"), None);
    assert_eq!(workflow_tag("no tag here"), None);
    assert_eq!(workflow_tag("x | workflows: a | workflow: b"), Some("b".to_string()));
}

#[test]
fn substring_queries_ignore_case() {
    let q = Query::compile("Milk").unwrap();
    assert!(!q.regex);
    assert_eq!(q.matches("buy MILK today"), Ok(true));
    assert_eq!(q.matches("buy bread"), Ok(false));
}

#[test]
fn regex_queries_use_the_re_prefix() {
    let q = Query::compile("re:fo+ ba[rz]").unwrap();
    assert!(q.regex);
    assert_eq!(q.pattern, "fo+ ba[rz]");
    assert_eq!(q.matches("xx FOOO BAZ"), Ok(true));
    assert_eq!(q.matches("fo bat"), Ok(false));
    assert!(Query::compile("re:   ").is_err());
    assert!(Query::compile("re:a{2").is_err());
}

#[test]
fn recall_query_names_the_refused_pattern() {
    let e = recall_query(&"re:(a".to_string()).err().unwrap();
    assert!(e.starts_with("recall refused: "));
    assert!(e.ends_with(" (query: \"re:(a\")"));
}

fn live() -> Vec<LiveFile> {
    vec![
        LiveFile {
            rel: "signoff.md".to_string(),
            text: "a | workflow: alpha\nb | workflow: beta\n   \nplain a\n".to_string(),
            mtime: 1_789_302_131,
        },
        LiveFile {
            rel: "briefs/w.md".to_string(),
            text: "nothing\n  an apple  ".to_string(),
            mtime: 86_400,
        },
    ]
}

#[test]
fn recall_hits_are_dated_by_their_files() {
    let q = Query::compile("A").unwrap();
    let hits = recall_hits(&live(), &q, &None, &None).unwrap();
    let got: Vec<(String, String, String)> =
        hits.into_iter().map(|h| (h.path, h.ts, h.excerpt)).collect();
    assert_eq!(
        got,
        vec![
            ("signoff.md".to_string(), "2026-09-13T12:22:11Z".to_string(), "a | workflow: alpha".to_string()),
            ("signoff.md".to_string(), "2026-09-13T12:22:11Z".to_string(), "b | workflow: beta".to_string()),
            ("signoff.md".to_string(), "2026-09-13T12:22:11Z".to_string(), "plain a".to_string()),
            ("briefs/w.md".to_string(), "1970-01-02T00:00:00Z".to_string(), "an apple".to_string()),
        ]
    );
}

#[test]
fn recall_hits_filter_by_workflow_and_since() {
    let q = Query::compile("a").unwrap();
    let hits = recall_hits(&live(), &q, &Some("alpha".to_string()), &None).unwrap();
    assert_eq!(hits.len(), 1);
    assert_eq!(hits[0].excerpt, "a | workflow: alpha");
    let hits = recall_hits(&live(), &q, &None, &Some("2026-09-13".to_string())).unwrap();
    assert_eq!(hits.len(), 3);
    let hits = recall_hits(&live(), &q, &None, &Some("2026-09-14".to_string())).unwrap();
    assert!(hits.is_empty());
}

#[test]
fn recall_answers_for_recall() {
    assert_eq!(handlers(), vec!["recall"]);
}
