use serde_json::Value;
use totalrecall::rpc::{
    call_result, error_frame, initialize_result, negotiate_protocol, result_frame, route_frame,
    FrameView, Route,
};

fn frame(method: Option<&str>, id: Option<&str>, tool: Option<&str>) -> Option<FrameView> {
    Some(FrameView {
        object: true,
        method: method.map(str::to_string),
        id: id.map(str::to_string),
        tool: tool.map(str::to_string),
        protocol: None,
    })
}

fn obj(pairs: Vec<(&str, Value)>) -> Value {
    let mut m = serde_json::Map::new();
    for (k, v) in pairs {
        m.insert(k.to_string(), v);
    }
    Value::Object(m)
}

fn text_item(t: &str) -> Value {
    Value::Array(vec![obj(vec![("type", Value::from("text")), ("text", Value::from(t))])])
}

fn error_of(r: Route) -> String {
    match r {
        Route::Error(f) => f,
        _ => panic!("expected an error frame"),
    }
}

#[test]
fn error_frames_match_serde_json() {
    let ours = error_frame("7", -32601, "unknown method: x\"y");
    let theirs = obj(vec![
        ("jsonrpc", Value::from("2.0")),
        ("id", Value::from(7)),
        (
            "error",
            obj(vec![("code", Value::from(-32601)), ("message", Value::from("unknown method: x\"y"))]),
        ),
    ])
    .to_string();
    assert_eq!(ours, theirs);
}

#[test]
fn malformed_frames_are_parse_errors() {
    assert_eq!(
        error_of(route_frame(&None)),
        "{\"error\":{\"code\":-32700,\"message\":\"parse error\"},\"id\":null,\"jsonrpc\":\"2.0\"}"
    );
}

#[test]
fn invalid_requests_echo_the_id_when_they_have_one() {
    let not_object = Some(FrameView { object: false, method: None, id: None, tool: None, protocol: None });
    assert!(error_of(route_frame(&not_object)).contains("\"code\":-32600"));
    let no_method = error_of(route_frame(&frame(None, Some("\"a\""), None)));
    assert_eq!(
        no_method,
        "{\"error\":{\"code\":-32600,\"message\":\"invalid request: missing or non-string method\"},\"id\":\"a\",\"jsonrpc\":\"2.0\"}"
    );
}

#[test]
fn notifications_get_no_answer() {
    assert!(matches!(route_frame(&frame(Some("tools/call"), None, Some("nope"))), Route::Silent));
    assert!(matches!(route_frame(&frame(Some("whatever"), None, None)), Route::Silent));
}

#[test]
fn methods_route_to_their_handlers() {
    assert!(matches!(route_frame(&frame(Some("initialize"), Some("1"), None)), Route::Initialize(ref i) if i == "1"));
    assert!(matches!(route_frame(&frame(Some("tools/list"), Some("2"), None)), Route::ToolsList(ref i) if i == "2"));
    match route_frame(&frame(Some("tools/call"), Some("3"), Some("recall"))) {
        Route::Call(id, name) => assert_eq!((id.as_str(), name.as_str()), ("3", "recall")),
        _ => panic!("a registered tool is called"),
    }
    assert!(error_of(route_frame(&frame(Some("tools/call"), Some("3"), Some("rm")))).contains("\"code\":-32602,\"message\":\"unknown tool name: rm\""));
    assert!(error_of(route_frame(&frame(Some("tools/call"), Some("3"), None))).contains("params.name missing"));
    assert!(error_of(route_frame(&frame(Some("ping"), Some("4"), None))).contains("\"code\":-32601,\"message\":\"unknown method: ping\""));
}

#[test]
fn results_and_envelopes_match_serde_json() {
    assert_eq!(
        result_frame("1", "{\"a\":1}"),
        obj(vec![
            ("jsonrpc", Value::from("2.0")),
            ("id", Value::from(1)),
            ("result", obj(vec![("a", Value::from(1))])),
        ])
        .to_string()
    );
    assert_eq!(
        call_result("{\"x\":true}", false),
        obj(vec![("content", text_item("{\"x\":true}"))]).to_string()
    );
    assert_eq!(
        call_result("refused", true),
        obj(vec![("isError", Value::from(true)), ("content", text_item("refused"))]).to_string()
    );
}

#[test]
fn protocol_negotiation_echoes_known_revisions() {
    assert_eq!(negotiate_protocol(&Some("2025-11-25".to_string())), "2025-11-25");
    assert_eq!(negotiate_protocol(&Some("2026-07-28".to_string())), "2026-07-28");
    assert_eq!(negotiate_protocol(&Some("1999-01-01".to_string())), "2026-07-28");
    assert_eq!(negotiate_protocol(&None), "2026-07-28");
    let init: serde_json::Value = serde_json::from_str(&initialize_result(&None)).unwrap();
    assert_eq!(init["protocolVersion"], "2026-07-28");
    assert_eq!(init["serverInfo"]["name"], "totalrecall");
    assert_eq!(init["capabilities"]["tools"]["listChanged"], false);
    assert!(init["instructions"].as_str().unwrap().starts_with("## Memory protocol (MCP: totalrecall)\n"));
}
