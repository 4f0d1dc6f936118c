//! The JSON-RPC 2.0 / MCP protocol layer: how a request frame is routed,
//! the protocol revision `initialize` answers with, and the exact text of
//! the response and error frames.
use vstd::prelude::*;

use crate::json::{json_quoted, json_quoted_of};
use crate::text::{padded, push_padded, string_of};

verus! {

/// What the protocol layer reads from a frame that parsed as JSON: whether
/// it is an object, its `method` when that is a string, the JSON text of
/// its `id` member when it has one, `params.name` and
/// `params.protocolVersion` when those are strings.
pub struct FrameView {
    pub object: bool,
    pub method: Option<String>,
    pub id: Option<String>,
    pub tool: Option<String>,
    pub protocol: Option<String>,
}

/// The tools this server registers.
pub open spec fn tool_name(name: Seq<char>) -> bool {
    name == "read_signoff"@ || name == "append_signoff"@ || name == "claim_orchestrator"@ || name
        == "write_dayfile"@ || name == "write_brief"@ || name == "write_warm_start"@ || name
        == "recall"@ || name == "log_tick"@ || name == "last_tick"@ || name
        == "session_compliance"@
}

/// The tools the server registers: the names each tool module answers
/// for, module by module.
pub open spec fn registered_tools() -> Seq<Seq<char>> {
    crate::signoff_read::handler_names() + crate::append::handler_names()
        + crate::claims::handler_names() + crate::briefs::handler_names()
        + crate::warmstart::handler_names() + crate::recall::handler_names()
        + crate::ticks::handler_names() + crate::compliance::handler_names()
}

/// A name is routed to a tool exactly when one of the tool modules answers
/// for it.
pub proof fn lemma_registered_tools(name: Seq<char>)
    ensures
        tool_name(name) <==> registered_tools().contains(name),
{
    let all = registered_tools();
    assert(all =~= seq![
        "read_signoff"@,
        "append_signoff"@,
        "claim_orchestrator"@,
        "write_dayfile"@,
        "write_brief"@,
        "write_warm_start"@,
        "recall"@,
        "log_tick"@,
        "last_tick"@,
        "session_compliance"@,
    ]);
    if tool_name(name) {
        if name == "read_signoff"@ {
            assert(all[0] == name);
        } else if name == "append_signoff"@ {
            assert(all[1] == name);
        } else if name == "claim_orchestrator"@ {
            assert(all[2] == name);
        } else if name == "write_dayfile"@ {
            assert(all[3] == name);
        } else if name == "write_brief"@ {
            assert(all[4] == name);
        } else if name == "write_warm_start"@ {
            assert(all[5] == name);
        } else if name == "recall"@ {
            assert(all[6] == name);
        } else if name == "log_tick"@ {
            assert(all[7] == name);
        } else if name == "last_tick"@ {
            assert(all[8] == name);
        } else {
            assert(all[9] == name);
        }
    }
}

/// Whether `name` is a registered tool.
pub fn is_tool(name: &String) -> (r: bool)
    ensures
        r == tool_name(name@),
        r == registered_tools().contains(name@),
{
    proof {
        lemma_registered_tools(name@);
    }
    let names = [
        "read_signoff",
        "append_signoff",
        "claim_orchestrator",
        "write_dayfile",
        "write_brief",
        "write_warm_start",
        "recall",
        "log_tick",
        "last_tick",
        "session_compliance",
    ];
    proof {
        reveal_strlit("read_signoff");
        reveal_strlit("append_signoff");
        reveal_strlit("claim_orchestrator");
        reveal_strlit("write_dayfile");
        reveal_strlit("write_brief");
        reveal_strlit("write_warm_start");
        reveal_strlit("recall");
        reveal_strlit("log_tick");
        reveal_strlit("last_tick");
        reveal_strlit("session_compliance");
    }
    let mut i: usize = 0;
    while i < 10
        invariant
            i <= 10,
            tool_name(name@) == registered_tools().contains(name@),
            names@ == seq![
                "read_signoff",
                "append_signoff",
                "claim_orchestrator",
                "write_dayfile",
                "write_brief",
                "write_warm_start",
                "recall",
                "log_tick",
                "last_tick",
                "session_compliance",
            ],
            forall|j: int| 0 <= j < i ==> names@[j]@ != name@,
        decreases 10 - i,
    {
        if crate::text::same_text(&String::from_str(names[i]), name) {
            return true;
        }
        i += 1;
    }
    false
}

/// Where a frame goes.
pub enum Route {
    /// A notification (no `id`): nothing is written back.
    Silent,
    /// An error frame, written back as it is.
    Error(String),
    /// `initialize`, answered under the request's `id`.
    Initialize(String),
    /// `tools/list`, answered under the request's `id`.
    ToolsList(String),
    /// `tools/call` of a registered tool: the `id` and the tool's name.
    Call(String, String),
}

/// The JSON text of an error frame: `{"error":{"code":…,"message":…},
/// "id":…,"jsonrpc":"2.0"}`, keys in the order serde_json writes them.
pub open spec fn error_text(id: Seq<char>, code: int, message: Seq<char>) -> Seq<char> {
    "{\"error\":{\"code\":"@ + padded(code, 0) + ",\"message\":"@ + json_quoted_of(message)
        + "},\"id\":"@ + id + ",\"jsonrpc\":\"2.0\"}"@
}

/// [`error_text`].
pub fn error_frame(id: &str, code: i64, message: &str) -> (r: String)
    ensures
        r@ == error_text(id@, code as int, message@),
{
    let mut out: Vec<char> = Vec::new();
    push_padded(&mut out, code, 0);
    let c = string_of(out.as_slice());
    let mut m = String::from_str("{\"error\":{\"code\":");
    m.append(c.as_str());
    m.append(",\"message\":");
    let q = json_quoted(message);
    m.append(q.as_str());
    m.append("},\"id\":");
    m.append(id);
    m.append(",\"jsonrpc\":\"2.0\"}");
    proof {
        reveal_strlit("{\"error\":{\"code\":");
        reveal_strlit(",\"message\":");
        reveal_strlit("},\"id\":");
        reveal_strlit(",\"jsonrpc\":\"2.0\"}");
        assert(m@ =~= error_text(id@, code as int, message@));
    }
    m
}

/// The route of a frame: text that is not JSON is a parse error (`id`
/// null); JSON that is not an object, or has no string `method`, is an
/// invalid request (the `id` echoed when the object has one); a request
/// without an `id` is a notification, answered by nothing, whatever its
/// method; `initialize` and `tools/list` are answered; `tools/call` names a
/// registered tool or is refused as an unknown tool (code -32602, never
/// -32601); any other method is unknown (-32601).
pub open spec fn route_of(frame: Option<FrameView>) -> RouteShape {
    match frame {
        None => RouteShape::Error(error_text("null"@, -32700, "parse error"@)),
        Some(f) => if !f.object {
            RouteShape::Error(error_text("null"@, -32600, "invalid request: not a JSON object"@))
        } else {
            match f.method {
                None => RouteShape::Error(
                    error_text(
                        match f.id {
                            Some(i) => i@,
                            None => "null"@,
                        },
                        -32600,
                        "invalid request: missing or non-string method"@,
                    ),
                ),
                Some(m) => match f.id {
                    None => RouteShape::Silent,
                    Some(id) => if m@ == "initialize"@ {
                        RouteShape::Initialize(id@)
                    } else if m@ == "tools/list"@ {
                        RouteShape::ToolsList(id@)
                    } else if m@ == "tools/call"@ {
                        match f.tool {
                            Some(name) => if tool_name(name@) {
                                RouteShape::Call(id@, name@)
                            } else {
                                RouteShape::Error(
                                    error_text(id@, -32602, "unknown tool name: "@ + name@),
                                )
                            },
                            None => RouteShape::Error(
                                error_text(
                                    id@,
                                    -32602,
                                    "unknown tool name: params.name missing"@,
                                ),
                            ),
                        }
                    } else {
                        RouteShape::Error(error_text(id@, -32601, "unknown method: "@ + m@))
                    },
                },
            }
        },
    }
}

/// A route as values.
pub enum RouteShape {
    Silent,
    Error(Seq<char>),
    Initialize(Seq<char>),
    ToolsList(Seq<char>),
    Call(Seq<char>, Seq<char>),
}

/// A `tools/call` request with an `id` is dispatched to the tool it names
/// exactly when one of the tool modules answers for that name; otherwise it
/// is refused as an unknown tool.
pub proof fn lemma_call_dispatch(f: FrameView)
    requires
        f.object,
        f.method matches Some(m) && m@ == "tools/call"@,
        f.id is Some,
        f.tool is Some,
    ensures
        route_of(Some(f)) == RouteShape::Call(f.id->0@, f.tool->0@) <==> registered_tools().contains(
            f.tool->0@,
        ),
        !registered_tools().contains(f.tool->0@) ==> route_of(Some(f)) == RouteShape::Error(
            error_text(f.id->0@, -32602, "unknown tool name: "@ + f.tool->0@),
        ),
{
    reveal_strlit("initialize");
    reveal_strlit("tools/list");
    reveal_strlit("tools/call");
    let m = f.method->0@;
    assert(m[0] != "initialize"@[0]);
    assert(m != "initialize"@);
    assert(m[6] != "tools/list"@[6]);
    assert(m != "tools/list"@);
    lemma_registered_tools(f.tool->0@);
}

/// What a route says.
pub open spec fn route_view(r: Route) -> RouteShape {
    match r {
        Route::Silent => RouteShape::Silent,
        Route::Error(f) => RouteShape::Error(f@),
        Route::Initialize(i) => RouteShape::Initialize(i@),
        Route::ToolsList(i) => RouteShape::ToolsList(i@),
        Route::Call(i, n) => RouteShape::Call(i@, n@),
    }
}

/// Route one frame (`None`: the frame is not JSON). See [`route_of`].
pub fn route_frame(frame: &Option<FrameView>) -> (r: Route)
    ensures
        route_view(r) == route_of(*frame),
{
    proof {
        reveal_strlit("null");
        reveal_strlit("initialize");
        reveal_strlit("tools/list");
        reveal_strlit("tools/call");
    }
    let f = match frame {
        None => return Route::Error(error_frame("null", -32700, "parse error")),
        Some(f) => f,
    };
    if !f.object {
        return Route::Error(error_frame("null", -32600, "invalid request: not a JSON object"));
    }
    let m = match &f.method {
        None => {
            let id = match &f.id {
                Some(i) => i.clone(),
                None => String::from_str("null"),
            };
            return Route::Error(
                error_frame(id.as_str(), -32600, "invalid request: missing or non-string method"),
            );
        },
        Some(m) => m,
    };
    let id = match &f.id {
        None => return Route::Silent,
        Some(i) => i,
    };
    if crate::text::same_text(m, &String::from_str("initialize")) {
        return Route::Initialize(id.clone());
    }
    if crate::text::same_text(m, &String::from_str("tools/list")) {
        return Route::ToolsList(id.clone());
    }
    if crate::text::same_text(m, &String::from_str("tools/call")) {
        return match &f.tool {
            Some(name) => {
                if is_tool(name) {
                    Route::Call(id.clone(), name.clone())
                } else {
                    let mut msg = String::from_str("unknown tool name: ");
                    msg.append(name.as_str());
                    proof {
                        reveal_strlit("unknown tool name: ");
                    }
                    Route::Error(error_frame(id.as_str(), -32602, msg.as_str()))
                }
            },
            None => Route::Error(
                error_frame(id.as_str(), -32602, "unknown tool name: params.name missing"),
            ),
        };
    }
    let mut msg = String::from_str("unknown method: ");
    msg.append(m.as_str());
    proof {
        reveal_strlit("unknown method: ");
    }
    Route::Error(error_frame(id.as_str(), -32601, msg.as_str()))
}

/// The JSON text of a result frame: `{"id":…,"jsonrpc":"2.0","result":…}`.
pub open spec fn result_text(id: Seq<char>, result: Seq<char>) -> Seq<char> {
    "{\"id\":"@ + id + ",\"jsonrpc\":\"2.0\",\"result\":"@ + result + "}"@
}

/// [`result_text`].
pub fn result_frame(id: &str, result: &str) -> (r: String)
    ensures
        r@ == result_text(id@, result@),
{
    let mut m = String::from_str("{\"id\":");
    m.append(id);
    m.append(",\"jsonrpc\":\"2.0\",\"result\":");
    m.append(result);
    m.append("}");
    proof {
        reveal_strlit("{\"id\":");
        reveal_strlit(",\"jsonrpc\":\"2.0\",\"result\":");
        reveal_strlit("}");
        assert(m@ =~= result_text(id@, result@));
    }
    m
}

/// The `tools/call` result carrying a tool's answer as one text item:
/// `{"content":[{"text":…,"type":"text"}]}`, with `"isError":true` added
/// for a refusal.
pub open spec fn call_result_text(text: Seq<char>, is_error: bool) -> Seq<char> {
    "{\"content\":[{\"text\":"@ + json_quoted_of(text) + ",\"type\":\"text\"}]"@ + (if is_error {
        ",\"isError\":true"@
    } else {
        Seq::empty()
    }) + "}"@
}

/// [`call_result_text`].
pub fn call_result(text: &str, is_error: bool) -> (r: String)
    ensures
        r@ == call_result_text(text@, is_error),
{
    let mut m = String::from_str("{\"content\":[{\"text\":");
    let q = json_quoted(text);
    m.append(q.as_str());
    m.append(",\"type\":\"text\"}]");
    if is_error {
        m.append(",\"isError\":true");
    }
    m.append("}");
    proof {
        reveal_strlit("{\"content\":[{\"text\":");
        reveal_strlit(",\"type\":\"text\"}]");
        reveal_strlit(",\"isError\":true");
        reveal_strlit("}");
        assert(m@ =~= call_result_text(text@, is_error));
    }
    m
}

/// The current protocol revision.
pub open spec fn current_protocol() -> Seq<char> {
    "2026-07-28"@
}

/// The earlier revision the server also implements.
pub open spec fn previous_protocol() -> Seq<char> {
    "2025-11-25"@
}

/// The revision `initialize` answers with: the requested one when the
/// server implements it, the current one otherwise.
pub open spec fn negotiated(requested: Option<Seq<char>>) -> Seq<char> {
    match requested {
        Some(r) => if r == current_protocol() || r == previous_protocol() {
            r
        } else {
            current_protocol()
        },
        None => current_protocol(),
    }
}

/// [`negotiated`].
pub fn negotiate_protocol(requested: &Option<String>) -> (r: String)
    ensures
        r@ == negotiated(
            match requested {
                Some(s) => Some(s@),
                None => None,
            },
        ),
{
    proof {
        reveal_strlit("2026-07-28");
        reveal_strlit("2025-11-25");
    }
    let cur = String::from_str("2026-07-28");
    let prev = String::from_str("2025-11-25");
    match requested {
        Some(r) => {
            if crate::text::same_text(r, &cur) || crate::text::same_text(r, &prev) {
                r.clone()
            } else {
                cur
            }
        },
        None => cur,
    }
}

/// The memory-protocol text the server hands its client at `initialize`.
pub open spec fn instructions_text() -> Seq<char> {
    "## Memory protocol (MCP: totalrecall)\n- First action of every session: mcp__totalrecall_read_signoff. No work before it returns.\n- Last action before any stop/compact/handoff: mcp__totalrecall_append_signoff {role, workflow, done, unpushed, awaits_human, still_running, kaibo_review}.\n- Facts come from mcp__totalrecall_recall results (dated) or files — never from your context memory.\n- The server refuses every append path (including log_tick) without the read handshake. If refused, call read_signoff, then retry. Never write memory-root state except through this server's tools.\n"@
}

/// [`instructions_text`].
pub fn server_instructions() -> (r: &'static str)
    ensures
        r@ == instructions_text(),
{
    "## Memory protocol (MCP: totalrecall)\n- First action of every session: mcp__totalrecall_read_signoff. No work before it returns.\n- Last action before any stop/compact/handoff: mcp__totalrecall_append_signoff {role, workflow, done, unpushed, awaits_human, still_running, kaibo_review}.\n- Facts come from mcp__totalrecall_recall results (dated) or files — never from your context memory.\n- The server refuses every append path (including log_tick) without the read handshake. If refused, call read_signoff, then retry. Never write memory-root state except through this server's tools.\n"
}

/// The `initialize` result for the requested revision:
/// `{"capabilities":{"tools":{"listChanged":false}},"instructions":…,
/// "protocolVersion":…,"serverInfo":{"name":"totalrecall","version":"0.3.0"}}`.
pub open spec fn initialize_text(requested: Option<Seq<char>>, instructions: Seq<char>) -> Seq<char> {
    "{\"capabilities\":{\"tools\":{\"listChanged\":false}},\"instructions\":"@ + json_quoted_of(
        instructions,
    ) + ",\"protocolVersion\":"@ + json_quoted_of(negotiated(requested))
        + ",\"serverInfo\":{\"name\":\"totalrecall\",\"version\":\"0.3.0\"}}"@
}

/// [`initialize_text`] with [`server_instructions`].
pub fn initialize_result(requested: &Option<String>) -> (r: String)
    ensures
        r@ == initialize_text(
            match requested {
                Some(s) => Some(s@),
                None => None,
            },
            instructions_text(),
        ),
{
    let v = negotiate_protocol(requested);
    let mut m = String::from_str(
        "{\"capabilities\":{\"tools\":{\"listChanged\":false}},\"instructions\":",
    );
    let i = json_quoted(server_instructions());
    m.append(i.as_str());
    m.append(",\"protocolVersion\":");
    let p = json_quoted(v.as_str());
    m.append(p.as_str());
    m.append(",\"serverInfo\":{\"name\":\"totalrecall\",\"version\":\"0.3.0\"}}");
    proof {
        reveal_strlit("{\"capabilities\":{\"tools\":{\"listChanged\":false}},\"instructions\":");
        reveal_strlit(",\"protocolVersion\":");
        reveal_strlit(",\"serverInfo\":{\"name\":\"totalrecall\",\"version\":\"0.3.0\"}}");
        assert(m@ =~= initialize_text(
            match requested {
                Some(s) => Some(s@),
                None => None,
            },
            instructions_text(),
        ));
    }
    m
}

} // verus!
