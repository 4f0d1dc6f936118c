//! The `recall` tool: its arguments, the server-stamped workflow tag a line
//! may carry, and the verification of candidate files against their live
//! bytes — every hit dated by its file's modification time.
use vstd::prelude::*;

use crate::args::{
    args_view, get_arg, lookup, not_string_refusal, not_string_text, unknown_fields, unknown_keys,
    unknown_list_refusal, unknown_list_text, ArgValue,
};
use crate::calendar::{iso8601_text, iso_date, is_iso_date, utc_iso8601};
use crate::index::{
    all_space, exact_query, query_refusal, lines_split, query_hit, re_prefix, split_lines, str_lowercase_of, Query,
    Scope,
};
use crate::pattern::{accepts, alt_nodes};
use crate::pattern::{debug_str_of, debug_text};
use crate::signoff::str_arg;
use crate::strings::{copy_range, find, find_at, split_on, starts_with, trim, trim_bounds};
use crate::text::{chars_of, string_of, text_less, text_less_exec};

verus! {

/// The fields the `recall` schema allows.
pub open spec fn recall_keys() -> Seq<Seq<char>> {
    seq!["query"@, "scope"@, "workflow"@, "since"@]
}

/// An optional argument that is absent or `null`.
pub open spec fn unset(v: Option<ArgValue>) -> bool {
    v is None || v == Some(ArgValue::Null)
}

/// The bucket a `scope` argument names; `None` when it names none.
pub open spec fn scope_arg(v: Option<ArgValue>) -> Option<Scope> {
    if unset(v) {
        Some(Scope::All)
    } else {
        match v {
            Some(ArgValue::Str(s)) => if s@ == "dayfile"@ {
                Some(Scope::Dayfile)
            } else if s@ == "signoff"@ {
                Some(Scope::Signoff)
            } else if s@ == "briefs"@ {
                Some(Scope::Briefs)
            } else if s@ == "all"@ {
                Some(Scope::All)
            } else {
                None
            },
            _ => None,
        }
    }
}

/// The workflow filter a `workflow` argument sets (`Some(None)`: no
/// filter); `None` when the argument is refused.
pub open spec fn workflow_arg(v: Option<ArgValue>) -> Option<Option<Seq<char>>> {
    if unset(v) {
        Some(None)
    } else {
        match v {
            Some(ArgValue::Str(s)) => if trim(s@).len() > 0 {
                Some(Some(trim(s@)))
            } else {
                None
            },
            _ => None,
        }
    }
}

/// The date bound a `since` argument sets (`Some(None)`: no bound);
/// `None` when the argument is refused.
pub open spec fn since_arg(v: Option<ArgValue>) -> Option<Option<Seq<char>>> {
    if unset(v) {
        Some(None)
    } else {
        match v {
            Some(ArgValue::Str(s)) => if iso_date(s@) {
                Some(Some(s@))
            } else {
                None
            },
            _ => None,
        }
    }
}

/// The arguments `recall` accepts: a JSON object with no field outside
/// the schema, a non-empty string `query`, a known `scope`, a workflow
/// filter with something besides whitespace, and an ISO `since` date.
pub open spec fn recall_args_ok(fields: Seq<(String, ArgValue)>) -> bool {
    &&& unknown_keys(fields, recall_keys(), fields.len() as int).len() == 0
    &&& str_arg(lookup(fields, "query"@)) matches Some(q) && q.len() > 0
    &&& scope_arg(lookup(fields, "scope"@)) is Some
    &&& workflow_arg(lookup(fields, "workflow"@)) is Some
    &&& since_arg(lookup(fields, "since"@)) is Some
}

/// The validated arguments of a `recall` call.
pub struct RecallArgs {
    pub query: String,
    pub scope: Scope,
    pub workflow: Option<String>,
    pub since: Option<String>,
}

/// The text of an optional string.
pub open spec fn opt_view(o: Option<String>) -> Option<Seq<char>> {
    match o {
        Some(s) => Some(s@),
        None => None,
    }
}

/// Whether an argument is absent or `null`.
fn is_unset(v: Option<&ArgValue>) -> (r: bool)
    ensures
        r == unset(
            match v {
                Some(x) => Some(*x),
                None => None,
            },
        ),
{
    match v {
        None => true,
        Some(ArgValue::Null) => true,
        Some(_) => false,
    }
}

/// What `recall` answers arguments it refuses, in the order it checks
/// them: not an object; the unknown fields; the query missing, not a
/// string, or empty; then the scope, the workflow filter and the date
/// bound, each refused with what it was given.
pub open spec fn recall_refusal(args: Option<Seq<(String, ArgValue)>>) -> Seq<char> {
    match args {
        None => "recall refused: arguments must be a JSON object ({\"query\": …})"@,
        Some(f) => {
            let u = unknown_keys(f, recall_keys(), f.len() as int);
            let (q, sc, w, d) = (
                lookup(f, "query"@),
                lookup(f, "scope"@),
                lookup(f, "workflow"@),
                lookup(f, "since"@),
            );
            if u.len() > 0 {
                unknown_list_text("recall"@, u, "query, scope, workflow, since"@)
            } else if q is None {
                "recall refused: missing required field 'query'"@
            } else if !(q->0 is Str) {
                not_string_text("recall"@, "query"@, q->0)
            } else if str_arg(q) == Some(Seq::<char>::empty()) {
                "recall refused: field 'query' must not be empty — a search with no terms is a bucket dump, which is not what recall is for"@
            } else if scope_arg(sc) is None {
                match sc->0 {
                    ArgValue::Str(t) => "recall refused: scope must be one of dayfile|signoff|briefs|all (got "@
                        + debug_str_of(t@) + ")"@,
                    other => not_string_text("recall"@, "scope"@, other),
                }
            } else if workflow_arg(w) is None {
                match w->0 {
                    ArgValue::Str(_) => "recall refused: field 'workflow' must not be empty — it is a filter, not a wildcard"@,
                    other => not_string_text("recall"@, "workflow"@, other),
                }
            } else {
                match d->0 {
                    ArgValue::Str(t) => "recall refused: since must be an ISO date YYYY-MM-DD (got "@
                        + debug_str_of(t@) + ")"@,
                    other => not_string_text("recall"@, "since"@, other),
                }
            }
        },
    }
}

/// Validate `recall`'s arguments (see [`recall_args_ok`]). Every refusal
/// names the field and the shape it wanted.
pub fn parse_recall_args(args: &Option<Vec<(String, ArgValue)>>) -> (r: Result<RecallArgs, String>)
    ensures
        (r is Ok) == (args matches Some(f) && recall_args_ok(f@)),
        r matches Ok(a) ==> args matches Some(f) && Some(a.query@) == str_arg(
            lookup(f@, "query"@),
        ) && Some(a.scope) == scope_arg(lookup(f@, "scope"@)) && Some(opt_view(a.workflow))
            == workflow_arg(lookup(f@, "workflow"@)) && Some(opt_view(a.since)) == since_arg(
            lookup(f@, "since"@),
        ),
        r matches Err(m) ==> m@ == recall_refusal(args_view(*args)),
{
    let fields = match args {
        Some(f) => f,
        None => {
            return Err(
                String::from_str(
                    "recall refused: arguments must be a JSON object ({\"query\": …})",
                ),
            )
        },
    };
    proof {
        reveal_strlit("query");
        reveal_strlit("scope");
        reveal_strlit("workflow");
        reveal_strlit("since");
        reveal_strlit("dayfile");
        reveal_strlit("signoff");
        reveal_strlit("briefs");
        reveal_strlit("all");
    }
    let allowed = vec![
        String::from_str("query"),
        String::from_str("scope"),
        String::from_str("workflow"),
        String::from_str("since"),
    ];
    let unknown = unknown_fields(fields, &allowed);
    proof {
        assert(allowed@.map_values(|s: String| s@) =~= recall_keys());
    }
    if unknown.len() > 0 {
        return Err(unknown_list_refusal("recall", &unknown, "query, scope, workflow, since"));
    }
    let query = match get_arg(fields, "query") {
        None => return Err(String::from_str("recall refused: missing required field 'query'")),
        Some(ArgValue::Str(t)) => {
            if t.as_str().is_empty() {
                assert(t@ =~= Seq::<char>::empty());
                return Err(
                    String::from_str(
                        "recall refused: field 'query' must not be empty — a search with no terms is a bucket dump, which is not what recall is for",
                    ),
                );
            }
            t.clone()
        },
        Some(other) => return Err(not_string_refusal("recall", "query", other)),
    };
    let sv = get_arg(fields, "scope");
    let scope = if is_unset(sv) {
        Scope::All
    } else {
        match sv {
            Some(ArgValue::Str(t)) => {
                if crate::text::same_text(t, &String::from_str("dayfile")) {
                    Scope::Dayfile
                } else if crate::text::same_text(t, &String::from_str("signoff")) {
                    Scope::Signoff
                } else if crate::text::same_text(t, &String::from_str("briefs")) {
                    Scope::Briefs
                } else if crate::text::same_text(t, &String::from_str("all")) {
                    Scope::All
                } else {
                    let mut m = String::from_str(
                        "recall refused: scope must be one of dayfile|signoff|briefs|all (got ",
                    );
                    let q = debug_text(t.as_str());
                    m.append(q.as_str());
                    m.append(")");
                    return Err(m);
                }
            },
            Some(other) => return Err(not_string_refusal("recall", "scope", other)),
            None => Scope::All,
        }
    };
    let wv = get_arg(fields, "workflow");
    let workflow = if is_unset(wv) {
        None
    } else {
        match wv {
            Some(ArgValue::Str(t)) => {
                let w = crate::strings::trimmed(t.as_str());
                if w.as_str().is_empty() {
                    return Err(
                        String::from_str(
                            "recall refused: field 'workflow' must not be empty — it is a filter, not a wildcard",
                        ),
                    );
                }
                Some(w)
            },
            Some(other) => return Err(not_string_refusal("recall", "workflow", other)),
            None => None,
        }
    };
    let dv = get_arg(fields, "since");
    let since = if is_unset(dv) {
        None
    } else {
        match dv {
            Some(ArgValue::Str(t)) => {
                if !is_iso_date(t.as_str()) {
                    let mut m = String::from_str(
                        "recall refused: since must be an ISO date YYYY-MM-DD (got ",
                    );
                    let q = debug_text(t.as_str());
                    m.append(q.as_str());
                    m.append(")");
                    return Err(m);
                }
                Some(t.clone())
            },
            Some(other) => return Err(not_string_refusal("recall", "since", other)),
            None => None,
        }
    };
    Ok(RecallArgs { query, scope, workflow, since })
}

/// Compile the query of a `recall` call; a refused pattern names itself.
pub fn recall_query(query: &String) -> (r: Result<Query, String>)
    ensures
        starts_with(query@, re_prefix()) ==> {
            let pat = query@.subrange(3, query@.len() as int);
            &&& (r is Ok) == (!all_space(pat) && accepts(pat))
            &&& (r matches Ok(q) ==> q.raw@ == query@ && q.regex && q.pattern@ == pat
                && q.needle@ == Seq::<char>::empty() && alt_nodes(pat, 0, q.program@))
        },
        !starts_with(query@, re_prefix()) ==> (r matches Ok(q) && q.raw@ == query@ && !q.regex
            && q.pattern@ == query@ && q.needle@ == str_lowercase_of(query@) && q.program@.len()
            == 0),
        r matches Err(m) ==> m@ == "recall refused: "@ + query_refusal(query@) + " (query: "@
            + debug_str_of(query@) + ")"@,
{
    match Query::compile(query.as_str()) {
        Ok(q) => Ok(q),
        Err(e) => {
            let mut m = String::from_str("recall refused: ");
            m.append(e.as_str());
            m.append(" (query: ");
            let d = debug_text(query.as_str());
            m.append(d.as_str());
            m.append(")");
            Err(m)
        },
    }
}

/// `char::to_ascii_lowercase`.
pub open spec fn ascii_lower(c: char) -> char {
    if 'A' <= c && c <= 'Z' {
        ((c as u8) + 32) as char
    } else {
        c
    }
}

/// `str::eq_ignore_ascii_case`.
pub open spec fn eq_ignore_ascii_case(a: Seq<char>, b: Seq<char>) -> bool {
    a.len() == b.len() && forall|i: int| 0 <= i < a.len() ==> ascii_lower(a[i]) == ascii_lower(b[i])
}

/// The workflow a `|`-separated field names: the trimmed field split at
/// its first `:`, the key `workflow` in any ASCII case and the trimmed
/// value not empty.
pub open spec fn field_tag(f: Seq<char>) -> Option<Seq<char>> {
    let t = trim(f);
    let k = find(t, ':');
    if k >= t.len() {
        None
    } else {
        let key = trim(t.subrange(0, k));
        let val = trim(t.subrange(k + 1, t.len() as int));
        if eq_ignore_ascii_case(key, "workflow"@) && val.len() > 0 {
            Some(val)
        } else {
            None
        }
    }
}

/// The first field, left to right, that names a workflow.
pub open spec fn first_tag(fields: Seq<Seq<char>>) -> Option<Seq<char>>
    decreases fields.len(),
{
    if fields.len() == 0 {
        None
    } else {
        match field_tag(fields[0]) {
            Some(v) => Some(v),
            None => first_tag(fields.drop_first()),
        }
    }
}

/// The server-stamped workflow tag a line carries, if any: its first
/// `|`-separated field of the form `workflow: <value>`.
pub open spec fn workflow_tag_of(line: Seq<char>) -> Option<Seq<char>> {
    first_tag(split_on(line, '|'))
}

/// [`ascii_lower`].
fn to_ascii_lower(c: char) -> (r: char)
    ensures
        r == ascii_lower(c),
{
    if 'A' <= c && c <= 'Z' {
        ((c as u8) + 32) as char
    } else {
        c
    }
}

/// Whether `v[lo..hi]` equals `w` ignoring ASCII case.
fn ci_equal_at(v: &Vec<char>, lo: usize, hi: usize, w: &Vec<char>) -> (r: bool)
    requires
        lo <= hi <= v@.len(),
    ensures
        r == eq_ignore_ascii_case(v@.subrange(lo as int, hi as int), w@),
{
    if hi - lo != w.len() {
        return false;
    }
    let mut i: usize = 0;
    while i < w.len()
        invariant
            hi - lo == w@.len(),
            lo <= hi <= v@.len(),
            i <= w@.len(),
            forall|j: int|
                0 <= j < i ==> ascii_lower(#[trigger] v@.subrange(lo as int, hi as int)[j])
                    == ascii_lower(w@[j]),
        decreases w.len() - i,
    {
        if to_ascii_lower(v[lo + i]) != to_ascii_lower(w[i]) {
            assert(v@.subrange(lo as int, hi as int)[i as int] == v@[lo + i]);
            return false;
        }
        assert(v@.subrange(lo as int, hi as int)[i as int] == v@[lo + i]);
        i += 1;
    }
    true
}

/// [`field_tag`] of the field `v[lo..hi]`.
fn field_tag_at(v: &Vec<char>, lo: usize, hi: usize) -> (r: Option<String>)
    requires
        lo <= hi <= v@.len(),
    ensures
        opt_view(r) == field_tag(v@.subrange(lo as int, hi as int)),
{
    let ghost f = v@.subrange(lo as int, hi as int);
    let (a, b) = trim_bounds(v, lo, hi);
    let ghost t = v@.subrange(a as int, b as int);
    let k = find_at(v, a, b, ':');
    proof {
        crate::strings::lemma_find(t, ':');
    }
    if k >= b - a {
        return None;
    }
    let (ka, kb) = trim_bounds(v, a, a + k);
    let (va, vb) = trim_bounds(v, a + k + 1, b);
    proof {
        assert(t.subrange(0, k as int) =~= v@.subrange(a as int, a + k));
        assert(t.subrange(k + 1, t.len() as int) =~= v@.subrange(a + k + 1, b as int));
        reveal_strlit("workflow");
    }
    let w = chars_of("workflow");
    if vb > va && ci_equal_at(v, ka, kb, &w) {
        let out = copy_range(v, va, vb);
        Some(string_of(out.as_slice()))
    } else {
        None
    }
}

/// The workflow tag `line` carries (see [`workflow_tag_of`]).
pub fn workflow_tag(line: &str) -> (r: Option<String>)
    ensures
        opt_view(r) == workflow_tag_of(line@),
{
    let v = chars_of(line);
    let n = v.len();
    let mut pos: usize = 0;
    assert(v@.subrange(0, n as int) =~= v@);
    loop
        invariant
            pos <= n,
            n == v@.len(),
            v@ == line@,
            workflow_tag_of(line@) == first_tag(split_on(v@.subrange(pos as int, n as int), '|')),
        decreases n - pos,
    {
        let ghost s = v@.subrange(pos as int, n as int);
        let k = find_at(&v, pos, n, '|');
        proof {
            crate::strings::lemma_find(s, '|');
            assert(s.subrange(0, k as int) =~= v@.subrange(pos as int, pos + k));
        }
        let tag = field_tag_at(&v, pos, pos + k);
        if k >= n - pos {
            proof {
                assert(split_on(s, '|') == seq![s]);
                assert(seq![s].drop_first() =~= Seq::<Seq<char>>::empty());
                assert(s.subrange(0, k as int) =~= s);
                assert(first_tag(Seq::<Seq<char>>::empty()) is None);
                assert(first_tag(seq![s]) == field_tag(s));
            }
            return tag;
        }
        proof {
            let rest = s.subrange(k + 1, s.len() as int);
            assert(rest =~= v@.subrange(pos + k + 1, n as int));
            assert(split_on(s, '|') == seq![s.subrange(0, k as int)] + split_on(rest, '|'));
            assert((seq![s.subrange(0, k as int)] + split_on(rest, '|')).drop_first() =~= split_on(
                rest,
                '|',
            ));
        }
        if tag.is_some() {
            return tag;
        }
        pos = pos + k + 1;
    }
}

/// A candidate file read back from disk: its root-relative path, its live
/// text, and its live modification time in seconds after the Unix epoch.
pub struct LiveFile {
    pub rel: String,
    pub text: String,
    pub mtime: i64,
}

/// One result: the file's path, its modification time as UTC ISO-8601Z,
/// and the trimmed matching line.
pub struct Hit {
    pub path: String,
    pub ts: String,
    pub excerpt: String,
}

/// What a result says.
pub open spec fn hit_view(h: Hit) -> (Seq<char>, Seq<char>, Seq<char>) {
    (h.path@, h.ts@, h.excerpt@)
}

/// Whether a line is served: it matches, it is not blank, and under a
/// workflow filter it carries that very tag.
pub open spec fn line_kept(q: Query, line: Seq<char>, wf: Option<Seq<char>>) -> bool {
    &&& query_hit(q, line)
    &&& trim(line).len() > 0
    &&& wf matches Some(w) ==> workflow_tag_of(line) == Some(w)
}

/// The excerpts of the first `n` lines that are served, in order.
pub open spec fn kept_excerpts(q: Query, lines: Seq<Seq<char>>, wf: Option<Seq<char>>, n: int) -> Seq<
    Seq<char>,
>
    decreases n,
{
    if n <= 0 {
        Seq::empty()
    } else {
        let prev = kept_excerpts(q, lines, wf, n - 1);
        if line_kept(q, lines[n - 1], wf) {
            prev.push(trim(lines[n - 1]))
        } else {
            prev
        }
    }
}

/// Whether a stamp's date is no earlier than the `since` bound.
pub open spec fn date_ok(ts: Seq<char>, since: Option<Seq<char>>) -> bool {
    match since {
        None => true,
        Some(b) => !text_less(ts.subrange(0, 10), b),
    }
}

/// The results one live file yields.
pub open spec fn file_hits(
    f: LiveFile,
    q: Query,
    wf: Option<Seq<char>>,
    since: Option<Seq<char>>,
) -> Seq<(Seq<char>, Seq<char>, Seq<char>)> {
    let ts = iso8601_text(f.mtime as int);
    if !date_ok(ts, since) {
        Seq::empty()
    } else {
        let ls = lines_split(f.text@);
        kept_excerpts(q, ls, wf, ls.len() as int).map_values(
            |e: Seq<char>| (f.rel@, ts, e),
        )
    }
}

/// The results of the first `m` files, file by file.
pub open spec fn all_hits(
    files: Seq<LiveFile>,
    q: Query,
    wf: Option<Seq<char>>,
    since: Option<Seq<char>>,
    m: int,
) -> Seq<(Seq<char>, Seq<char>, Seq<char>)>
    decreases m,
{
    if m <= 0 {
        Seq::empty()
    } else {
        all_hits(files, q, wf, since, m - 1) + file_hits(files[m - 1], q, wf, since)
    }
}

/// What `recall` answers when a line is too much for the regex engine's
/// search budget.
pub open spec fn budget_refusal(pattern: Seq<char>) -> Seq<char> {
    "recall refused: "@ + "regex "@ + debug_str_of(pattern)
        + " is too complex to finish searching this line within the search budget — refusing to answer from a search it could not complete"@
}

/// The results of one live file (see [`file_hits`]).
fn live_file_hits(
    f: &LiveFile,
    query: &Query,
    workflow: &Option<String>,
    since: &Option<String>,
    out: &mut Vec<Hit>,
) -> (r: Result<(), String>)
    requires
        0 <= f.mtime <= 9_000_000_000_000_000,
    ensures
        exact_query(*query) && r is Ok ==> final(out)@.map_values(|h: Hit| hit_view(h)) == old(
            out,
        )@.map_values(|h: Hit| hit_view(h)) + file_hits(
            *f,
            *query,
            opt_view(*workflow),
            opt_view(*since),
        ),
        r matches Err(m) ==> query.regex && m@ == budget_refusal(query.pattern@),
{
    let ts = utc_iso8601(f.mtime);
    let ghost wf = opt_view(*workflow);
    proof {
        crate::text::lemma_padded_len(crate::calendar::civil_of(
            crate::calendar::tdiv(f.mtime as int, 86400),
        ).0, 4);
    }
    let tv = chars_of(ts.as_str());
    match since {
        Some(b) => {
            let day = string_of(&tv.as_slice()[0..10]);
            if text_less_exec(&day, b) {
                proof {
                    assert(day@ =~= ts@.subrange(0, 10));
                }
                return Ok(());
            }
            proof {
                assert(day@ =~= ts@.subrange(0, 10));
            }
        },
        None => {},
    }
    let lines = split_lines(f.text.as_str());
    let ghost ls = lines@.map_values(|l: String| l@);
    let ghost before = out@.map_values(|h: Hit| hit_view(h));
    let mut i: usize = 0;
    while i < lines.len()
        invariant
            i <= lines@.len(),
            ls == lines@.map_values(|l: String| l@),
            ls == lines_split(f.text@),
            ts@ == iso8601_text(f.mtime as int),
            date_ok(ts@, opt_view(*since)),
            wf == opt_view(*workflow),
            exact_query(*query) ==> out@.map_values(|h: Hit| hit_view(h)) == before
                + kept_excerpts(*query, ls, wf, i as int).map_values(
                |e: Seq<char>| (f.rel@, ts@, e),
            ),
        decreases lines.len() - i,
    {
        let line = &lines[i];
        assert(ls[i as int] == line@);
        let ghost prev_out = out@.map_values(|h: Hit| hit_view(h));
        let matched = match query.matches(line.as_str()) {
            Ok(b) => b,
            Err(e) => {
                let mut m = String::from_str("recall refused: ");
                m.append(e.as_str());
                return Err(m);
            },
        };
        let mut keep = matched;
        let excerpt = crate::strings::trimmed(line.as_str());
        if keep && excerpt.as_str().is_empty() {
            keep = false;
        }
        if keep {
            match workflow {
                Some(w) => {
                    match workflow_tag(line.as_str()) {
                        Some(tag) => {
                            if !crate::text::same_text(&tag, w) {
                                keep = false;
                            }
                        },
                        None => {
                            keep = false;
                        },
                    }
                },
                None => {},
            }
        }
        proof {
            if exact_query(*query) {
                assert(keep == line_kept(*query, ls[i as int], wf));
            }
        }
        if keep {
            out.push(Hit { path: f.rel.clone(), ts: ts.clone(), excerpt });
            proof {
                assert(out@.map_values(|h: Hit| hit_view(h)) =~= prev_out.push(
                    hit_view(out@.last()),
                ));
            }
        }
        proof {
            let k1 = kept_excerpts(*query, ls, wf, i + 1);
            let k0 = kept_excerpts(*query, ls, wf, i as int);
            let g = |e: Seq<char>| (f.rel@, ts@, e);
            if exact_query(*query) {
                if keep {
                    assert(k1 == k0.push(trim(ls[i as int])));
                    assert(k1.map_values(g) =~= k0.map_values(g).push(g(trim(ls[i as int]))));
                    assert(before + k1.map_values(g) =~= (before + k0.map_values(g)).push(
                        g(trim(ls[i as int])),
                    ));
                } else {
                    assert(k1 == k0);
                }
            }
        }
        i += 1;
    }
    proof {
        assert(lines@.len() == ls.len());
    }
    Ok(())
}

/// Verify the candidates against their live bytes: every line of every
/// live file that matches the query, is not blank, and — under a workflow
/// filter — carries that tag, as its file's path, the file's modification
/// time and the trimmed line; a file dated before `since` yields nothing.
/// `Err` is a regex line the engine could not finish searching.
pub fn recall_hits(
    files: &Vec<LiveFile>,
    query: &Query,
    workflow: &Option<String>,
    since: &Option<String>,
) -> (r: Result<Vec<Hit>, String>)
    requires
        forall|i: int|
            0 <= i < files@.len() ==> 0 <= (#[trigger] files@[i]).mtime
                <= 9_000_000_000_000_000,
    ensures
        exact_query(*query) ==> (r matches Ok(out) ==> out@.map_values(|h: Hit| hit_view(h))
            == all_hits(
            files@,
            *query,
            opt_view(*workflow),
            opt_view(*since),
            files@.len() as int,
        )),
        r matches Err(m) ==> query.regex && m@ == budget_refusal(query.pattern@),
{
    let mut out: Vec<Hit> = Vec::new();
    let mut k: usize = 0;
    while k < files.len()
        invariant
            k <= files@.len(),
            forall|i: int|
                0 <= i < files@.len() ==> 0 <= (#[trigger] files@[i]).mtime
                    <= 9_000_000_000_000_000,
            exact_query(*query) ==> out@.map_values(|h: Hit| hit_view(h)) == all_hits(
                files@,
                *query,
                opt_view(*workflow),
                opt_view(*since),
                k as int,
            ),
        decreases files.len() - k,
    {
        assert(0 <= files@[k as int].mtime);
        match live_file_hits(&files[k], query, workflow, since, &mut out) {
            Ok(()) => {},
            Err(e) => return Err(e),
        }
        k += 1;
    }
    Ok(out)
}

/// The tools this module answers for.
pub open spec fn handler_names() -> Seq<Seq<char>> {
    seq!["recall"@]
}

/// The tools this module answers for, by name.
pub fn handlers() -> (r: Vec<&'static str>)
    ensures
        r@.len() == 1 && r@[0]@ == "recall"@,
        r@.map_values(|h: &'static str| h@) == handler_names(),
{
    proof {
        reveal_strlit("recall");
    }
    let r = vec!["recall"];
    assert(r@.map_values(|h: &'static str| h@) =~= handler_names());
    r
}

} // verus!
