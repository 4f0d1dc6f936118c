//! `write_brief`: its arguments, the worker name's safety, the claim check
//! it makes, and the archive name and decision for a superseded brief.
use vstd::prelude::*;

use crate::args::{
    args_view, get_arg, kind_of, lookup, unknown_fields, unknown_keys, unknown_list_refusal,
    unknown_list_text, value_kind, ArgValue,
};
use crate::claims::{read_view, ClaimRead};
use crate::index::contains_seq;
use crate::signoff::str_arg;
use crate::strings::remove_char;
use crate::text::{chars_of, string_of};

verus! {

/// The arguments `write_brief` accepts: a JSON object with no field but
/// `worker` and `brief`, both strings.
pub open spec fn brief_args_ok(fields: Seq<(String, ArgValue)>) -> bool {
    &&& unknown_keys(fields, seq!["worker"@, "brief"@], fields.len() as int).len() == 0
    &&& str_arg(lookup(fields, "worker"@)) is Some
    &&& str_arg(lookup(fields, "brief"@)) is Some
}

/// `write_brief`'s refusal of its field `key` when that is missing or
/// not a string.
pub open spec fn brief_field_refusal(f: Seq<(String, ArgValue)>, key: Seq<char>) -> Seq<char> {
    match lookup(f, key) {
        None => "write_brief refused: missing required field '"@ + key + "'"@,
        Some(v) => "write_brief refused: field '"@ + key + "' must be a string (got "@ + kind_of(v)
            + ")"@,
    }
}

/// What `write_brief` answers arguments it refuses: not an object (named
/// by `kind`); the unknown fields; the worker, then the brief, missing or
/// not a string.
pub open spec fn brief_refusal(args: Option<Seq<(String, ArgValue)>>, kind: Seq<char>) -> Seq<char> {
    match args {
        None => "write_brief refused: arguments must be a JSON object (got "@ + kind + ")"@,
        Some(f) => {
            let u = unknown_keys(f, seq!["worker"@, "brief"@], f.len() as int);
            if u.len() > 0 {
                unknown_list_text("write_brief"@, u, "worker, brief"@)
            } else if str_arg(lookup(f, "worker"@)) is None {
                brief_field_refusal(f, "worker"@)
            } else {
                brief_field_refusal(f, "brief"@)
            }
        },
    }
}

/// A required string field of `write_brief`, or its refusal.
fn brief_string(fields: &Vec<(String, ArgValue)>, key: &str) -> (r: Result<String, String>)
    ensures
        match r {
            Ok(s) => str_arg(lookup(fields@, key@)) == Some(s@),
            Err(m) => str_arg(lookup(fields@, key@)) is None && m@ == brief_field_refusal(
                fields@,
                key@,
            ),
        },
{
    match get_arg(fields, key) {
        None => {
            let mut m = String::from_str("write_brief refused: missing required field '");
            m.append(key);
            m.append("'");
            Err(m)
        },
        Some(ArgValue::Str(s)) => Ok(s.clone()),
        Some(other) => {
            let mut m = String::from_str("write_brief refused: field '");
            m.append(key);
            m.append("' must be a string (got ");
            m.append(value_kind(other));
            m.append(")");
            Err(m)
        },
    }
}

/// Validate `write_brief`'s arguments: the worker and the brief. `kind`
/// names what the arguments were when they are no object.
pub fn parse_brief_args(args: &Option<Vec<(String, ArgValue)>>, kind: &str) -> (r: Result<
    (String, String),
    String,
>)
    ensures
        (r is Ok) == (args matches Some(f) && brief_args_ok(f@)),
        r matches Ok((w, b)) ==> args matches Some(f) && str_arg(lookup(f@, "worker"@)) == Some(
            w@,
        ) && str_arg(lookup(f@, "brief"@)) == Some(b@),
        r matches Err(m) ==> m@ == brief_refusal(args_view(*args), kind@),
{
    let fields = match args {
        Some(f) => f,
        None => {
            let mut m = String::from_str(
                "write_brief refused: arguments must be a JSON object (got ",
            );
            m.append(kind);
            m.append(")");
            return Err(m);
        },
    };
    proof {
        reveal_strlit("worker");
        reveal_strlit("brief");
    }
    let allowed = vec![String::from_str("worker"), String::from_str("brief")];
    let unknown = unknown_fields(fields, &allowed);
    proof {
        assert(allowed@.map_values(|s: String| s@) =~= seq!["worker"@, "brief"@]);
    }
    if unknown.len() > 0 {
        return Err(unknown_list_refusal("write_brief", &unknown, "worker, brief"));
    }
    let worker = match brief_string(fields, "worker") {
        Ok(w) => w,
        Err(e) => return Err(e),
    };
    let brief = match brief_string(fields, "brief") {
        Ok(b) => b,
        Err(e) => return Err(e),
    };
    Ok((worker, brief))
}

/// A worker name is one safe path segment: not empty, no `/`, no `..`.
pub open spec fn safe_worker(w: Seq<char>) -> bool {
    w.len() > 0 && !w.contains('/') && !contains_seq(w, seq!['.', '.'])
}

/// [`safe_worker`].
pub fn is_safe_worker(worker: &str) -> (r: bool)
    ensures
        r == safe_worker(worker@),
{
    let v = chars_of(worker);
    if v.len() == 0 {
        return false;
    }
    let mut i: usize = 0;
    while i < v.len()
        invariant
            i <= v@.len(),
            v@ == worker@,
            forall|j: int| 0 <= j < i ==> v@[j] != '/',
        decreases v.len() - i,
    {
        if v[i] == '/' {
            assert(v@.contains('/')) by {
                assert(v@[i as int] == '/');
            }
            return false;
        }
        i += 1;
    }
    let dots = vec!['.', '.'];
    let hit = crate::index::contains_chars(&v, &dots);
    proof {
        assert(dots@ =~= seq!['.', '.']);
        if v@.contains('/') {
            let j = v@.index_of('/');
            assert(v@[j] == '/');
        }
    }
    !hit
}

/// The refusal of an unsafe worker name.
pub fn unsafe_worker_refusal(worker: &str) -> (m: String)
    ensures
        m@ == "write_brief refused: worker '"@ + worker@
            + "' is not a single safe path segment (no '/', no '..', no absolute path) — nothing written"@,
{
    let mut m = String::from_str("write_brief refused: worker '");
    m.append(worker);
    m.append(
        "' is not a single safe path segment (no '/', no '..', no absolute path) — nothing written",
    );
    m
}

/// `write_brief`'s claim check: the token the claim file for today
/// records must be the token the caller's own session was given.
pub open spec fn brief_claim_valid(file: ClaimRead, per_session: Option<Seq<char>>) -> bool {
    read_view(file) matches Some(Some((_, t, _))) && per_session == Some(t)
}

/// [`brief_claim_valid`], refused with the pinned text when it fails.
pub fn brief_gate(file: &ClaimRead, per_session: &Option<String>, date: &str) -> (r: Result<
    (),
    String,
>)
    ensures
        (r is Ok) == brief_claim_valid(
            *file,
            match per_session {
                Some(s) => Some(s@),
                None => None,
            },
        ),
        r matches Err(m) ==> m@ == "write_brief refused: no valid orchestrator_"@ + date@
            + " claim — this session holds no claim token for the local date (the on-disk claim record's token and the session's stored token must both agree; a claim file planted on disk alone is not a claim) — nothing written"@,
{
    let ok = match (file, per_session) {
        (ClaimRead::Held { holder: _, token, acquired_at: _ }, Some(s)) => crate::text::same_text(
            token,
            s,
        ),
        _ => false,
    };
    if ok {
        Ok(())
    } else {
        let mut m = String::from_str("write_brief refused: no valid orchestrator_");
        m.append(date);
        m.append(
            " claim — this session holds no claim token for the local date (the on-disk claim record's token and the session's stored token must both agree; a claim file planted on disk alone is not a claim) — nothing written",
        );
        Err(m)
    }
}

/// The archive name of a superseded brief: `<worker>-<date>T<hhmmss>Z.md`,
/// stamped with the superseded file's modification time (`stamp`, UTC
/// ISO-8601Z).
pub open spec fn archive_name_of(worker: Seq<char>, stamp: Seq<char>) -> Seq<char> {
    worker + seq!['-'] + stamp.subrange(0, 10) + seq!['T'] + remove_char(
        stamp.subrange(11, 19),
        ':',
    ) + seq!['Z', '.', 'm', 'd']
}

/// [`archive_name_of`].
pub fn archive_name(worker: &str, stamp: &str) -> (r: String)
    requires
        stamp@.len() >= 19,
    ensures
        r@ == archive_name_of(worker@, stamp@),
{
    let s = chars_of(stamp);
    let mut out = chars_of(worker);
    out.push('-');
    let mut i: usize = 0;
    let ghost before = out@;
    while i < 10
        invariant
            i <= 10,
            s@.len() >= 19,
            out@ == before + s@.subrange(0, i as int),
        decreases 10 - i,
    {
        out.push(s[i]);
        i += 1;
        proof {
            assert(s@.subrange(0, i as int) =~= s@.subrange(0, i - 1).push(s@[i - 1]));
        }
    }
    out.push('T');
    let ghost mid = out@;
    let mut j: usize = 11;
    while j < 19
        invariant
            11 <= j <= 19,
            s@.len() >= 19,
            out@ == mid + remove_char(s@.subrange(11, j as int), ':'),
        decreases 19 - j,
    {
        let ghost pre = s@.subrange(11, j as int);
        let ghost next = s@.subrange(11, j + 1);
        assert(next.drop_last() =~= pre);
        assert(next.last() == s@[j as int]);
        if s[j] != ':' {
            out.push(s[j]);
            proof {
                assert(out@ =~= mid + remove_char(next, ':'));
            }
        }
        j += 1;
    }
    out.push('Z');
    out.push('.');
    out.push('m');
    out.push('d');
    proof {
        assert(out@ =~= archive_name_of(worker@, stamp@));
    }
    string_of(out.as_slice())
}

/// What happens to a superseded brief, given whether its archive name is
/// taken and, if so, whether that archive holds the very same bytes: a
/// free name is renamed into (`Ok(true)`); the same bytes already
/// archived are kept (`Ok(false)`); different bytes under the name are
/// refused, since no archive is ever overwritten.
pub fn archive_decision(taken: bool, identical: bool, archive: &str) -> (r: Result<bool, String>)
    ensures
        !taken ==> r == Ok::<bool, String>(true),
        taken && identical ==> r == Ok::<bool, String>(false),
        taken && !identical ==> (r matches Err(m) && m@ == "write_brief refused: archive briefs/"@
            + archive@
            + " already exists with different content (two supersessions share one mtime second) — no archive is ever overwritten — nothing written"@),
{
    if !taken {
        return Ok(true);
    }
    if identical {
        return Ok(false);
    }
    let mut m = String::from_str("write_brief refused: archive briefs/");
    m.append(archive);
    m.append(
        " already exists with different content (two supersessions share one mtime second) — no archive is ever overwritten — nothing written",
    );
    Err(m)
}

/// The tools this module answers for.
pub open spec fn handler_names() -> Seq<Seq<char>> {
    seq!["write_brief"@]
}

/// The names of the tools this module registers: write_brief.
pub fn handlers() -> (r: Vec<&'static str>)
    ensures
        r@.len() == 1 && r@[0]@ == "write_brief"@,
        r@.map_values(|h: &'static str| h@) == handler_names(),
{
    proof {
        reveal_strlit("write_brief");
    }
    let r = vec!["write_brief"];
    assert(r@.map_values(|h: &'static str| h@) =~= handler_names());
    r
}

} // verus!
