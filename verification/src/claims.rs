//! The single-writer orchestrator claim and the day file it gates: how a
//! claim file reads, what `claim_orchestrator` does for each reading, how
//! a fresh claim's token and record are made, which claims have gone
//! stale, and the two-legged token check `write_dayfile` makes.
use vstd::prelude::*;

use crate::args::{
    args_view, get_arg, lookup, unknown_fields, unknown_keys, unknown_list_refusal,
    unknown_list_text, ArgValue,
};
use crate::calendar::{is_real_date, real_date};
use crate::json::{
    json_quoted, json_quoted_of, json_str_field, json_str_field_of, member_text, members_text,
    opt_opt_view, plain_keys, string_object,
};
use crate::signoff::str_arg;
use crate::strings::starts_with;
use crate::text::{chars_of, string_of, text_less, text_less_exec};

verus! {

/// An orphan claim file (present, but not a readable claim) is taken over
/// once it is this many seconds old.
pub const CLAIM_STALE_AFTER_SECS: u64 = 30;

/// What reading a claim file gave: no file, a file that could not be
/// read, or its text.
pub enum ClaimFile {
    Missing,
    Unreadable,
    Text(String),
}

/// What a claim file says: no claim, a claim with all three of its
/// fields, or an orphan (present but not a usable claim).
pub enum ClaimRead {
    Absent,
    Held { holder: String, token: String, acquired_at: String },
    Orphan,
}

/// A claim reading as values: `None` for no claim, `Some(None)` for an
/// orphan, `Some(Some((holder, token, acquired_at)))` for a claim.
pub open spec fn read_view(r: ClaimRead) -> Option<Option<(Seq<char>, Seq<char>, Seq<char>)>> {
    match r {
        ClaimRead::Absent => None,
        ClaimRead::Orphan => Some(None),
        ClaimRead::Held { holder, token, acquired_at } => Some(Some((holder@, token@, acquired_at@))),
    }
}

/// What a claim file says, by what reading it gave: a missing file is no
/// claim; an unreadable file, text that is not JSON, and JSON without a
/// string `holder_session_id`, `token` or `acquired_at` are orphans.
pub open spec fn claim_of(f: ClaimFile) -> Option<Option<(Seq<char>, Seq<char>, Seq<char>)>> {
    match f {
        ClaimFile::Missing => None,
        ClaimFile::Unreadable => Some(None),
        ClaimFile::Text(t) => match (
            json_str_field_of(t@, "holder_session_id"@),
            json_str_field_of(t@, "token"@),
            json_str_field_of(t@, "acquired_at"@),
        ) {
            (Some(Some(h)), Some(Some(k)), Some(Some(a))) => Some(Some((h, k, a))),
            _ => Some(None),
        },
    }
}

/// The members of a claim record, in the order serde_json writes them.
pub open spec fn claim_fields(holder: Seq<char>, token: Seq<char>, acquired_at: Seq<char>) -> Seq<
    (Seq<char>, Seq<char>),
> {
    seq![("acquired_at"@, acquired_at), ("holder_session_id"@, holder), ("token"@, token)]
}

/// A claim record is the object of its three string members.
proof fn lemma_claim_record_object(holder: Seq<char>, token: Seq<char>, acquired_at: Seq<char>)
    ensures
        claim_record(holder, token, acquired_at) == string_object(
            claim_fields(holder, token, acquired_at),
        ),
        plain_keys(claim_fields(holder, token, acquired_at)),
{
    reveal_strlit("{\"acquired_at\":");
    reveal_strlit(",\"holder_session_id\":");
    reveal_strlit(",\"token\":");
    reveal_strlit("}");
    reveal_strlit("acquired_at");
    reveal_strlit("holder_session_id");
    reveal_strlit("token");
    let fs = claim_fields(holder, token, acquired_at);
    assert(fs.drop_last().drop_last() =~= seq![fs[0]]);
    assert(fs.drop_last().last() == fs[1]);
    assert(fs.last() == fs[2]);
    assert(members_text(fs.drop_last()) == members_text(fs.drop_last().drop_last()) + seq![',']
        + member_text(fs[1].0, fs[1].1));
    assert(claim_record(holder, token, acquired_at) =~= string_object(fs));
    assert forall|i: int| 0 <= i < fs.len() implies (#[trigger] fs[i]).0.len() > 0 && forall|j: int|
        0 <= j < fs[i].0.len() ==> ('a' <= #[trigger] fs[i].0[j] <= 'z' || fs[i].0[j] == '_') by {
        if i == 0 {
            assert(fs[i].0 == "acquired_at"@);
        } else if i == 1 {
            assert(fs[i].0 == "holder_session_id"@);
        } else {
            assert(fs[i].0 == "token"@);
        }
    }
    assert forall|i: int, j: int| 0 <= i < j < fs.len() implies fs[i].0 != fs[j].0 by {
        if i == 0 {
            assert(fs[i].0[0] == 'a');
            assert(fs[j].0[0] != 'a');
        } else {
            assert(fs[i].0[0] == 'h');
            assert(fs[j].0[0] == 't');
        }
    }
}

/// Read a claim file's text (see [`claim_of`]). A record written by
/// [`claim_document`] reads back as the claim it records.
pub fn classify_claim(f: ClaimFile) -> (r: ClaimRead)
    ensures
        read_view(r) == claim_of(f),
        forall|holder: Seq<char>, token: Seq<char>, acquired_at: Seq<char>|
            #![trigger claim_record(holder, token, acquired_at)]
            (f matches ClaimFile::Text(t) && t@ == claim_record(holder, token, acquired_at))
                ==> read_view(r) == Some(Some((holder, token, acquired_at))),
{
    match f {
        ClaimFile::Missing => ClaimRead::Absent,
        ClaimFile::Unreadable => ClaimRead::Orphan,
        ClaimFile::Text(t) => {
            let h = json_str_field(t.as_str(), "holder_session_id");
            let k = json_str_field(t.as_str(), "token");
            let a = json_str_field(t.as_str(), "acquired_at");
            proof {
                assert forall|holder: Seq<char>, token: Seq<char>, acquired_at: Seq<char>|
                    #![trigger claim_record(holder, token, acquired_at)]
                    t@ == claim_record(holder, token, acquired_at) implies opt_opt_view(h) == Some(
                    Some(holder),
                ) && opt_opt_view(k) == Some(Some(token)) && opt_opt_view(a) == Some(
                    Some(acquired_at),
                ) by {
                    lemma_claim_record_object(holder, token, acquired_at);
                    let fs = claim_fields(holder, token, acquired_at);
                    assert(string_object(fs) == t@);
                    assert(fs[0].0 == "acquired_at"@);
                    assert(fs[1].0 == "holder_session_id"@);
                    assert(fs[2].0 == "token"@);
                }
            }
            match (h, k, a) {
                (Some(Some(holder)), Some(Some(token)), Some(Some(acquired_at))) => ClaimRead::Held {
                    holder,
                    token,
                    acquired_at,
                },
                _ => ClaimRead::Orphan,
            }
        },
    }
}

/// The refusal naming the holder of a live claim.
pub open spec fn conflict_text(date: Seq<char>, holder: Seq<char>, acquired_at: Seq<char>) -> Seq<
    char,
> {
    "claim_orchestrator refused: orchestrator-"@ + date + " is held by session="@ + holder
        + " (acquired "@ + acquired_at
        + ") — a live claim is single-writer: only the holding session may claim that date. The claim file is unchanged; the holder must release (or the claim must age out) before another session may take it"@
}

/// The refusal for an orphan claim file that has not aged out.
pub open spec fn orphan_text(date: Seq<char>) -> Seq<char> {
    "claim_orchestrator refused: .claims/orchestrator-"@ + date
        + " exists but is not a readable claim (an orphan from a crashed holder) — it will be taken over once it has been orphaned for 30 s; retry, or delete the file"@
}

/// The refusal after a lost create race whose winner left no usable claim.
pub open spec fn vanished_text(date: Seq<char>) -> Seq<char> {
    "claim_orchestrator refused: .claims/orchestrator-"@ + date
        + " appeared between our read and our create but is not a usable claim — retry"@
}

/// [`conflict_text`].
pub fn claim_conflict_refusal(date: &str, holder: &str, acquired_at: &str) -> (m: String)
    ensures
        m@ == conflict_text(date@, holder@, acquired_at@),
{
    let mut m = String::from_str("claim_orchestrator refused: orchestrator-");
    m.append(date);
    m.append(" is held by session=");
    m.append(holder);
    m.append(" (acquired ");
    m.append(acquired_at);
    m.append(
        ") — a live claim is single-writer: only the holding session may claim that date. The claim file is unchanged; the holder must release (or the claim must age out) before another session may take it",
    );
    proof {
        reveal_strlit("claim_orchestrator refused: orchestrator-");
        reveal_strlit(" is held by session=");
        reveal_strlit(" (acquired ");
        reveal_strlit(
            ") — a live claim is single-writer: only the holding session may claim that date. The claim file is unchanged; the holder must release (or the claim must age out) before another session may take it",
        );
        assert(m@ =~= conflict_text(date@, holder@, acquired_at@));
    }
    m
}

/// What `claim_orchestrator` does with the claim file it read.
pub enum ClaimStep {
    /// No claim: race the exclusive create of a fresh one.
    Create,
    /// The caller's own claim: hand back its existing token, rewriting
    /// nothing.
    Reclaim,
    /// An orphan that has aged out: remove it, then race the create.
    TakeOver,
    /// Refused, the claim file untouched.
    Refuse(String),
}

/// The claim decision, made from the disk on every call: no claim is
/// created fresh; the caller's own claim is handed back; another
/// session's live claim is refused naming its holder; an orphan is taken
/// over once it is [`CLAIM_STALE_AFTER_SECS`] old and refused before.
pub fn claim_step(read: &ClaimRead, session: &str, date: &str, orphan_age: Option<u64>) -> (s:
    ClaimStep)
    ensures
        match read_view(*read) {
            None => s is Create,
            Some(Some((h, t, a))) => if h == session@ {
                s is Reclaim
            } else {
                s matches ClaimStep::Refuse(m) && m@ == conflict_text(date@, h, a)
            },
            Some(None) => if orphan_age matches Some(x) && x >= CLAIM_STALE_AFTER_SECS {
                s is TakeOver
            } else {
                s matches ClaimStep::Refuse(m) && m@ == orphan_text(date@)
            },
        },
{
    match read {
        ClaimRead::Absent => ClaimStep::Create,
        ClaimRead::Held { holder, token: _, acquired_at } => {
            let hv = chars_of(holder.as_str());
            let sv = chars_of(session);
            if crate::text::same_chars(&hv, &sv) {
                ClaimStep::Reclaim
            } else {
                ClaimStep::Refuse(
                    claim_conflict_refusal(date, holder.as_str(), acquired_at.as_str()),
                )
            }
        },
        ClaimRead::Orphan => {
            let aged = match orphan_age {
                Some(x) => x >= CLAIM_STALE_AFTER_SECS,
                None => false,
            };
            if aged {
                ClaimStep::TakeOver
            } else {
                let mut m = String::from_str("claim_orchestrator refused: .claims/orchestrator-");
                m.append(date);
                m.append(
                    " exists but is not a readable claim (an orphan from a crashed holder) — it will be taken over once it has been orphaned for 30 s; retry, or delete the file",
                );
                proof {
                    reveal_strlit("claim_orchestrator refused: .claims/orchestrator-");
                    reveal_strlit(
                        " exists but is not a readable claim (an orphan from a crashed holder) — it will be taken over once it has been orphaned for 30 s; retry, or delete the file",
                    );
                    assert(m@ =~= orphan_text(date@));
                }
                ClaimStep::Refuse(m)
            }
        },
    }
}

/// After a lost create race the file is re-read: the caller's own claim
/// is handed back (`Ok`), another session's is refused naming its holder,
/// and a file that vanished or stayed unreadable is refused for a retry.
pub fn lost_race(read: &ClaimRead, session: &str, date: &str) -> (r: Result<(), String>)
    ensures
        match read_view(*read) {
            Some(Some((h, t, a))) => if h == session@ {
                r is Ok
            } else {
                r matches Err(m) && m@ == conflict_text(date@, h, a)
            },
            _ => r matches Err(m) && m@ == vanished_text(date@),
        },
{
    match read {
        ClaimRead::Held { holder, token: _, acquired_at } => {
            let hv = chars_of(holder.as_str());
            let sv = chars_of(session);
            if crate::text::same_chars(&hv, &sv) {
                Ok(())
            } else {
                Err(claim_conflict_refusal(date, holder.as_str(), acquired_at.as_str()))
            }
        },
        _ => {
            let mut m = String::from_str("claim_orchestrator refused: .claims/orchestrator-");
            m.append(date);
            m.append(
                " appeared between our read and our create but is not a usable claim — retry",
            );
            proof {
                reveal_strlit("claim_orchestrator refused: .claims/orchestrator-");
                reveal_strlit(
                    " appeared between our read and our create but is not a usable claim — retry",
                );
                assert(m@ =~= vanished_text(date@));
            }
            Err(m)
        },
    }
}

/// The hexadecimal digit of `d` (`0 <= d < 16`), lower case.
pub open spec fn hex_char(d: int) -> char {
    if d < 10 {
        (d + 48) as char
    } else {
        (d + 87) as char
    }
}

/// The last `w` hexadecimal digits of `v`, most significant first (the
/// `{:0w x}` rendering of a value below `16^w`).
pub open spec fn hex_width(v: nat, w: nat) -> Seq<char>
    decreases w,
{
    if w == 0 {
        Seq::empty()
    } else {
        hex_width(v / 16, (w - 1) as nat).push(hex_char((v % 16) as int))
    }
}

/// The number a fresh claim's token spells: the process id spread by a
/// golden-ratio multiplier, mixed with the clock, scaled by the per-process
/// sequence number (all arithmetic wrapping at 64 bits).
pub open spec fn token_value(pid: u32, epoch: u64, nonce: u64) -> u64 {
    ((pid as u64).wrapping_mul(0x9E37_79B9) ^ epoch).wrapping_mul((nonce + 1) as u64)
}

/// A fresh claim's token: `tok-` and the sixteen hexadecimal digits of
/// [`token_value`].
pub open spec fn token_text(pid: u32, epoch: u64, nonce: u64) -> Seq<char> {
    "tok-"@ + hex_width(token_value(pid, epoch, nonce) as nat, 16)
}

/// Append the last `w` hexadecimal digits of `v`.
fn push_hex(out: &mut Vec<char>, v: u64, w: u32)
    ensures
        final(out)@ == old(out)@ + hex_width(v as nat, w as nat),
    decreases w,
{
    if w > 0 {
        push_hex(out, v / 16, w - 1);
        let d = v % 16;
        let c = if d < 10 {
            ((d as u8) + 48) as char
        } else {
            ((d as u8) + 87) as char
        };
        out.push(c);
    }
}

/// Mint the token of a fresh claim (see [`token_text`]).
pub fn mint_token(pid: u32, epoch: u64, nonce: u64) -> (r: String)
    requires
        nonce < u64::MAX,
    ensures
        r@ == token_text(pid, epoch, nonce),
{
    let v = ((pid as u64).wrapping_mul(0x9E37_79B9) ^ epoch).wrapping_mul(nonce + 1);
    let mut out: Vec<char> = Vec::new();
    out.push('t');
    out.push('o');
    out.push('k');
    out.push('-');
    push_hex(&mut out, v, 16);
    proof {
        reveal_strlit("tok-");
        assert(out@ =~= token_text(pid, epoch, nonce));
    }
    string_of(out.as_slice())
}

/// The claim record serde_json writes for `{holder_session_id, token,
/// acquired_at}`: its keys in sorted order, no whitespace.
pub open spec fn claim_record(holder: Seq<char>, token: Seq<char>, acquired_at: Seq<char>) -> Seq<
    char,
> {
    "{\"acquired_at\":"@ + json_quoted_of(acquired_at) + ",\"holder_session_id\":"@
        + json_quoted_of(holder) + ",\"token\":"@ + json_quoted_of(token) + "}"@
}

/// [`claim_record`].
pub fn claim_document(holder: &str, token: &str, acquired_at: &str) -> (r: String)
    ensures
        r@ == claim_record(holder@, token@, acquired_at@),
{
    let mut m = String::from_str("{\"acquired_at\":");
    let a = json_quoted(acquired_at);
    m.append(a.as_str());
    m.append(",\"holder_session_id\":");
    let h = json_quoted(holder);
    m.append(h.as_str());
    m.append(",\"token\":");
    let t = json_quoted(token);
    m.append(t.as_str());
    m.append("}");
    m
}

/// The claim file name's prefix.
pub open spec fn claim_prefix() -> Seq<char> {
    "orchestrator-"@
}

/// Whether a `.claims/` entry is a stale claim that rotates to the
/// archive: `orchestrator-<date>` for a real date before `today`
/// (`YYYY-MM-DD` names compare by date as text).
pub open spec fn stale_claim(name: Seq<char>, today: Seq<char>) -> bool {
    let date = name.subrange(claim_prefix().len() as int, name.len() as int);
    starts_with(name, claim_prefix()) && real_date(date) && text_less(date, today)
}

/// [`stale_claim`].
pub fn is_stale_claim(name: &str, today: &String) -> (r: bool)
    ensures
        r == stale_claim(name@, today@),
{
    proof {
        reveal_strlit("orchestrator-");
    }
    let v = chars_of(name);
    let p = chars_of("orchestrator-");
    if !crate::strings::starts_with_at(&v, 0, v.len(), &p) {
        assert(v@.subrange(0, v@.len() as int) =~= v@);
        return false;
    }
    assert(v@.subrange(0, v@.len() as int) =~= v@);
    let rest = crate::strings::copy_range(&v, p.len(), v.len());
    let date = string_of(rest.as_slice());
    is_real_date(date.as_str()) && text_less_exec(&date, today)
}

/// The date a claim is for: the requested one when it is a real
/// `YYYY-MM-DD` date, else refused; the server's local `today` when none
/// is requested.
pub fn claim_date(requested: &Option<String>, today: String) -> (r: Result<String, String>)
    ensures
        match requested {
            None => r == Ok::<String, String>(today),
            Some(d) => if real_date(d@) {
                r matches Ok(x) && x@ == d@
            } else {
                r matches Err(m) && m@ == "claim_orchestrator refused: date '"@ + d@
                    + "' is not a valid YYYY-MM-DD calendar date"@
            },
        },
{
    match requested {
        None => Ok(today),
        Some(d) => {
            if is_real_date(d.as_str()) {
                Ok(d.clone())
            } else {
                let mut m = String::from_str("claim_orchestrator refused: date '");
                m.append(d.as_str());
                m.append("' is not a valid YYYY-MM-DD calendar date");
                Err(m)
            }
        },
    }
}

/// The kind name the claim tools give a JSON value in refusals (a
/// boolean is `bool` here).
pub open spec fn claim_kind_of(v: ArgValue) -> Seq<char> {
    match v {
        ArgValue::Null => "null"@,
        ArgValue::Bool(_) => "bool"@,
        ArgValue::Number(_) => "number"@,
        ArgValue::Str(_) => "string"@,
        ArgValue::Array(_) => "array"@,
        ArgValue::Object(_) => "object"@,
    }
}

/// The kind name the claim tools give a JSON value in refusals.
pub fn claim_value_kind(v: &ArgValue) -> (r: &'static str)
    ensures
        r@ == claim_kind_of(*v),
{
    proof {
        reveal_strlit("null");
        reveal_strlit("bool");
        reveal_strlit("number");
        reveal_strlit("string");
        reveal_strlit("array");
        reveal_strlit("object");
    }
    match v {
        ArgValue::Null => "null",
        ArgValue::Bool(_) => "bool",
        ArgValue::Number(_) => "number",
        ArgValue::Str(_) => "string",
        ArgValue::Array(_) => "array",
        ArgValue::Object(_) => "object",
    }
}

/// The arguments `claim_orchestrator` accepts: a JSON object whose only
/// field may be `date`, a string when present.
pub open spec fn claim_args_ok(fields: Seq<(String, ArgValue)>) -> bool {
    &&& unknown_keys(fields, seq!["date"@], fields.len() as int).len() == 0
    &&& (lookup(fields, "date"@) is None || str_arg(lookup(fields, "date"@)) is Some)
}

/// What `claim_orchestrator` answers arguments it refuses: not an
/// object; the unknown fields; a `date` that is not a string.
pub open spec fn claim_refusal(args: Option<Seq<(String, ArgValue)>>) -> Seq<char> {
    match args {
        None => "claim_orchestrator refused: arguments must be a JSON object"@,
        Some(f) => {
            let u = unknown_keys(f, seq!["date"@], f.len() as int);
            if u.len() > 0 {
                unknown_list_text("claim_orchestrator"@, u, "date"@)
            } else {
                "claim_orchestrator refused: field 'date' must be a string when present (got "@
                    + claim_kind_of(lookup(f, "date"@)->0) + ")"@
            }
        },
    }
}

/// Validate `claim_orchestrator`'s arguments: the requested date, if any
/// (its calendar check is [`claim_date`]'s).
pub fn parse_claim_args(args: &Option<Vec<(String, ArgValue)>>) -> (r: Result<
    Option<String>,
    String,
>)
    ensures
        (r is Ok) == (args matches Some(f) && claim_args_ok(f@)),
        r matches Ok(d) ==> args matches Some(f) && match d {
            None => lookup(f@, "date"@) is None,
            Some(x) => str_arg(lookup(f@, "date"@)) == Some(x@),
        },
        r matches Err(m) ==> m@ == claim_refusal(args_view(*args)),
{
    let fields = match args {
        Some(f) => f,
        None => {
            return Err(
                String::from_str("claim_orchestrator refused: arguments must be a JSON object"),
            )
        },
    };
    proof {
        reveal_strlit("date");
    }
    let allowed = vec![String::from_str("date")];
    let unknown = unknown_fields(fields, &allowed);
    proof {
        assert(allowed@.map_values(|s: String| s@) =~= seq!["date"@]);
    }
    if unknown.len() > 0 {
        return Err(unknown_list_refusal("claim_orchestrator", &unknown, "date"));
    }
    match get_arg(fields, "date") {
        None => Ok(None),
        Some(ArgValue::Str(s)) => Ok(Some(s.clone())),
        Some(other) => {
            let mut m = String::from_str(
                "claim_orchestrator refused: field 'date' must be a string when present (got ",
            );
            m.append(claim_value_kind(other));
            m.append(")");
            Err(m)
        },
    }
}

/// The arguments `write_dayfile` accepts: a JSON object with no field
/// but `content` and `orchestrator_token`, both strings.
pub open spec fn dayfile_args_ok(fields: Seq<(String, ArgValue)>) -> bool {
    &&& unknown_keys(fields, seq!["content"@, "orchestrator_token"@], fields.len() as int).len()
        == 0
    &&& str_arg(lookup(fields, "content"@)) is Some
    &&& str_arg(lookup(fields, "orchestrator_token"@)) is Some
}

/// `write_dayfile`'s refusal of its field `key` when that is missing or
/// not a string.
pub open spec fn dayfile_field_refusal(f: Seq<(String, ArgValue)>, key: Seq<char>) -> Seq<char> {
    match lookup(f, key) {
        None => "write_dayfile refused: missing required field '"@ + key + "'"@,
        Some(v) => "write_dayfile refused: field '"@ + key + "' must be a string (got "@
            + claim_kind_of(v) + ")"@,
    }
}

/// What `write_dayfile` answers arguments it refuses: not an object; the
/// unknown fields; the content, then the token, missing or not a string.
pub open spec fn dayfile_refusal(args: Option<Seq<(String, ArgValue)>>) -> Seq<char> {
    match args {
        None => "write_dayfile refused: arguments must be a JSON object"@,
        Some(f) => {
            let u = unknown_keys(f, seq!["content"@, "orchestrator_token"@], f.len() as int);
            if u.len() > 0 {
                unknown_list_text("write_dayfile"@, u, "content, orchestrator_token"@)
            } else if str_arg(lookup(f, "content"@)) is None {
                dayfile_field_refusal(f, "content"@)
            } else {
                dayfile_field_refusal(f, "orchestrator_token"@)
            }
        },
    }
}

/// A required string field of `write_dayfile`, or its refusal.
fn dayfile_string(fields: &Vec<(String, ArgValue)>, key: &str) -> (r: Result<String, String>)
    ensures
        match r {
            Ok(s) => str_arg(lookup(fields@, key@)) == Some(s@),
            Err(m) => str_arg(lookup(fields@, key@)) is None && m@ == dayfile_field_refusal(
                fields@,
                key@,
            ),
        },
{
    match get_arg(fields, key) {
        Some(ArgValue::Str(s)) => Ok(s.clone()),
        None => {
            let mut m = String::from_str("write_dayfile refused: missing required field '");
            m.append(key);
            m.append("'");
            Err(m)
        },
        Some(other) => {
            let mut m = String::from_str("write_dayfile refused: field '");
            m.append(key);
            m.append("' must be a string (got ");
            m.append(claim_value_kind(other));
            m.append(")");
            Err(m)
        },
    }
}

/// Validate `write_dayfile`'s arguments: the content and the presented
/// token.
pub fn parse_dayfile_args(args: &Option<Vec<(String, ArgValue)>>) -> (r: Result<
    (String, String),
    String,
>)
    ensures
        (r is Ok) == (args matches Some(f) && dayfile_args_ok(f@)),
        r matches Ok((c, t)) ==> args matches Some(f) && str_arg(lookup(f@, "content"@)) == Some(
            c@,
        ) && str_arg(lookup(f@, "orchestrator_token"@)) == Some(t@),
        r matches Err(m) ==> m@ == dayfile_refusal(args_view(*args)),
{
    let fields = match args {
        Some(f) => f,
        None => {
            return Err(String::from_str("write_dayfile refused: arguments must be a JSON object"))
        },
    };
    proof {
        reveal_strlit("content");
        reveal_strlit("orchestrator_token");
    }
    let allowed = vec![String::from_str("content"), String::from_str("orchestrator_token")];
    let unknown = unknown_fields(fields, &allowed);
    proof {
        assert(allowed@.map_values(|s: String| s@) =~= seq!["content"@, "orchestrator_token"@]);
    }
    if unknown.len() > 0 {
        return Err(
            unknown_list_refusal("write_dayfile", &unknown, "content, orchestrator_token"),
        );
    }
    let content = match dayfile_string(fields, "content") {
        Ok(c) => c,
        Err(e) => return Err(e),
    };
    let token = match dayfile_string(fields, "orchestrator_token") {
        Ok(t) => t,
        Err(e) => return Err(e),
    };
    Ok((content, token))
}

/// The single-writer check: the presented token must be both the one the
/// claim file for today records and the one the caller's own session was
/// given when it claimed.
pub open spec fn token_valid(file: ClaimRead, per_session: Option<Seq<char>>, presented: Seq<char>) -> bool {
    &&& read_view(file) matches Some(Some((_, t, _))) && t == presented
    &&& per_session == Some(presented)
}

/// `write_dayfile`'s token gate, decided before any lock is taken:
/// accepted only when both legs of [`token_valid`] hold, and otherwise
/// refused with the pinned text.
pub fn dayfile_gate(
    file: &ClaimRead,
    per_session: &Option<String>,
    presented: &String,
    today: &str,
) -> (r: Result<(), String>)
    ensures
        (r is Ok) == token_valid(
            *file,
            match per_session {
                Some(s) => Some(s@),
                None => None,
            },
            presented@,
        ),
        r matches Err(m) ==> m@ == "write_dayfile refused: no valid orchestrator_"@ + today@
            + " claim — single-writer dayfile"@,
{
    let file_ok = match file {
        ClaimRead::Held { holder: _, token, acquired_at: _ } => crate::text::same_text(
            token,
            presented,
        ),
        _ => false,
    };
    let session_ok = match per_session {
        Some(s) => crate::text::same_text(s, presented),
        None => false,
    };
    if file_ok && session_ok {
        Ok(())
    } else {
        let mut m = String::from_str("write_dayfile refused: no valid orchestrator_");
        m.append(today);
        m.append(" claim — single-writer dayfile");
        Err(m)
    }
}

/// The tools this module answers for.
pub open spec fn handler_names() -> Seq<Seq<char>> {
    seq!["claim_orchestrator"@, "write_dayfile"@]
}

/// The names of the tools this module registers: claim_orchestrator and write_dayfile.
pub fn handlers() -> (r: Vec<&'static str>)
    ensures
        r@.len() == 2 && r@[0]@ == "claim_orchestrator"@ && r@[1]@ == "write_dayfile"@,
        r@.map_values(|h: &'static str| h@) == handler_names(),
{
    proof {
        reveal_strlit("claim_orchestrator");
        reveal_strlit("write_dayfile");
    }
    let r = vec!["claim_orchestrator", "write_dayfile"];
    assert(r@.map_values(|h: &'static str| h@) =~= handler_names());
    r
}

} // verus!
