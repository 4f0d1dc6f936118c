//! The tick tools: `log_tick`'s arguments, and `last_tick`'s verdict on a
//! check from the ticks on record — unregistered, unreadable, silent for
//! the whole window, or fresh.
use vstd::prelude::*;

use crate::args::{
    args_view, first_refused, first_refused_key, get_arg, lemma_first_refused,
    lemma_none_refused, lookup, not_string_refusal, not_string_text, ArgValue,
};
use crate::signoff::str_arg;
use crate::strings::{trim, trimmed};
use crate::calendar::{age_text, iso8601_value, parse_utc_iso8601, render_age};
use crate::text::{chars_of, decimal};

verus! {

/// The tick window: a check whose newest tick is this old (or older) has
/// gone silent.
pub const TICK_WINDOW_SECS: i64 = 2700;

/// One audit line as `last_tick` reads it: its `ts` and `check` when they
/// are strings, and its `session_id` and `result` values.
#[derive(Clone, Debug)]
pub struct TickRecord {
    pub ts: Option<String>,
    pub check: Option<String>,
    pub session_id: Option<ArgValue>,
    pub result: Option<ArgValue>,
}

/// The instant a tick was stamped, when its `ts` is a readable stamp.
pub open spec fn tick_epoch(t: TickRecord) -> Option<int> {
    match t.ts {
        Some(s) => iso8601_value(s@),
        None => None,
    }
}

/// Whether a tick records `check`.
pub open spec fn is_tick_of(t: TickRecord, check: Seq<char>) -> bool {
    t.check matches Some(c) && c@ == check
}

/// The newest readable tick of `check` among the first `n` records: the
/// greatest stamp, a later record winning a tie.
pub open spec fn newest(ticks: Seq<TickRecord>, check: Seq<char>, n: int) -> Option<int>
    decreases n,
{
    if n <= 0 {
        None
    } else {
        let prev = newest(ticks, check, n - 1);
        let t = ticks[n - 1];
        if is_tick_of(t, check) && tick_epoch(t) is Some {
            match prev {
                None => Some(n - 1),
                Some(b) => if tick_epoch(t)->0 >= tick_epoch(ticks[b])->0 {
                    Some(n - 1)
                } else {
                    prev
                },
            }
        } else {
            prev
        }
    }
}

/// How many of the first `n` records are ticks of `check`.
pub open spec fn tick_count(ticks: Seq<TickRecord>, check: Seq<char>, n: int) -> nat
    decreases n,
{
    if n <= 0 {
        0
    } else {
        tick_count(ticks, check, n - 1) + if is_tick_of(ticks[n - 1], check) {
            1nat
        } else {
            0nat
        }
    }
}

/// The refusal for a check that nothing has ever ticked.
pub open spec fn unregistered_text(check: Seq<char>) -> Seq<char> {
    "last_tick refused: check '"@ + check
        + "' is not registered — no ticks on record in .audit/*.jsonl; a check is registered by log_tick recording it"@
}

/// The refusal for a check whose ticks all carry unreadable stamps.
pub open spec fn unreadable_text(check: Seq<char>, count: nat) -> Seq<char> {
    "last_tick refused: check '"@ + check + "' has "@ + decimal(count)
        + " tick(s) on record but none with a readable ISO-8601Z `ts` — freshness cannot be computed from them"@
}

/// The pinned silence report.
pub open spec fn silence_text(check: Seq<char>, ts: Seq<char>, age: int) -> Seq<char> {
    "silence is never good news: check "@ + check + " last ticked "@ + ts + " ("@ + age_text(age)
        + ")"@
}

/// The newest readable tick is a readable tick of the check among the
/// records looked at.
pub proof fn lemma_newest(ticks: Seq<TickRecord>, check: Seq<char>, n: int)
    requires
        0 <= n <= ticks.len(),
    ensures
        newest(ticks, check, n) matches Some(b) ==> 0 <= b < n && is_tick_of(ticks[b], check)
            && tick_epoch(ticks[b]) is Some,
        newest(ticks, check, n) is Some ==> tick_count(ticks, check, n) > 0,
        tick_count(ticks, check, n) <= n,
        newest(ticks, check, n) is None ==> forall|j: int|
            0 <= j < n && is_tick_of(#[trigger] ticks[j], check) ==> tick_epoch(ticks[j]) is None,
    decreases n,
{
    if n > 0 {
        lemma_newest(ticks, check, n - 1);
    }
}

/// `last_tick`'s verdict for `check` at `now`, from the ticks on record:
/// refused when no tick records the check (it is not registered), when
/// none of its ticks has a readable stamp, and — with the pinned silence
/// text — when the newest has aged to or past [`TICK_WINDOW_SECS`];
/// otherwise the index of the newest tick.
pub fn last_tick_verdict(check: &str, ticks: &Vec<TickRecord>, now: i64) -> (r: Result<
    usize,
    String,
>)
    requires
        0 <= now <= i64::MAX - 100_000_000_000,
    ensures
        ({
            let n = ticks@.len() as int;
            let best = newest(ticks@, check@, n);
            let count = tick_count(ticks@, check@, n);
            &&& (r is Ok) == (best matches Some(b) && now - tick_epoch(ticks@[b])->0
                < TICK_WINDOW_SECS)
            &&& r matches Ok(k) ==> best == Some(k as int)
            &&& count == 0 ==> (r matches Err(m) && m@ == unregistered_text(check@))
            &&& (count > 0 && best is None) ==> (r matches Err(m) && m@ == unreadable_text(check@, count))
            &&& best matches Some(b) ==> (now - tick_epoch(ticks@[b])->0 >= TICK_WINDOW_SECS ==> (
            r matches Err(m) && m@ == silence_text(
                check@,
                ticks@[b].ts->0@,
                now - tick_epoch(ticks@[b])->0,
            )))
        }),
{
    let mut count: usize = 0;
    let mut best: Option<usize> = None;
    let mut best_epoch: i64 = 0;
    let mut i: usize = 0;
    let cv = chars_of(check);
    while i < ticks.len()
        invariant
            i <= ticks@.len(),
            cv@ == check@,
            count == tick_count(ticks@, check@, i as int),
            count <= i,
            match newest(ticks@, check@, i as int) {
                Some(b) => best == Some(b as usize) && 0 <= b < i,
                None => best is None,
            },
            best matches Some(b) ==> tick_epoch(ticks@[b as int]) == Some(best_epoch as int),
        decreases ticks.len() - i,
    {
        proof {
            lemma_newest(ticks@, check@, i as int);
        }
        let t = &ticks[i];
        let ours = match &t.check {
            Some(c) => {
                let ccv = chars_of(c.as_str());
                crate::text::same_chars(&ccv, &cv)
            },
            None => false,
        };
        if ours {
            count = count + 1;
            let epoch = match &t.ts {
                Some(s) => parse_utc_iso8601(s.as_str()),
                None => None,
            };
            match epoch {
                Some(e) => {
                    let replace = match best {
                        None => true,
                        Some(_) => e >= best_epoch,
                    };
                    if replace {
                        best = Some(i);
                        best_epoch = e;
                    }
                },
                None => {},
            }
        }
        i += 1;
    }
    proof {
        lemma_newest(ticks@, check@, ticks@.len() as int);
    }
    if count == 0 {
        let mut m = String::from_str("last_tick refused: check '");
        m.append(check);
        m.append(
            "' is not registered — no ticks on record in .audit/*.jsonl; a check is registered by log_tick recording it",
        );
        proof {
            reveal_strlit("last_tick refused: check '");
            reveal_strlit(
                "' is not registered — no ticks on record in .audit/*.jsonl; a check is registered by log_tick recording it",
            );
            assert(m@ =~= unregistered_text(check@));
        }
        return Err(m);
    }
    match best {
        None => {
            let mut m = String::from_str("last_tick refused: check '");
            m.append(check);
            m.append("' has ");
            let n = crate::pattern::number_text(count);
            m.append(n.as_str());
            m.append(
                " tick(s) on record but none with a readable ISO-8601Z `ts` — freshness cannot be computed from them",
            );
            proof {
                reveal_strlit("last_tick refused: check '");
                reveal_strlit("' has ");
                reveal_strlit(
                    " tick(s) on record but none with a readable ISO-8601Z `ts` — freshness cannot be computed from them",
                );
                assert(m@ =~= unreadable_text(check@, count as nat));
            }
            Err(m)
        },
        Some(b) => {
            proof {
                crate::calendar::lemma_iso8601_value_floor(ticks@[b as int].ts->0@);
                assert(best_epoch >= -100_000_000_000);
            }
            let age: i64 = now - best_epoch;
            if age >= TICK_WINDOW_SECS {
                let ts = match &ticks[b].ts {
                    Some(s) => s.clone(),
                    None => String::new(),
                };
                let mut m = String::from_str("silence is never good news: check ");
                m.append(check);
                m.append(" last ticked ");
                m.append(ts.as_str());
                m.append(" (");
                let a = render_age(age);
                m.append(a.as_str());
                m.append(")");
                proof {
                    reveal_strlit("silence is never good news: check ");
                    reveal_strlit(" last ticked ");
                    reveal_strlit(" (");
                    reveal_strlit(")");
                    assert(m@ =~= silence_text(check@, ticks@[b as int].ts->0@, age as int));
                }
                return Err(m);
            }
            Ok(b)
        },
    }
}

/// The fields the `log_tick` schema allows.
pub open spec fn log_tick_key(k: Seq<char>) -> bool {
    k == "check"@ || k == "result"@
}

/// The arguments `log_tick` accepts: a JSON object with no field but
/// `check` and `result`, both strings, the check holding something
/// besides whitespace.
pub open spec fn log_tick_args_ok(fields: Seq<(String, ArgValue)>) -> bool {
    &&& forall|i: int| 0 <= i < fields.len() ==> log_tick_key((#[trigger] fields[i]).0@)
    &&& str_arg(lookup(fields, "check"@)) matches Some(c) && trim(c).len() > 0
    &&& str_arg(lookup(fields, "result"@)) is Some
}

/// The arguments `last_tick` accepts: a JSON object whose only field is
/// `check`, a string holding something besides whitespace.
pub open spec fn last_tick_args_ok(fields: Seq<(String, ArgValue)>) -> bool {
    &&& forall|i: int| 0 <= i < fields.len() ==> (#[trigger] fields[i]).0@ == "check"@
    &&& str_arg(lookup(fields, "check"@)) matches Some(c) && trim(c).len() > 0
}

/// The keys a tick tool takes: `check`, and `result` where `with_result`.
pub open spec fn tick_key_ok(with_result: bool) -> spec_fn(Seq<char>) -> bool {
    |k: Seq<char>| k == "check"@ || (with_result && k == "result"@)
}

/// The position of the first field whose key the tool does not take, if any.
fn first_unknown(fields: &Vec<(String, ArgValue)>, with_result: bool) -> (r: Option<usize>)
    ensures
        match r {
            Some(k) => first_refused(fields@, tick_key_ok(with_result), k as int),
            None => forall|i: int|
                0 <= i < fields@.len() ==> (tick_key_ok(with_result))((#[trigger] fields@[i]).0@),
        },
{
    let check = String::from_str("check");
    let result = String::from_str("result");
    let ghost ok = tick_key_ok(with_result);
    let mut i: usize = 0;
    while i < fields.len()
        invariant
            i <= fields@.len(),
            check@ == "check"@,
            result@ == "result"@,
            ok == tick_key_ok(with_result),
            forall|j: int| 0 <= j < i ==> ok((#[trigger] fields@[j]).0@),
        decreases fields.len() - i,
    {
        let k = &fields[i].0;
        if !(crate::text::same_text(k, &check) || (with_result && crate::text::same_text(
            k,
            &result,
        ))) {
            return Some(i);
        }
        i += 1;
    }
    None
}

/// The text of an unknown-field refusal.
pub open spec fn unknown_text(tool: Seq<char>, key: Seq<char>, allowed: Seq<char>) -> Seq<char> {
    tool + " refused: unknown field '"@ + key + "' — the schema allows only "@ + allowed
}

/// The refusal of an unknown field.
fn unknown_refusal(tool: &str, key: &String, allowed: &str) -> (m: String)
    ensures
        m@ == unknown_text(tool@, key@, allowed@),
{
    let mut m = String::from_str(tool);
    m.append(" refused: unknown field '");
    m.append(key.as_str());
    m.append("' — the schema allows only ");
    m.append(allowed);
    m
}

/// What `log_tick` answers arguments it refuses, in the order it checks
/// them: not an object; the first unknown field; a missing field; a
/// `check` that is not a string, or blank; a `result` that is not a string.
pub open spec fn log_tick_refusal(args: Option<Seq<(String, ArgValue)>>) -> Seq<char> {
    match args {
        None => "log_tick refused: arguments must be a JSON object ({\"check\": …, \"result\": …})"@,
        Some(f) => match first_refused_key(f, tick_key_ok(true)) {
            Some(k) => unknown_text("log_tick"@, k, "check, result"@),
            None => match (lookup(f, "check"@), lookup(f, "result"@)) {
                (Some(ArgValue::Str(c)), Some(res)) => if trim(c@).len() == 0 {
                    "log_tick refused: field 'check' must not be empty — an unnamed check can never be ticked again"@
                } else {
                    not_string_text("log_tick"@, "result"@, res)
                },
                (Some(c), Some(_)) => not_string_text("log_tick"@, "check"@, c),
                _ => "log_tick refused: missing required field 'check' and/or 'result'"@,
            },
        },
    }
}

/// What `last_tick` answers arguments it refuses, in the order it checks
/// them: not an object; the first unknown field; no `check`; a `check`
/// that is not a string, or blank.
pub open spec fn last_tick_refusal(args: Option<Seq<(String, ArgValue)>>) -> Seq<char> {
    match args {
        None => "last_tick refused: arguments must be a JSON object ({\"check\": …})"@,
        Some(f) => match first_refused_key(f, tick_key_ok(false)) {
            Some(k) => unknown_text("last_tick"@, k, "check"@),
            None => match lookup(f, "check"@) {
                None => "last_tick refused: missing required field 'check'"@,
                Some(ArgValue::Str(_)) => "last_tick refused: field 'check' must not be empty"@,
                Some(c) => not_string_text("last_tick"@, "check"@, c),
            },
        },
    }
}

/// Validate `log_tick`'s arguments (see [`log_tick_args_ok`]): the check
/// trimmed, and the result as given.
pub fn parse_log_tick_args(args: &Option<Vec<(String, ArgValue)>>) -> (r: Result<
    (String, String),
    String,
>)
    ensures
        (r is Ok) == (args matches Some(f) && log_tick_args_ok(f@)),
        r matches Ok((c, res)) ==> args matches Some(f) && c@ == trim(
            str_arg(lookup(f@, "check"@))->0,
        ) && Some(res@) == str_arg(lookup(f@, "result"@)),
        r matches Err(m) ==> m@ == log_tick_refusal(args_view(*args)),
{
    let fields = match args {
        Some(f) => f,
        None => {
            return Err(
                String::from_str(
                    "log_tick refused: arguments must be a JSON object ({\"check\": …, \"result\": …})",
                ),
            )
        },
    };
    match first_unknown(fields, true) {
        Some(k) => {
            proof {
                lemma_first_refused(fields@, tick_key_ok(true), k as int);
            }
            return Err(unknown_refusal("log_tick", &fields[k].0, "check, result"));
        },
        None => {
            proof {
                lemma_none_refused(fields@, tick_key_ok(true));
            }
        },
    }
    proof {
        reveal_strlit("check");
        reveal_strlit("result");
    }
    let (cv, rv) = match (get_arg(fields, "check"), get_arg(fields, "result")) {
        (Some(c), Some(r)) => (c, r),
        _ => {
            return Err(
                String::from_str(
                    "log_tick refused: missing required field 'check' and/or 'result'",
                ),
            )
        },
    };
    let check = match cv {
        ArgValue::Str(t) => {
            let c = trimmed(t.as_str());
            if c.as_str().is_empty() {
                return Err(
                    String::from_str(
                        "log_tick refused: field 'check' must not be empty — an unnamed check can never be ticked again",
                    ),
                );
            }
            c
        },
        other => return Err(not_string_refusal("log_tick", "check", other)),
    };
    let result = match rv {
        ArgValue::Str(t) => t.clone(),
        other => return Err(not_string_refusal("log_tick", "result", other)),
    };
    Ok((check, result))
}

/// Validate `last_tick`'s arguments (see [`last_tick_args_ok`]): the
/// check, trimmed.
pub fn parse_last_tick_args(args: &Option<Vec<(String, ArgValue)>>) -> (r: Result<String, String>)
    ensures
        (r is Ok) == (args matches Some(f) && last_tick_args_ok(f@)),
        r matches Ok(c) ==> args matches Some(f) && c@ == trim(str_arg(lookup(f@, "check"@))->0),
        r matches Err(m) ==> m@ == last_tick_refusal(args_view(*args)),
{
    let fields = match args {
        Some(f) => f,
        None => {
            return Err(
                String::from_str(
                    "last_tick refused: arguments must be a JSON object ({\"check\": …})",
                ),
            )
        },
    };
    match first_unknown(fields, false) {
        Some(k) => {
            proof {
                lemma_first_refused(fields@, tick_key_ok(false), k as int);
            }
            return Err(unknown_refusal("last_tick", &fields[k].0, "check"));
        },
        None => {
            proof {
                lemma_none_refused(fields@, tick_key_ok(false));
            }
        },
    }
    proof {
        reveal_strlit("check");
    }
    match get_arg(fields, "check") {
        None => Err(String::from_str("last_tick refused: missing required field 'check'")),
        Some(ArgValue::Str(t)) => {
            let c = trimmed(t.as_str());
            if c.as_str().is_empty() {
                return Err(String::from_str("last_tick refused: field 'check' must not be empty"));
            }
            Ok(c)
        },
        Some(other) => Err(not_string_refusal("last_tick", "check", other)),
    }
}

/// The tools this module answers for.
pub open spec fn handler_names() -> Seq<Seq<char>> {
    seq!["log_tick"@, "last_tick"@]
}

/// The names of the tools this module registers: log_tick and last_tick.
pub fn handlers() -> (r: Vec<&'static str>)
    ensures
        r@.len() == 2 && r@[0]@ == "log_tick"@ && r@[1]@ == "last_tick"@,
        r@.map_values(|h: &'static str| h@) == handler_names(),
{
    proof {
        reveal_strlit("log_tick");
        reveal_strlit("last_tick");
    }
    let r = vec!["log_tick", "last_tick"];
    assert(r@.map_values(|h: &'static str| h@) =~= handler_names());
    r
}

} // verus!
