//! `signoff.md`: the one-line worker signoff entry `append_signoff`
//! writes, and what `read_signoff` parses back out of the file: the
//! worker signoffs, the ranked warm-start list and the history.
use vstd::prelude::*;

use crate::models::find_seq_from;
use crate::strings::{find, starts_with, trim};
use crate::args::{
    args_view, get_arg, kind_of, lookup, unknown_fields, unknown_keys, unknown_list_refusal,
    unknown_list_text, ArgValue,
};
use crate::pattern::debug_str_of;
use crate::text::{chars_of, string_of};

verus! {

/// `Worker signoff (`.
pub open spec fn p_worker() -> Seq<char> {
    seq!['W', 'o', 'r', 'k', 'e', 'r', ' ', 's', 'i', 'g', 'n', 'o', 'f', 'f', ' ', '(']
}

/// The field separator ` | `.
pub open spec fn sep() -> Seq<char> {
    seq![' ', '|', ' ']
}

/// The key/value separator `: `.
pub open spec fn colon() -> Seq<char> {
    seq![':', ' ']
}

/// The field names, in their slot order: `done`, `unpushed`,
/// `awaits human`, `still running` (required), then `kaibo review`,
/// `workflow`, `ts`, `session` (optional).
pub open spec fn field_name(i: int) -> Seq<char> {
    if i == 0 {
        seq!['d', 'o', 'n', 'e']
    } else if i == 1 {
        seq!['u', 'n', 'p', 'u', 's', 'h', 'e', 'd']
    } else if i == 2 {
        seq!['a', 'w', 'a', 'i', 't', 's', ' ', 'h', 'u', 'm', 'a', 'n']
    } else if i == 3 {
        seq!['s', 't', 'i', 'l', 'l', ' ', 'r', 'u', 'n', 'n', 'i', 'n', 'g']
    } else if i == 4 {
        seq!['k', 'a', 'i', 'b', 'o', ' ', 'r', 'e', 'v', 'i', 'e', 'w']
    } else if i == 5 {
        seq!['w', 'o', 'r', 'k', 'f', 'l', 'o', 'w']
    } else if i == 6 {
        seq!['t', 's']
    } else {
        seq!['s', 'e', 's', 's', 'i', 'o', 'n']
    }
}

/// The slot of a field name, or `-1` for a name the parser ignores.
pub open spec fn key_index(k: Seq<char>) -> int {
    if k == field_name(0) {
        0
    } else if k == field_name(1) {
        1
    } else if k == field_name(2) {
        2
    } else if k == field_name(3) {
        3
    } else if k == field_name(4) {
        4
    } else if k == field_name(5) {
        5
    } else if k == field_name(6) {
        6
    } else if k == field_name(7) {
        7
    } else {
        -1
    }
}

/// `str::split_once` on a string separator: the text before and after the
/// first occurrence of `sep`.
pub open spec fn split_once(s: Seq<char>, sep: Seq<char>) -> Option<(Seq<char>, Seq<char>)> {
    let k = find_seq_from(s, sep, 0);
    if sep.len() == 0 || k + sep.len() > s.len() {
        None
    } else {
        Some((s.subrange(0, k), s.subrange(k + sep.len(), s.len() as int)))
    }
}

/// `str::split` on a string separator: the pieces between the
/// non-overlapping occurrences of `sep`, left to right.
pub open spec fn split_str(s: Seq<char>, sep: Seq<char>) -> Seq<Seq<char>>
    decreases s.len(),
{
    let k = find_seq_from(s, sep, 0);
    if sep.len() == 0 || k < 0 || k + sep.len() > s.len() {
        seq![s]
    } else {
        seq![s.subrange(0, k)] + split_str(s.subrange(k + sep.len(), s.len() as int), sep)
    }
}

/// One fragment applied to the field slots: the fragment must be
/// `key: value`; a known key sets its slot to the trimmed value, an
/// unknown key changes nothing.
pub open spec fn field_step(frag: Seq<char>, st: Seq<Option<Seq<char>>>) -> Option<
    Seq<Option<Seq<char>>>,
> {
    match split_once(frag, colon()) {
        None => None,
        Some((k, v)) => {
            let i = key_index(trim(k));
            Some(
                if i >= 0 {
                    st.update(i, Some(trim(v)))
                } else {
                    st
                },
            )
        },
    }
}

/// The fields of a signoff line, fragment by fragment (a later fragment
/// wins); `None` when some fragment is not `key: value`.
pub open spec fn fields_of(frags: Seq<Seq<char>>, st: Seq<Option<Seq<char>>>) -> Option<
    Seq<Option<Seq<char>>>,
>
    decreases frags.len(),
{
    if frags.len() == 0 {
        Some(st)
    } else {
        match field_step(frags[0], st) {
            None => None,
            Some(st2) => fields_of(frags.drop_first(), st2),
        }
    }
}

/// The parsed line once the field slots are known: every required slot
/// must be filled.
pub open spec fn finish(worker: Seq<char>, fields: Option<Seq<Option<Seq<char>>>>) -> Option<
    (Seq<char>, Seq<Option<Seq<char>>>),
> {
    match fields {
        None => None,
        Some(st) => if st[0] is Some && st[1] is Some && st[2] is Some && st[3] is Some {
            Some((worker, st))
        } else {
            None
        },
    }
}

/// Eight empty slots.
pub open spec fn no_fields() -> Seq<Option<Seq<char>>> {
    Seq::new(8, |i: int| None::<Seq<char>>)
}

/// A worker-signoff line, parsed: the role (trimmed) and the eight field
/// slots, or `None` for a malformed line (no closing `)`, an empty role, no
/// ` | ` after the `)`, a fragment that is not `key: value`, or a missing
/// required field).
pub open spec fn parse_worker(line: Seq<char>) -> Option<(Seq<char>, Seq<Option<Seq<char>>>)> {
    if !starts_with(line, p_worker()) {
        None
    } else {
        let rest = line.subrange(p_worker().len() as int, line.len() as int);
        let close = find(rest, ')');
        if close >= rest.len() {
            None
        } else {
            let worker = trim(rest.subrange(0, close));
            let after = rest.subrange(close + 1, rest.len() as int);
            if worker.len() == 0 || !starts_with(after, sep()) {
                None
            } else {
                finish(worker, fields_of(split_str(after.subrange(3, after.len() as int), sep()), no_fields()))
            }
        }
    }
}

/// One worker signoff as `read_signoff` reports it.
#[derive(Clone, Debug)]
pub struct WorkerSignoff {
    pub worker: String,
    pub done: String,
    pub unpushed: String,
    pub awaits_human: String,
    pub still_running: String,
    pub kaibo_review: Option<String>,
    pub workflow: Option<String>,
    pub ts: Option<String>,
    pub session: Option<String>,
}

/// The view of an optional string.
pub open spec fn opt_text(o: Option<String>) -> Option<Seq<char>> {
    match o {
        Some(s) => Some(s@),
        None => None,
    }
}

/// A worker signoff as role and field slots.
pub open spec fn worker_view(w: WorkerSignoff) -> (Seq<char>, Seq<Option<Seq<char>>>) {
    (
        w.worker@,
        seq![
            Some(w.done@),
            Some(w.unpushed@),
            Some(w.awaits_human@),
            Some(w.still_running@),
            opt_text(w.kaibo_review),
            opt_text(w.workflow),
            opt_text(w.ts),
            opt_text(w.session),
        ],
    )
}

/// Whether `v[a..b]` is exactly `lit`.
fn range_is(v: &Vec<char>, a: usize, b: usize, lit: &Vec<char>) -> (r: bool)
    requires
        a <= b <= v@.len(),
    ensures
        r == (v@.subrange(a as int, b as int) == lit@),
{
    if b - a != lit.len() {
        return false;
    }
    let r = crate::strings::starts_with_at(v, a, b, lit);
    assert(v@.subrange(a as int, b as int).subrange(0, lit@.len() as int) =~= v@.subrange(
        a as int,
        b as int,
    ));
    r
}

/// The first occurrence of `p` in `v[lo..hi]`, relative to `lo`, or
/// `hi - lo` when there is none.
fn find_seq_in(v: &Vec<char>, lo: usize, hi: usize, p: &Vec<char>) -> (r: usize)
    requires
        lo <= hi <= v@.len(),
        p@.len() > 0,
    ensures
        r == find_seq_from(v@.subrange(lo as int, hi as int), p@, 0),
{
    let ghost s = v@.subrange(lo as int, hi as int);
    let mut j = lo;
    while p.len() <= hi - j
        invariant
            lo <= j <= hi <= v@.len(),
            p@.len() > 0,
            s == v@.subrange(lo as int, hi as int),
            find_seq_from(s, p@, 0) == find_seq_from(s, p@, j - lo),
        decreases hi - j,
    {
        if crate::strings::starts_with_at(v, j, hi, p) {
            assert(v@.subrange(j as int, hi as int).subrange(0, p@.len() as int) =~= s.subrange(
                j - lo,
                j - lo + p@.len(),
            ));
            return j - lo;
        }
        assert(v@.subrange(j as int, hi as int).subrange(0, p@.len() as int) =~= s.subrange(
            j - lo,
            j - lo + p@.len(),
        ));
        j += 1;
    }
    hi - lo
}

/// The slot of the field name `v[a..b]`.
fn key_index_of(v: &Vec<char>, a: usize, b: usize) -> (r: i8)
    requires
        a <= b <= v@.len(),
    ensures
        r as int == key_index(v@.subrange(a as int, b as int)),
{
    let names: [Vec<char>; 8] = [
        vec!['d', 'o', 'n', 'e'],
        vec!['u', 'n', 'p', 'u', 's', 'h', 'e', 'd'],
        vec!['a', 'w', 'a', 'i', 't', 's', ' ', 'h', 'u', 'm', 'a', 'n'],
        vec!['s', 't', 'i', 'l', 'l', ' ', 'r', 'u', 'n', 'n', 'i', 'n', 'g'],
        vec!['k', 'a', 'i', 'b', 'o', ' ', 'r', 'e', 'v', 'i', 'e', 'w'],
        vec!['w', 'o', 'r', 'k', 'f', 'l', 'o', 'w'],
        vec!['t', 's'],
        vec!['s', 'e', 's', 's', 'i', 'o', 'n'],
    ];
    if range_is(v, a, b, &names[0]) {
        return 0;
    }
    if range_is(v, a, b, &names[1]) {
        return 1;
    }
    if range_is(v, a, b, &names[2]) {
        return 2;
    }
    if range_is(v, a, b, &names[3]) {
        return 3;
    }
    if range_is(v, a, b, &names[4]) {
        return 4;
    }
    if range_is(v, a, b, &names[5]) {
        return 5;
    }
    if range_is(v, a, b, &names[6]) {
        return 6;
    }
    if range_is(v, a, b, &names[7]) {
        return 7;
    }
    -1
}

/// The slots as texts of `v`.
pub open spec fn slots_view(v: Seq<char>, slots: Seq<Option<(usize, usize)>>) -> Seq<
    Option<Seq<char>>,
> {
    slots.map_values(
        |o: Option<(usize, usize)>|
            match o {
                Some((a, b)) => Some(v.subrange(a as int, b as int)),
                None => None,
            },
    )
}

/// The text of a slot.
fn slot_text(v: &Vec<char>, o: Option<(usize, usize)>) -> (r: Option<String>)
    requires
        o matches Some((a, b)) ==> a <= b <= v@.len(),
    ensures
        opt_text(r) == match o {
            Some((a, b)) => Some(v@.subrange(a as int, b as int)),
            None => None,
        },
{
    match o {
        Some((a, b)) => {
            let t = crate::strings::copy_range(v, a, b);
            Some(string_of(t.as_slice()))
        },
        None => None,
    }
}

/// The fragment `v[x..pe]` applied to the slots (see [`field_step`]).
fn apply_fragment(v: &Vec<char>, x: usize, pe: usize, slots: Vec<Option<(usize, usize)>>) -> (r:
    Option<Vec<Option<(usize, usize)>>>)
    requires
        x <= pe <= v@.len(),
        slots@.len() == 8,
        forall|i: int| 0 <= i < 8 ==> (#[trigger] slots@[i] matches Some((a, b)) ==> a <= b <= v@.len()),
    ensures
        match r {
            None => field_step(v@.subrange(x as int, pe as int), slots_view(v@, slots@)) is None,
            Some(s2) => field_step(v@.subrange(x as int, pe as int), slots_view(v@, slots@)) == Some(
                slots_view(v@, s2@),
            ) && s2@.len() == 8 && forall|i: int|
                0 <= i < 8 ==> (#[trigger] s2@[i] matches Some((a, b)) ==> a <= b <= v@.len()),
        },
{
    let ghost piece = v@.subrange(x as int, pe as int);
    let colonv = vec![':', ' '];
    let kk = find_seq_in(v, x, pe, &colonv);
    proof {
        crate::models::lemma_find_seq_from(piece, colon(), 0);
    }
    if kk > pe - x || pe - x - kk < 2 {
        return None;
    }
    let (ka, kb) = crate::strings::trim_bounds(v, x, x + kk);
    let (va, vb) = crate::strings::trim_bounds(v, x + kk + 2, pe);
    proof {
        assert(piece.subrange(0, kk as int) =~= v@.subrange(x as int, x + kk));
        assert(piece.subrange(kk + 2, piece.len() as int) =~= v@.subrange(x + kk + 2, pe as int));
    }
    let idx = key_index_of(v, ka, kb);
    let mut slots = slots;
    let ghost before = slots@;
    if idx >= 0 {
        let iu = idx as usize;
        slots.set(iu, Some((va, vb)));
        proof {
            assert(slots_view(v@, slots@) =~= slots_view(v@, before).update(
                idx as int,
                Some(v@.subrange(va as int, vb as int)),
            ));
        }
    }
    Some(slots)
}

/// The field slots of the fragments of `v[x0..]` (see [`fields_of`]).
fn fields_loop(v: &Vec<char>, x0: usize) -> (r: Option<Vec<Option<(usize, usize)>>>)
    requires
        x0 <= v@.len(),
    ensures
        match r {
            None => fields_of(split_str(v@.subrange(x0 as int, v@.len() as int), sep()), no_fields())
                is None,
            Some(sl) => fields_of(
                split_str(v@.subrange(x0 as int, v@.len() as int), sep()),
                no_fields(),
            ) == Some(slots_view(v@, sl@)) && sl@.len() == 8 && forall|i: int|
                0 <= i < 8 ==> (#[trigger] sl@[i] matches Some((a, b)) ==> a <= b <= v@.len()),
        },
{
    let n = v.len();
    let sepv = vec![' ', '|', ' '];
    let mut slots: Vec<Option<(usize, usize)>> = vec![None, None, None, None, None, None, None, None];
    let mut x = x0;
    let ghost all = split_str(v@.subrange(x0 as int, n as int), sep());
    assert(slots_view(v@, slots@) =~= no_fields());
    loop
        invariant_except_break
            x0 <= x <= n,
            fields_of(all, no_fields()) == fields_of(
                split_str(v@.subrange(x as int, n as int), sep()),
                slots_view(v@, slots@),
            ),
        invariant
            n == v@.len(),
            sepv@ == sep(),
            all == split_str(v@.subrange(x0 as int, n as int), sep()),
            slots@.len() == 8,
            forall|i: int|
                0 <= i < 8 ==> (#[trigger] slots@[i] matches Some((a, b)) ==> a <= b <= n),
        ensures
            fields_of(all, no_fields()) == Some(slots_view(v@, slots@)),
        decreases n - x,
    {
        let ghost s = v@.subrange(x as int, n as int);
        let k = find_seq_in(v, x, n, &sepv);
        proof {
            crate::models::lemma_find_seq_from(s, sep(), 0);
        }
        let last = n - x < 3 || k > n - x - 3;
        let pe = if last {
            n
        } else {
            x + k
        };
        let ghost piece = v@.subrange(x as int, pe as int);
        let ghost frags = split_str(s, sep());
        proof {
            if last {
                assert(frags == seq![s]);
                assert(s =~= piece);
                assert(frags.drop_first() =~= Seq::<Seq<char>>::empty());
            } else {
                assert(s.subrange(0, k as int) =~= piece);
                assert(s.subrange(k + 3, s.len() as int) =~= v@.subrange(x + k + 3, n as int));
                assert(frags.drop_first() =~= split_str(v@.subrange(x + k + 3, n as int), sep()));
            }
            assert(frags[0] == piece);
        }
        let ghost oldv = slots_view(v@, slots@);
        let stepped = apply_fragment(v, x, pe, slots);
        proof {
            assert(fields_of(frags, oldv) == match field_step(frags[0], oldv) {
                None => None,
                Some(st2) => fields_of(frags.drop_first(), st2),
            });
        }
        slots = match stepped {
            Some(s2) => s2,
            None => {
                return None;
            },
        };
        if last {
            break;
        }
        x = x + k + 3;
    }
    Some(slots)
}

/// One worker-signoff line, parsed (see [`parse_worker`]); a malformed
/// line is `None`, never an error.
pub fn parse_worker_line(line: &str) -> (r: Option<WorkerSignoff>)
    ensures
        match r {
            Some(w) => parse_worker(line@) == Some(worker_view(w)),
            None => parse_worker(line@) is None,
        },
{
    let v = chars_of(line);
    let n = v.len();
    let pre = vec!['W', 'o', 'r', 'k', 'e', 'r', ' ', 's', 'i', 'g', 'n', 'o', 'f', 'f', ' ', '('];
    assert(v@.subrange(0, n as int) =~= v@);
    if !crate::strings::starts_with_at(&v, 0, n, &pre) {
        return None;
    }
    let rs: usize = 16;
    let close = crate::strings::find_at(&v, rs, n, ')');
    proof {
        crate::strings::lemma_find(v@.subrange(16, n as int), ')');
    }
    if close >= n - rs {
        return None;
    }
    let (wa, wb) = crate::strings::trim_bounds(&v, rs, rs + close);
    proof {
        assert(v@.subrange(16, n as int).subrange(0, close as int) =~= v@.subrange(16, 16 + close));
    }
    let sepv = vec![' ', '|', ' '];
    let aft = rs + close + 1;
    let ghost after = v@.subrange(aft as int, n as int);
    assert(v@.subrange(16, n as int).subrange(close + 1, n - 16) =~= after);
    if wb == wa || !crate::strings::starts_with_at(&v, aft, n, &sepv) {
        return None;
    }
    let x0 = aft + 3;
    assert(after.subrange(3, after.len() as int) =~= v@.subrange(x0 as int, n as int));
    let slots = match fields_loop(&v, x0) {
        Some(s) => s,
        None => return None,
    };
    let ghost st = slots_view(v@, slots@);
    if slots[0].is_none() || slots[1].is_none() || slots[2].is_none() || slots[3].is_none() {
        return None;
    }
    let worker = crate::strings::copy_range(&v, wa, wb);
    let done = slot_text(&v, slots[0]);
    let unpushed = slot_text(&v, slots[1]);
    let awaits_human = slot_text(&v, slots[2]);
    let still_running = slot_text(&v, slots[3]);
    let kaibo_review = slot_text(&v, slots[4]);
    let workflow = slot_text(&v, slots[5]);
    let ts = slot_text(&v, slots[6]);
    let session = slot_text(&v, slots[7]);
    match (done, unpushed, awaits_human, still_running) {
        (Some(done), Some(unpushed), Some(awaits_human), Some(still_running)) => {
            let w = WorkerSignoff {
                worker: string_of(worker.as_slice()),
                done,
                unpushed,
                awaits_human,
                still_running,
                kaibo_review,
                workflow,
                ts,
                session,
            };
            proof {
                assert(worker_view(w).1 =~= st);
            }
            Some(w)
        },
        _ => None,
    }
}

/// `name: value` for the field in slot `i`.
pub open spec fn kv(i: int, v: Seq<char>) -> Seq<char> {
    field_name(i) + colon() + v
}

/// The one-line entry `append_signoff` writes: the fixed token with the
/// role, the four status fields in guard order, the optional kaibo review,
/// then the server stamps `workflow`, `ts`, `session`.
pub open spec fn serialized(
    role: Seq<char>,
    done: Seq<char>,
    unpushed: Seq<char>,
    awaits_human: Seq<char>,
    still_running: Seq<char>,
    kaibo_review: Option<Seq<char>>,
    workflow: Seq<char>,
    ts: Seq<char>,
    session: Seq<char>,
) -> Seq<char> {
    p_worker() + role + seq![')'] + sep() + kv(0, done) + sep() + kv(1, unpushed) + sep() + kv(
        2,
        awaits_human,
    ) + sep() + kv(3, still_running) + (match kaibo_review {
        Some(k) => sep() + kv(4, k),
        None => Seq::empty(),
    }) + sep() + kv(5, workflow) + sep() + kv(6, ts) + sep() + kv(7, session)
}

/// Append a literal to a string.
fn push_text(out: &mut String, s: &str)
    ensures
        final(out)@ == old(out)@ + s@,
{
    out.append(s);
}

/// The one-line entry for these fields (see [`serialized`]).
pub fn serialize_line(
    role: &str,
    done: &str,
    unpushed: &str,
    awaits_human: &str,
    still_running: &str,
    kaibo_review: Option<&str>,
    workflow: &str,
    ts: &str,
    session: &str,
) -> (r: String)
    ensures
        r@ == serialized(
            role@,
            done@,
            unpushed@,
            awaits_human@,
            still_running@,
            match kaibo_review {
                Some(k) => Some(k@),
                None => None,
            },
            workflow@,
            ts@,
            session@,
        ),
{
    proof {
        reveal_strlit("Worker signoff (");
        reveal_strlit(") | done: ");
        reveal_strlit(" | unpushed: ");
        reveal_strlit(" | awaits human: ");
        reveal_strlit(" | still running: ");
        reveal_strlit(" | kaibo review: ");
        reveal_strlit(" | workflow: ");
        reveal_strlit(" | ts: ");
        reveal_strlit(" | session: ");
    }
    let mut line = String::from_str("Worker signoff (");
    push_text(&mut line, role);
    push_text(&mut line, ") | done: ");
    push_text(&mut line, done);
    push_text(&mut line, " | unpushed: ");
    push_text(&mut line, unpushed);
    push_text(&mut line, " | awaits human: ");
    push_text(&mut line, awaits_human);
    push_text(&mut line, " | still running: ");
    push_text(&mut line, still_running);
    let ghost mid = line@;
    match kaibo_review {
        Some(k) => {
            push_text(&mut line, " | kaibo review: ");
            push_text(&mut line, k);
        },
        None => {},
    }
    let ghost mid2 = line@;
    push_text(&mut line, " | workflow: ");
    push_text(&mut line, workflow);
    push_text(&mut line, " | ts: ");
    push_text(&mut line, ts);
    push_text(&mut line, " | session: ");
    push_text(&mut line, session);
    proof {
        assert(mid =~= p_worker() + role@ + seq![')'] + sep() + kv(0, done@) + sep() + kv(
            1,
            unpushed@,
        ) + sep() + kv(2, awaits_human@) + sep() + kv(3, still_running@));
        assert(line@ =~= mid2 + sep() + kv(5, workflow@) + sep() + kv(6, ts@) + sep() + kv(
            7,
            session@,
        ));
    }
    line
}

/// `s` has no `|`.
pub open spec fn no_bar(s: Seq<char>) -> bool {
    forall|i: int| 0 <= i < s.len() ==> s[i] != '|'
}

/// `find` skips a prefix without the character.
proof fn lemma_find_concat(a: Seq<char>, b: Seq<char>, c: char)
    requires
        forall|i: int| 0 <= i < a.len() ==> a[i] != c,
    ensures
        find(a + b, c) == a.len() + find(b, c),
    decreases a.len(),
{
    if a.len() > 0 {
        assert((a + b).drop_first() =~= a.drop_first() + b);
        lemma_find_concat(a.drop_first(), b, c);
    } else {
        assert(a + b =~= b);
    }
}

/// The first match of `p` at or after `i` is at `j` when nothing matches
/// in between.
proof fn lemma_find_seq_at(s: Seq<char>, p: Seq<char>, i: int, j: int)
    requires
        0 <= i <= j,
        p.len() > 0,
        j + p.len() <= s.len(),
        s.subrange(j, j + p.len()) == p,
        forall|m: int| i <= m < j ==> #[trigger] s.subrange(m, m + p.len()) != p,
    ensures
        find_seq_from(s, p, i) == j,
    decreases j - i,
{
    if i < j {
        lemma_find_seq_at(s, p, i + 1, j);
    }
}

/// Without a `|`, the separator occurs nowhere from `i` on.
proof fn lemma_find_seq_none(s: Seq<char>, i: int)
    requires
        0 <= i,
        no_bar(s),
    ensures
        find_seq_from(s, sep(), i) == s.len(),
    decreases s.len() - i,
{
    if i + 3 <= s.len() {
        assert(s.subrange(i, i + 3)[1] == s[i + 1]);
        lemma_find_seq_none(s, i + 1);
    }
}

/// Splitting `f | rest` at the separator, when `f` has no `|`.
proof fn lemma_split_cons(f: Seq<char>, rest: Seq<char>)
    requires
        no_bar(f),
    ensures
        split_str(f + sep() + rest, sep()) == seq![f] + split_str(rest, sep()),
{
    let s = f + sep() + rest;
    assert forall|m: int| 0 <= m < f.len() implies #[trigger] s.subrange(m, m + 3) != sep() by {
        assert(s.subrange(m, m + 3)[1] == s[m + 1]);
        if m + 1 < f.len() {
            assert(s[m + 1] == f[m + 1]);
        } else {
            assert(s[m + 1] == ' ');
        }
    }
    assert(s.subrange(f.len() as int, f.len() + 3int) =~= sep());
    lemma_find_seq_at(s, sep(), 0, f.len() as int);
    assert(s.subrange(0, f.len() as int) =~= f);
    assert(s.subrange(f.len() + 3int, s.len() as int) =~= rest);
}

/// A last piece without a `|` is split into itself.
proof fn lemma_split_last(f: Seq<char>)
    requires
        no_bar(f),
    ensures
        split_str(f, sep()) == seq![f],
{
    lemma_find_seq_none(f, 0);
}

/// The field names have no `|`, no `:` and no whitespace, and each is in
/// its own slot.
proof fn lemma_field_name(i: int)
    requires
        0 <= i < 8,
    ensures
        no_bar(field_name(i)),
        forall|j: int| 0 <= j < field_name(i).len() ==> field_name(i)[j] != ':',
        trim(field_name(i)) == field_name(i),
        key_index(field_name(i)) == i,
        field_name(i).len() > 0,
{
    let n = field_name(i);
    assert(!crate::strings::is_space(n[0]));
    assert(!crate::strings::is_space(n.last()));
    assert(crate::strings::lead_space(n) == 0);
    assert(crate::strings::trail_space(n) == 0);
    assert(n.subrange(0, n.len() as int) =~= n);
    assert(field_name(0)[0] == 'd' && field_name(1)[0] == 'u' && field_name(2)[0] == 'a');
    assert(field_name(3)[0] == 's' && field_name(4)[0] == 'k' && field_name(5)[0] == 'w');
    assert(field_name(6)[0] == 't' && field_name(7)[0] == 's');
    assert(field_name(3).len() != field_name(7).len());
}

/// `name: value` splits at its own `: `.
proof fn lemma_split_once_kv(i: int, v: Seq<char>)
    requires
        0 <= i < 8,
    ensures
        split_once(kv(i, v), colon()) == Some((field_name(i), v)),
{
    lemma_field_name(i);
    let s = kv(i, v);
    let n = field_name(i);
    assert forall|m: int| 0 <= m < n.len() implies #[trigger] s.subrange(m, m + 2) != colon() by {
        assert(s.subrange(m, m + 2)[0] == s[m]);
        assert(s[m] == n[m]);
    }
    assert(s.subrange(n.len() as int, n.len() + 2int) =~= colon());
    lemma_find_seq_at(s, colon(), 0, n.len() as int);
    assert(s.subrange(0, n.len() as int) =~= n);
    assert(s.subrange(n.len() + 2int, s.len() as int) =~= v);
}

/// `name: value` has no `|` when the value has none.
proof fn lemma_kv_no_bar(i: int, v: Seq<char>)
    requires
        0 <= i < 8,
        no_bar(v),
    ensures
        no_bar(kv(i, v)),
{
    lemma_field_name(i);
    assert forall|j: int| 0 <= j < kv(i, v).len() implies kv(i, v)[j] != '|' by {
        if j < field_name(i).len() {
        } else if j < field_name(i).len() + 2 {
        } else {
            assert(kv(i, v)[j] == v[j - field_name(i).len() - 2]);
        }
    }
}

/// One `name: value` fragment sets its slot to the trimmed value.
proof fn lemma_step_kv(i: int, v: Seq<char>, st: Seq<Option<Seq<char>>>)
    requires
        0 <= i < 8,
    ensures
        field_step(kv(i, v), st) == Some(st.update(i, Some(trim(v)))),
{
    lemma_split_once_kv(i, v);
    lemma_field_name(i);
}

/// The fields after the role: `done: … | … | session: …`.
pub open spec fn signoff_body(
    done: Seq<char>,
    unpushed: Seq<char>,
    awaits_human: Seq<char>,
    still_running: Seq<char>,
    kaibo_review: Option<Seq<char>>,
    workflow: Seq<char>,
    ts: Seq<char>,
    session: Seq<char>,
) -> Seq<char> {
    let tail5 = kv(5, workflow) + sep() + (kv(6, ts) + sep() + kv(7, session));
    let tail3: Seq<char> = match kaibo_review {
        Some(k) => kv(3, still_running) + sep() + (kv(4, k) + sep() + tail5),
        None => kv(3, still_running) + sep() + tail5,
    };
    kv(0, done) + sep() + (kv(1, unpushed) + sep() + (kv(2, awaits_human) + sep() + tail3))
}

/// The fragments of [`signoff_body`], in order.
pub open spec fn signoff_frags(
    done: Seq<char>,
    unpushed: Seq<char>,
    awaits_human: Seq<char>,
    still_running: Seq<char>,
    kaibo_review: Option<Seq<char>>,
    workflow: Seq<char>,
    ts: Seq<char>,
    session: Seq<char>,
) -> Seq<Seq<char>> {
    let last: Seq<Seq<char>> = seq![kv(5, workflow), kv(6, ts), kv(7, session)];
    let mid: Seq<Seq<char>> = match kaibo_review {
        Some(k) => seq![kv(3, still_running), kv(4, k)] + last,
        None => seq![kv(3, still_running)] + last,
    };
    seq![kv(0, done), kv(1, unpushed), kv(2, awaits_human)] + mid
}

/// The serialized line is the fixed token, the role, `)`, the separator
/// and the fields.
#[verifier::rlimit(50)]
proof fn lemma_serialized_shape(
    role: Seq<char>,
    done: Seq<char>,
    unpushed: Seq<char>,
    awaits_human: Seq<char>,
    still_running: Seq<char>,
    kaibo_review: Option<Seq<char>>,
    workflow: Seq<char>,
    ts: Seq<char>,
    session: Seq<char>,
)
    ensures
        serialized(role, done, unpushed, awaits_human, still_running, kaibo_review, workflow, ts, session)
            == p_worker() + (role + (seq![')'] + (sep() + signoff_body(
            done,
            unpushed,
            awaits_human,
            still_running,
            kaibo_review,
            workflow,
            ts,
            session,
        )))),
{
    let tail5 = kv(5, workflow) + sep() + (kv(6, ts) + sep() + kv(7, session));
    assert(sep() + kv(5, workflow) + sep() + kv(6, ts) + sep() + kv(7, session) =~= sep() + tail5);
    assert(serialized(role, done, unpushed, awaits_human, still_running, kaibo_review, workflow, ts, session)
        =~= p_worker() + (role + (seq![')'] + (sep() + signoff_body(
        done,
        unpushed,
        awaits_human,
        still_running,
        kaibo_review,
        workflow,
        ts,
        session,
    )))));
}

/// The prefix of a signoff line: the role is cut at its `)` and trimmed,
/// and the fields follow the separator.
proof fn lemma_parse_prefix(role: Seq<char>, body: Seq<char>)
    requires
        forall|i: int| 0 <= i < role.len() ==> role[i] != ')',
        trim(role).len() > 0,
    ensures
        parse_worker(p_worker() + (role + (seq![')'] + (sep() + body)))) == finish(
            trim(role),
            fields_of(split_str(body, sep()), no_fields()),
        ),
{
    let after = sep() + body;
    let rest = role + (seq![')'] + after);
    let line = p_worker() + rest;
    assert(line.subrange(0, 16) =~= p_worker());
    assert(line.subrange(16, line.len() as int) =~= rest);
    lemma_find_concat(role, seq![')'] + after, ')');
    assert(rest.subrange(0, role.len() as int) =~= role);
    assert(rest.subrange(role.len() + 1int, rest.len() as int) =~= after);
    assert(after.subrange(0, 3) =~= sep());
    assert(after.subrange(3, after.len() as int) =~= body);
}

/// The fields split into their fragments.
proof fn lemma_body_frags(
    done: Seq<char>,
    unpushed: Seq<char>,
    awaits_human: Seq<char>,
    still_running: Seq<char>,
    kaibo_review: Option<Seq<char>>,
    workflow: Seq<char>,
    ts: Seq<char>,
    session: Seq<char>,
)
    requires
        no_bar(done),
        no_bar(unpushed),
        no_bar(awaits_human),
        no_bar(still_running),
        kaibo_review matches Some(k) ==> no_bar(k),
        no_bar(workflow),
        no_bar(ts),
        no_bar(session),
    ensures
        split_str(
            signoff_body(done, unpushed, awaits_human, still_running, kaibo_review, workflow, ts, session),
            sep(),
        ) == signoff_frags(
            done,
            unpushed,
            awaits_human,
            still_running,
            kaibo_review,
            workflow,
            ts,
            session,
        ),
{
    lemma_kv_no_bar(0, done);
    lemma_kv_no_bar(1, unpushed);
    lemma_kv_no_bar(2, awaits_human);
    lemma_kv_no_bar(3, still_running);
    lemma_kv_no_bar(5, workflow);
    lemma_kv_no_bar(6, ts);
    lemma_kv_no_bar(7, session);
    let t7 = kv(7, session);
    let t6 = kv(6, ts) + sep() + t7;
    let tail5 = kv(5, workflow) + sep() + t6;
    lemma_split_last(t7);
    lemma_split_cons(kv(6, ts), t7);
    lemma_split_cons(kv(5, workflow), t6);
    let last: Seq<Seq<char>> = seq![kv(5, workflow), kv(6, ts), kv(7, session)];
    assert(split_str(tail5, sep()) =~= last);
    let tail3: Seq<char> = match kaibo_review {
        Some(k) => kv(3, still_running) + sep() + (kv(4, k) + sep() + tail5),
        None => kv(3, still_running) + sep() + tail5,
    };
    match kaibo_review {
        Some(k) => {
            lemma_kv_no_bar(4, k);
            lemma_split_cons(kv(4, k), tail5);
            lemma_split_cons(kv(3, still_running), kv(4, k) + sep() + tail5);
            assert(split_str(tail3, sep()) =~= seq![kv(3, still_running), kv(4, k)] + last);
        },
        None => {
            lemma_split_cons(kv(3, still_running), tail5);
            assert(split_str(tail3, sep()) =~= seq![kv(3, still_running)] + last);
        },
    }
    lemma_split_cons(kv(2, awaits_human), tail3);
    lemma_split_cons(kv(1, unpushed), kv(2, awaits_human) + sep() + tail3);
    lemma_split_cons(kv(0, done), kv(1, unpushed) + sep() + (kv(2, awaits_human) + sep() + tail3));
    assert(split_str(
        signoff_body(done, unpushed, awaits_human, still_running, kaibo_review, workflow, ts, session),
        sep(),
    ) =~= signoff_frags(done, unpushed, awaits_human, still_running, kaibo_review, workflow, ts, session));
}

/// The slots the fragments fill.
pub open spec fn roundtrip_slots(
    done: Seq<char>,
    unpushed: Seq<char>,
    awaits_human: Seq<char>,
    still_running: Seq<char>,
    kaibo_review: Option<Seq<char>>,
    workflow: Seq<char>,
    ts: Seq<char>,
    session: Seq<char>,
) -> Seq<Option<Seq<char>>> {
    seq![
        Some(trim(done)),
        Some(trim(unpushed)),
        Some(trim(awaits_human)),
        Some(trim(still_running)),
        match kaibo_review {
            Some(k) => Some(trim(k)),
            None => None,
        },
        Some(trim(workflow)),
        Some(trim(ts)),
        Some(trim(session)),
    ]
}

/// The fragments fill every slot with its trimmed value.
proof fn lemma_frags_fields(
    done: Seq<char>,
    unpushed: Seq<char>,
    awaits_human: Seq<char>,
    still_running: Seq<char>,
    kaibo_review: Option<Seq<char>>,
    workflow: Seq<char>,
    ts: Seq<char>,
    session: Seq<char>,
)
    ensures
        fields_of(
            signoff_frags(done, unpushed, awaits_human, still_running, kaibo_review, workflow, ts, session),
            no_fields(),
        ) == Some(
            roundtrip_slots(
                done,
                unpushed,
                awaits_human,
                still_running,
                kaibo_review,
                workflow,
                ts,
                session,
            ),
        ),
{
    let s0 = no_fields();
    let s1 = s0.update(0, Some(trim(done)));
    let s2 = s1.update(1, Some(trim(unpushed)));
    let s3 = s2.update(2, Some(trim(awaits_human)));
    let s4 = s3.update(3, Some(trim(still_running)));
    let s5: Seq<Option<Seq<char>>> = match kaibo_review {
        Some(k) => s4.update(4, Some(trim(k))),
        None => s4,
    };
    let s6 = s5.update(5, Some(trim(workflow)));
    let s7 = s6.update(6, Some(trim(ts)));
    let s8 = s7.update(7, Some(trim(session)));
    lemma_step_kv(0, done, s0);
    lemma_step_kv(1, unpushed, s1);
    lemma_step_kv(2, awaits_human, s2);
    lemma_step_kv(3, still_running, s3);
    lemma_step_kv(5, workflow, s5);
    lemma_step_kv(6, ts, s6);
    lemma_step_kv(7, session, s7);
    let f7: Seq<Seq<char>> = seq![kv(7, session)];
    let f6: Seq<Seq<char>> = seq![kv(6, ts), kv(7, session)];
    let last: Seq<Seq<char>> = seq![kv(5, workflow), kv(6, ts), kv(7, session)];
    assert(f7.drop_first() =~= Seq::<Seq<char>>::empty());
    assert(f6.drop_first() =~= f7);
    assert(last.drop_first() =~= f6);
    assert(fields_of(Seq::<Seq<char>>::empty(), s8) == Some(s8));
    assert(f7[0] == kv(7, session));
    assert(fields_of(f7, s7) == Some(s8));
    assert(fields_of(f6, s6) == Some(s8));
    assert(fields_of(last, s5) == Some(s8));
    let mid: Seq<Seq<char>> = match kaibo_review {
        Some(k) => seq![kv(3, still_running), kv(4, k)] + last,
        None => seq![kv(3, still_running)] + last,
    };
    match kaibo_review {
        Some(k) => {
            lemma_step_kv(4, k, s4);
            let m4: Seq<Seq<char>> = seq![kv(4, k)] + last;
            assert(m4.drop_first() =~= last);
            assert(fields_of(m4, s4) == Some(s8));
            assert(mid.drop_first() =~= m4);
        },
        None => {
            assert(mid.drop_first() =~= last);
        },
    }
    assert(fields_of(mid, s3) == Some(s8));
    let all = signoff_frags(done, unpushed, awaits_human, still_running, kaibo_review, workflow, ts, session);
    let a2: Seq<Seq<char>> = seq![kv(2, awaits_human)] + mid;
    let a1: Seq<Seq<char>> = seq![kv(1, unpushed)] + a2;
    assert(a2.drop_first() =~= mid);
    assert(a1.drop_first() =~= a2);
    assert(all =~= seq![kv(0, done)] + a1);
    assert(all.drop_first() =~= a1);
    assert(fields_of(a2, s2) == Some(s8));
    assert(fields_of(a1, s1) == Some(s8));
    assert(fields_of(all, s0) == Some(s8));
    assert(s8 =~= roundtrip_slots(
        done,
        unpushed,
        awaits_human,
        still_running,
        kaibo_review,
        workflow,
        ts,
        session,
    ));
}

/// What `read_signoff` parses back out of the line `append_signoff`
/// writes: the role and every field, trimmed, in their slots, the kaibo
/// review only when it was given. This holds whenever the role has no `)`
/// and something other than whitespace, and no field value contains a `|`
/// (the field separator).
#[verifier::rlimit(50)]
pub proof fn lemma_signoff_roundtrip(
    role: Seq<char>,
    done: Seq<char>,
    unpushed: Seq<char>,
    awaits_human: Seq<char>,
    still_running: Seq<char>,
    kaibo_review: Option<Seq<char>>,
    workflow: Seq<char>,
    ts: Seq<char>,
    session: Seq<char>,
)
    requires
        forall|i: int| 0 <= i < role.len() ==> role[i] != ')',
        trim(role).len() > 0,
        no_bar(done),
        no_bar(unpushed),
        no_bar(awaits_human),
        no_bar(still_running),
        kaibo_review matches Some(k) ==> no_bar(k),
        no_bar(workflow),
        no_bar(ts),
        no_bar(session),
    ensures
        parse_worker(
            serialized(
                role,
                done,
                unpushed,
                awaits_human,
                still_running,
                kaibo_review,
                workflow,
                ts,
                session,
            ),
        ) == Some(
            (
                trim(role),
                roundtrip_slots(
                    done,
                    unpushed,
                    awaits_human,
                    still_running,
                    kaibo_review,
                    workflow,
                    ts,
                    session,
                ),
            ),
        ),
{
    lemma_serialized_shape(role, done, unpushed, awaits_human, still_running, kaibo_review, workflow, ts, session);
    let body = signoff_body(done, unpushed, awaits_human, still_running, kaibo_review, workflow, ts, session);
    lemma_parse_prefix(role, body);
    lemma_body_frags(done, unpushed, awaits_human, still_running, kaibo_review, workflow, ts, session);
    lemma_frags_fields(done, unpushed, awaits_human, still_running, kaibo_review, workflow, ts, session);
}

/// The validated fields of an `append_signoff` call.
#[derive(Clone, Debug)]
pub struct SignoffArgs {
    pub role: String,
    pub workflow: String,
    pub done: String,
    pub unpushed: String,
    pub awaits_human: String,
    pub still_running: String,
    pub kaibo_review: Option<String>,
}

/// The fields the `append_signoff` schema allows.
pub open spec fn signoff_keys() -> Seq<Seq<char>> {
    seq![
        "role"@,
        "workflow"@,
        "done"@,
        "unpushed"@,
        "awaits_human"@,
        "still_running"@,
        "kaibo_review"@,
    ]
}

/// The text of a string argument.
pub open spec fn str_arg(v: Option<ArgValue>) -> Option<Seq<char>> {
    match v {
        Some(ArgValue::Str(s)) => Some(s@),
        _ => None,
    }
}

/// An optional argument is absent or a string.
pub open spec fn opt_ok(v: Option<ArgValue>) -> bool {
    match v {
        None => true,
        Some(ArgValue::Str(_)) => true,
        _ => false,
    }
}

/// The text of an optional string argument, or its default.
pub open spec fn or_default(v: Option<ArgValue>, d: Seq<char>) -> Seq<char> {
    match v {
        Some(ArgValue::Str(s)) => s@,
        _ => d,
    }
}

/// `s` has no line break.
pub open spec fn one_line(s: Seq<char>) -> bool {
    forall|i: int| 0 <= i < s.len() ==> s[i] != '\n' && s[i] != '\r'
}

/// The arguments `append_signoff` accepts: a JSON object with only schema
/// fields; `role`, `workflow` and `done` strings; the optional fields
/// strings when present; a role with something besides whitespace and no
/// parenthesis; `done` one of `yes`, `no`; and no line break anywhere.
pub open spec fn signoff_args_ok(fields: Seq<(String, ArgValue)>) -> bool {
    let role = str_arg(lookup(fields, "role"@));
    let wf = str_arg(lookup(fields, "workflow"@));
    let done = str_arg(lookup(fields, "done"@));
    &&& unknown_keys(fields, signoff_keys(), fields.len() as int).len() == 0
    &&& role is Some && wf is Some && done is Some
    &&& opt_ok(lookup(fields, "unpushed"@)) && opt_ok(lookup(fields, "awaits_human"@)) && opt_ok(
        lookup(fields, "still_running"@),
    ) && opt_ok(lookup(fields, "kaibo_review"@))
    &&& trim(role->0).len() > 0
    &&& forall|i: int| 0 <= i < role->0.len() ==> role->0[i] != '(' && role->0[i] != ')'
    &&& (done->0 == "yes"@ || done->0 == "no"@)
    &&& one_line(role->0) && one_line(wf->0) && one_line(done->0)
    &&& one_line(or_default(lookup(fields, "unpushed"@), Seq::empty()))
    &&& one_line(or_default(lookup(fields, "awaits_human"@), Seq::empty()))
    &&& one_line(or_default(lookup(fields, "still_running"@), Seq::empty()))
    &&& one_line(or_default(lookup(fields, "kaibo_review"@), Seq::empty()))
}

/// Whether `v` contains `c`.
fn has_char(v: &Vec<char>, c: char) -> (r: bool)
    ensures
        r == exists|i: int| 0 <= i < v@.len() && v@[i] == c,
{
    let mut i: usize = 0;
    while i < v.len()
        invariant
            i <= v@.len(),
            forall|j: int| 0 <= j < i ==> v@[j] != c,
        decreases v.len() - i,
    {
        if v[i] == c {
            return true;
        }
        i += 1;
    }
    false
}

/// Whether `s` has no line break.
fn is_one_line(s: &String) -> (r: bool)
    ensures
        r == one_line(s@),
{
    let v = chars_of(s.as_str());
    !has_char(&v, '\n') && !has_char(&v, '\r')
}

/// `append_signoff`'s refusal of a required field `key` that is missing
/// or not a string.
pub open spec fn required_refusal(f: Seq<(String, ArgValue)>, key: Seq<char>) -> Seq<char> {
    match lookup(f, key) {
        None => "append_signoff refused: missing required field '"@ + key + "'"@,
        Some(v) => "append_signoff refused: field '"@ + key + "' must be a string (got "@ + kind_of(v)
            + ")"@,
    }
}

/// `append_signoff`'s refusal of an optional field `key` that is present
/// and not a string.
pub open spec fn optional_refusal(f: Seq<(String, ArgValue)>, key: Seq<char>) -> Seq<char> {
    "append_signoff refused: field '"@ + key + "' must be a string when present (got "@ + kind_of(
        lookup(f, key)->0,
    ) + ")"@
}

/// `append_signoff`'s refusal of a field holding a line break.
pub open spec fn newline_text(field: Seq<char>) -> Seq<char> {
    "append_signoff refused: '"@ + field + "' contains a newline — the entry is exactly ONE line"@
}

/// What `append_signoff` answers arguments it refuses, in the order it
/// checks them: not an object; the unknown fields; `role`, `workflow`,
/// `done` missing or not strings; an optional field that is not a
/// string; a blank role; a role with a parenthesis; a `done` outside
/// `yes`, `no`; then the first field, in schema order, with a line break.
pub open spec fn signoff_refusal(args: Option<Seq<(String, ArgValue)>>) -> Seq<char> {
    match args {
        None => "append_signoff refused: arguments must be a JSON object"@,
        Some(f) => {
            let u = unknown_keys(f, signoff_keys(), f.len() as int);
            let role = str_arg(lookup(f, "role"@));
            let wf = str_arg(lookup(f, "workflow"@));
            let done = str_arg(lookup(f, "done"@));
            if u.len() > 0 {
                unknown_list_text(
                    "append_signoff"@,
                    u,
                    "role, workflow, done, unpushed, awaits_human, still_running, kaibo_review"@,
                )
            } else if role is None {
                required_refusal(f, "role"@)
            } else if wf is None {
                required_refusal(f, "workflow"@)
            } else if done is None {
                required_refusal(f, "done"@)
            } else if !opt_ok(lookup(f, "unpushed"@)) {
                optional_refusal(f, "unpushed"@)
            } else if !opt_ok(lookup(f, "awaits_human"@)) {
                optional_refusal(f, "awaits_human"@)
            } else if !opt_ok(lookup(f, "still_running"@)) {
                optional_refusal(f, "still_running"@)
            } else if !opt_ok(lookup(f, "kaibo_review"@)) {
                optional_refusal(f, "kaibo_review"@)
            } else if trim(role->0).len() == 0 {
                "append_signoff refused: 'role' must not be empty — it fills the fixed token `Worker signoff (<role>)`"@
            } else if !(forall|i: int|
                0 <= i < role->0.len() ==> role->0[i] != '(' && role->0[i] != ')') {
                "append_signoff refused: 'role' may not contain '(' or ')' — the fixed token is `Worker signoff (<role>)`"@
            } else if !(done->0 == "yes"@ || done->0 == "no"@) {
                "append_signoff refused: 'done' must be \"yes\" or \"no\" (schema enum; got "@
                    + debug_str_of(done->0) + ")"@
            } else if !one_line(role->0) {
                newline_text("role"@)
            } else if !one_line(wf->0) {
                newline_text("workflow"@)
            } else if !one_line(done->0) {
                newline_text("done"@)
            } else if !one_line(or_default(lookup(f, "unpushed"@), Seq::empty())) {
                newline_text("unpushed"@)
            } else if !one_line(or_default(lookup(f, "awaits_human"@), Seq::empty())) {
                newline_text("awaits_human"@)
            } else if !one_line(or_default(lookup(f, "still_running"@), Seq::empty())) {
                newline_text("still_running"@)
            } else {
                newline_text("kaibo_review"@)
            }
        },
    }
}

/// The string value of a required field, or the refusal naming it.
fn require_string(fields: &Vec<(String, ArgValue)>, key: &str) -> (r: Result<String, String>)
    ensures
        match r {
            Ok(s) => str_arg(lookup(fields@, key@)) == Some(s@),
            Err(m) => str_arg(lookup(fields@, key@)) is None && m@ == required_refusal(
                fields@,
                key@,
            ),
        },
{
    match get_arg(fields, key) {
        None => {
            let mut m = String::from_str("append_signoff refused: missing required field '");
            m.append(key);
            m.append("'");
            Err(m)
        },
        Some(ArgValue::Str(s)) => Ok(s.clone()),
        Some(other) => {
            let mut m = String::from_str("append_signoff refused: field '");
            m.append(key);
            m.append("' must be a string (got ");
            m.append(crate::args::value_kind(other));
            m.append(")");
            Err(m)
        },
    }
}

/// The string value of an optional field (`None` when absent), or the
/// refusal naming it.
fn optional_string(fields: &Vec<(String, ArgValue)>, key: &str) -> (r: Result<Option<String>, String>)
    ensures
        match r {
            Ok(Some(s)) => lookup(fields@, key@) == Some(ArgValue::Str(s)),
            Ok(None) => lookup(fields@, key@) is None,
            Err(m) => !opt_ok(lookup(fields@, key@)) && m@ == optional_refusal(fields@, key@),
        },
{
    match get_arg(fields, key) {
        None => Ok(None),
        Some(ArgValue::Str(s)) => Ok(Some(s.clone())),
        Some(other) => {
            let mut m = String::from_str("append_signoff refused: field '");
            m.append(key);
            m.append("' must be a string when present (got ");
            m.append(crate::args::value_kind(other));
            m.append(")");
            Err(m)
        },
    }
}

/// The refusal of a field that holds a line break.
fn newline_refusal(field: &str) -> (m: String)
    ensures
        m@ == newline_text(field@),
{
    let mut m = String::from_str("append_signoff refused: '");
    m.append(field);
    m.append("' contains a newline — the entry is exactly ONE line");
    m
}

/// Validate the arguments of `append_signoff` (see [`signoff_args_ok`]);
/// the optional status fields default to `none`, `none` and `no`.
pub fn parse_args(args: &Option<Vec<(String, ArgValue)>>) -> (r: Result<SignoffArgs, String>)
    ensures
        (r is Ok) == (args matches Some(f) && signoff_args_ok(f@)),
        r matches Ok(a) ==> args matches Some(f) && Some(a.role@) == str_arg(lookup(f@, "role"@))
            && Some(a.workflow@) == str_arg(lookup(f@, "workflow"@)) && Some(a.done@) == str_arg(
            lookup(f@, "done"@),
        ) && a.unpushed@ == or_default(lookup(f@, "unpushed"@), "none"@) && a.awaits_human@
            == or_default(lookup(f@, "awaits_human"@), "none"@) && a.still_running@ == or_default(
            lookup(f@, "still_running"@),
            "no"@,
        ) && opt_text(a.kaibo_review) == str_arg(lookup(f@, "kaibo_review"@)),
        r matches Err(m) ==> m@ == signoff_refusal(args_view(*args)),
{
    let fields = match args {
        Some(f) => f,
        None => return Err(String::from_str("append_signoff refused: arguments must be a JSON object")),
    };
    let allowed = vec![
        String::from_str("role"),
        String::from_str("workflow"),
        String::from_str("done"),
        String::from_str("unpushed"),
        String::from_str("awaits_human"),
        String::from_str("still_running"),
        String::from_str("kaibo_review"),
    ];
    let unknown = unknown_fields(fields, &allowed);
    proof {
        assert(allowed@.map_values(|s: String| s@) =~= signoff_keys());
    }
    if unknown.len() > 0 {
        return Err(
            unknown_list_refusal(
                "append_signoff",
                &unknown,
                "role, workflow, done, unpushed, awaits_human, still_running, kaibo_review",
            ),
        );
    }
    let role = match require_string(fields, "role") {
        Ok(s) => s,
        Err(e) => return Err(e),
    };
    let workflow = match require_string(fields, "workflow") {
        Ok(s) => s,
        Err(e) => return Err(e),
    };
    let done = match require_string(fields, "done") {
        Ok(s) => s,
        Err(e) => return Err(e),
    };
    let unpushed_opt = match optional_string(fields, "unpushed") {
        Ok(s) => s,
        Err(e) => return Err(e),
    };
    let awaits_opt = match optional_string(fields, "awaits_human") {
        Ok(s) => s,
        Err(e) => return Err(e),
    };
    let still_opt = match optional_string(fields, "still_running") {
        Ok(s) => s,
        Err(e) => return Err(e),
    };
    let kaibo_review = match optional_string(fields, "kaibo_review") {
        Ok(s) => s,
        Err(e) => return Err(e),
    };
    proof {
        reveal_strlit("none");
        reveal_strlit("no");
        reveal_strlit("yes");
    }
    let unpushed = match unpushed_opt {
        Some(s) => s,
        None => String::from_str("none"),
    };
    let awaits_human = match awaits_opt {
        Some(s) => s,
        None => String::from_str("none"),
    };
    let still_running = match still_opt {
        Some(s) => s,
        None => String::from_str("no"),
    };
    let rv = chars_of(role.as_str());
    let (ra, rb) = crate::strings::trim_bounds(&rv, 0, rv.len());
    assert(rv@.subrange(0, rv@.len() as int) =~= rv@);
    if ra == rb {
        return Err(
            String::from_str(
                "append_signoff refused: 'role' must not be empty — it fills the fixed token `Worker signoff (<role>)`",
            ),
        );
    }
    if has_char(&rv, '(') || has_char(&rv, ')') {
        return Err(
            String::from_str(
                "append_signoff refused: 'role' may not contain '(' or ')' — the fixed token is `Worker signoff (<role>)`",
            ),
        );
    }
    let yes = String::from_str("yes");
    let no = String::from_str("no");
    if !crate::text::same_text(&done, &yes) && !crate::text::same_text(&done, &no) {
        let mut m = String::from_str(
            "append_signoff refused: 'done' must be \"yes\" or \"no\" (schema enum; got ",
        );
        let q = crate::pattern::debug_text(done.as_str());
        m.append(q.as_str());
        m.append(")");
        return Err(m);
    }
    let empty = String::new();
    let kr = match &kaibo_review {
        Some(k) => k,
        None => &empty,
    };
    // Every field, in schema order, must be exactly one line.
    if !is_one_line(&role) {
        return Err(newline_refusal("role"));
    }
    if !is_one_line(&workflow) {
        return Err(newline_refusal("workflow"));
    }
    if !is_one_line(&done) {
        return Err(newline_refusal("done"));
    }
    if !is_one_line(&unpushed) {
        return Err(newline_refusal("unpushed"));
    }
    if !is_one_line(&awaits_human) {
        return Err(newline_refusal("awaits_human"));
    }
    if !is_one_line(&still_running) {
        return Err(newline_refusal("still_running"));
    }
    if !is_one_line(kr) {
        return Err(newline_refusal("kaibo_review"));
    }
    proof {
        assert(one_line(Seq::<char>::empty()));
        assert(one_line("none"@));
        assert(one_line("no"@));
    }
    Ok(SignoffArgs { role, workflow, done, unpushed, awaits_human, still_running, kaibo_review })
}

} // verus!
