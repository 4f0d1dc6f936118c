//! The `.locks/` append mutex: the holder record a lock file carries, how
//! its fields are read back, the release check (a holder removes only its
//! own acquisition), the holder's silence, and the bounded acquire loop's
//! decisions.
use vstd::prelude::*;

use crate::models::{find_seq_exec, find_seq_from, lemma_find_seq_from};
use crate::strings::is_space;
use crate::text::{all_digits, chars_of, decimal, decimal_digits, digits_value, is_digit, string_of};

verus! {

/// A holder whose record is this many seconds old (or older) has gone
/// silent, and its lock may be taken over.
pub const STALE_AFTER_SECS: u64 = 30;

/// Attempts at the create before a fresh holder is given up on.
pub const MAX_ACQUIRE_ATTEMPTS: u32 = 50;

/// Milliseconds between two attempts while a fresh holder holds the lock.
pub const RETRY_SLEEP_MS: u64 = 100;

/// One acquisition: the identity the holder record publishes.
#[derive(Clone, Copy, Debug)]
pub struct LockToken {
    pub pid: u32,
    pub nonce: u64,
    pub epoch: u64,
}

/// The holder record: `pid=<pid> nonce=<nonce> epoch=<epoch> session=<who>`
/// and a line break, the session last (it may hold whitespace).
pub open spec fn lock_text(t: LockToken, who: Seq<char>) -> Seq<char> {
    "pid="@ + decimal(t.pid as nat) + " nonce="@ + decimal(t.nonce as nat) + " epoch="@ + decimal(
        t.epoch as nat,
    ) + " session="@ + who + "\n"@
}

/// The index of the first whitespace character of `s`, or its length.
pub open spec fn first_space(s: Seq<char>) -> int
    decreases s.len(),
{
    if s.len() == 0 {
        0
    } else if is_space(s[0]) {
        0
    } else {
        1 + first_space(s.drop_first())
    }
}

/// `first_space` lies within the sequence.
proof fn lemma_first_space_bound(s: Seq<char>)
    ensures
        0 <= first_space(s) <= s.len(),
    decreases s.len(),
{
    if s.len() > 0 && !is_space(s[0]) {
        lemma_first_space_bound(s.drop_first());
    }
}

/// The value of the field `key` in a holder record: what follows the
/// first `key=` up to the next whitespace; `None` when there is no such
/// text or it is empty.
pub open spec fn lock_field(contents: Seq<char>, key: Seq<char>) -> Option<Seq<char>> {
    let needle = key + "="@;
    let k = find_seq_from(contents, needle, 0);
    if k + needle.len() > contents.len() {
        None
    } else {
        let rest = contents.subrange(k + needle.len(), contents.len() as int);
        let e = first_space(rest);
        if e <= 0 {
            None
        } else {
            Some(rest.subrange(0, e))
        }
    }
}

/// Whether a holder record names the acquisition `t`.
pub open spec fn records(contents: Seq<char>, t: LockToken) -> bool {
    &&& lock_field(contents, "pid"@) == Some(decimal(t.pid as nat))
    &&& lock_field(contents, "nonce"@) == Some(decimal(t.nonce as nat))
    &&& lock_field(contents, "epoch"@) == Some(decimal(t.epoch as nat))
}

/// The holder record of `t` for the writer `who`.
pub fn lock_contents(t: &LockToken, who: &str) -> (r: String)
    ensures
        r@ == lock_text(*t, who@),
{
    let mut out: Vec<char> = Vec::new();
    let pid = decimal_digits(t.pid as u64);
    let nonce = decimal_digits(t.nonce);
    let epoch = decimal_digits(t.epoch);
    let w = chars_of(who);
    let a = chars_of("pid=");
    let b = chars_of(" nonce=");
    let c = chars_of(" epoch=");
    let d = chars_of(" session=");
    crate::text::push_all(&mut out, a.as_slice());
    crate::text::push_all(&mut out, pid.as_slice());
    crate::text::push_all(&mut out, b.as_slice());
    crate::text::push_all(&mut out, nonce.as_slice());
    crate::text::push_all(&mut out, c.as_slice());
    crate::text::push_all(&mut out, epoch.as_slice());
    crate::text::push_all(&mut out, d.as_slice());
    crate::text::push_all(&mut out, w.as_slice());
    out.push('\n');
    proof {
        reveal_strlit("\n");
        assert(out@ =~= lock_text(*t, who@));
    }
    string_of(out.as_slice())
}

/// The index of the first whitespace character of `v[lo..]`, relative to
/// `lo`.
fn first_space_at(v: &Vec<char>, lo: usize) -> (r: usize)
    requires
        lo <= v@.len(),
    ensures
        r == first_space(v@.subrange(lo as int, v@.len() as int)),
{
    let mut i = lo;
    while i < v.len() && !crate::strings::char_is_whitespace(v[i])
        invariant
            lo <= i <= v@.len(),
            first_space(v@.subrange(lo as int, v@.len() as int)) == (i - lo) + first_space(
                v@.subrange(i as int, v@.len() as int),
            ),
        decreases v.len() - i,
    {
        proof {
            let w = v@.subrange(i as int, v@.len() as int);
            assert(w.drop_first() =~= v@.subrange(i + 1, v@.len() as int));
        }
        i += 1;
    }
    i - lo
}

/// The value of the field `key` in lock-file contents (see
/// [`lock_field`]).
pub fn parse_lock_field(contents: &str, key: &str) -> (r: Option<String>)
    ensures
        match r {
            Some(v) => lock_field(contents@, key@) == Some(v@),
            None => lock_field(contents@, key@) is None,
        },
{
    let v = chars_of(contents);
    let mut needle = chars_of(key);
    needle.push('=');
    proof {
        reveal_strlit("=");
        assert(needle@ =~= key@ + "="@);
    }
    let k = find_seq_exec(&v, &needle, 0);
    proof {
        lemma_find_seq_from(v@, needle@, 0);
    }
    if needle.len() > v.len() || k > v.len() - needle.len() {
        return None;
    }
    let start = k + needle.len();
    let e = first_space_at(&v, start);
    proof {
        lemma_first_space_bound(v@.subrange(start as int, v@.len() as int));
    }
    if e == 0 {
        return None;
    }
    let out = crate::strings::copy_range(&v, start, start + e);
    proof {
        assert(v@.subrange(start as int, v@.len() as int).subrange(0, e as int) =~= v@.subrange(
            start as int,
            start + e,
        ));
    }
    Some(string_of(out.as_slice()))
}

/// Whether lock-file contents still record the acquisition `t` — the
/// check a release makes before it removes the file.
pub fn lock_is_ours(contents: &str, t: &LockToken) -> (r: bool)
    ensures
        r == records(contents@, *t),
{
    proof {
        reveal_strlit("pid");
        reveal_strlit("nonce");
        reveal_strlit("epoch");
    }
    let p = parse_lock_field(contents, "pid");
    let n = parse_lock_field(contents, "nonce");
    let e = parse_lock_field(contents, "epoch");
    let pw = string_of(decimal_digits(t.pid as u64).as_slice());
    let nw = string_of(decimal_digits(t.nonce).as_slice());
    let ew = string_of(decimal_digits(t.epoch).as_slice());
    let pid_ok = match &p {
        Some(x) => crate::text::same_text(x, &pw),
        None => false,
    };
    let nonce_ok = match &n {
        Some(x) => crate::text::same_text(x, &nw),
        None => false,
    };
    let epoch_ok = match &e {
        Some(x) => crate::text::same_text(x, &ew),
        None => false,
    };
    pid_ok && nonce_ok && epoch_ok
}

/// `find_seq_from` finds `p` at `k` when it occurs there and at no earlier
/// position.
proof fn lemma_find_first(s: Seq<char>, p: Seq<char>, i: int, k: int)
    requires
        0 <= i <= k,
        k + p.len() <= s.len(),
        p.len() > 0,
        s.subrange(k, k + p.len()) == p,
        forall|j: int| i <= j < k ==> #[trigger] s.subrange(j, j + p.len()) != p,
    ensures
        find_seq_from(s, p, i) == k,
    decreases k - i,
{
    if i < k {
        lemma_find_first(s, p, i + 1, k);
    }
}

/// A decimal rendering holds no whitespace, no letter and no `=`.
proof fn lemma_decimal_chars(n: nat)
    ensures
        forall|i: int|
            0 <= i < decimal(n).len() ==> is_digit(#[trigger] decimal(n)[i]) && !is_space(
                decimal(n)[i],
            ),
{
    crate::text::lemma_decimal(n);
}

/// The first whitespace of a decimal rendering followed by a space is
/// right after the rendering.
proof fn lemma_first_space_after_digits(d: Seq<char>, rest: Seq<char>)
    requires
        forall|i: int| 0 <= i < d.len() ==> !is_space(#[trigger] d[i]),
        rest.len() > 0,
        is_space(rest[0]),
    ensures
        first_space(d + rest) == d.len(),
    decreases d.len(),
{
    if d.len() > 0 {
        assert((d + rest).drop_first() =~= d.drop_first() + rest);
        lemma_first_space_after_digits(d.drop_first(), rest);
    } else {
        assert(d + rest =~= rest);
    }
}

/// The literals a holder record is made of, as characters.
proof fn lemma_record_literals()
    ensures
        "pid="@ == seq!['p', 'i', 'd', '='],
        " nonce="@ == seq![' ', 'n', 'o', 'n', 'c', 'e', '='],
        " epoch="@ == seq![' ', 'e', 'p', 'o', 'c', 'h', '='],
        " session="@ == seq![' ', 's', 'e', 's', 's', 'i', 'o', 'n', '='],
        "\n"@ == seq!['\n'],
        "pid"@ + "="@ == seq!['p', 'i', 'd', '='],
        "nonce"@ + "="@ == seq!['n', 'o', 'n', 'c', 'e', '='],
        "epoch"@ + "="@ == seq!['e', 'p', 'o', 'c', 'h', '='],
{
    reveal_strlit("pid=");
    reveal_strlit(" nonce=");
    reveal_strlit(" epoch=");
    reveal_strlit(" session=");
    reveal_strlit("\n");
    reveal_strlit("pid");
    reveal_strlit("nonce");
    reveal_strlit("epoch");
    reveal_strlit("=");
    assert("pid"@ + "="@ =~= seq!['p', 'i', 'd', '=']);
    assert("nonce"@ + "="@ =~= seq!['n', 'o', 'n', 'c', 'e', '=']);
    assert("epoch"@ + "="@ =~= seq!['e', 'p', 'o', 'c', 'h', '=']);
}

/// The `pid` field of a holder record.
proof fn lemma_record_pid(t: LockToken, who: Seq<char>)
    ensures
        lock_field(lock_text(t, who), "pid"@) == Some(decimal(t.pid as nat)),
{
    lemma_record_literals();
    let dp = decimal(t.pid as nat);
    let dn = decimal(t.nonce as nat);
    let de = decimal(t.epoch as nat);
    let s = lock_text(t, who);
    lemma_decimal_chars(t.pid as nat);
    crate::text::lemma_decimal(t.pid as nat);
    let tail = " session="@ + who + "\n"@;
    let np = "pid"@ + "="@;
    assert(s.subrange(0, 4) =~= np);
    lemma_find_first(s, np, 0, 0);
    let rp = s.subrange(4, s.len() as int);
    assert(rp =~= dp + (" nonce="@ + dn + " epoch="@ + de + tail));
    lemma_first_space_after_digits(dp, " nonce="@ + dn + " epoch="@ + de + tail);
    assert(rp.subrange(0, dp.len() as int) =~= dp);
}

/// The `nonce` field of a holder record.
proof fn lemma_record_nonce(t: LockToken, who: Seq<char>)
    ensures
        lock_field(lock_text(t, who), "nonce"@) == Some(decimal(t.nonce as nat)),
{
    lemma_record_literals();
    let dp = decimal(t.pid as nat);
    let dn = decimal(t.nonce as nat);
    let de = decimal(t.epoch as nat);
    let s = lock_text(t, who);
    lemma_decimal_chars(t.pid as nat);
    lemma_decimal_chars(t.nonce as nat);
    crate::text::lemma_decimal(t.nonce as nat);
    let tail = " session="@ + who + "\n"@;
    let nn = "nonce"@ + "="@;
    let kn: int = 4 + dp.len() as int + 1;
    assert(s.subrange(kn, kn + 6) =~= nn);
    assert forall|j: int| 0 <= j < kn implies #[trigger] s.subrange(j, j + nn.len()) != nn by {
        assert(s.subrange(j, j + nn.len())[0] == s[j]);
        if j >= 4 && j < 4 + dp.len() {
            assert(s[j] == dp[j - 4]);
        }
    }
    lemma_find_first(s, nn, 0, kn);
    let rn = s.subrange(kn + 6, s.len() as int);
    assert(rn =~= dn + (" epoch="@ + de + tail));
    lemma_first_space_after_digits(dn, " epoch="@ + de + tail);
    assert(rn.subrange(0, dn.len() as int) =~= dn);
}

/// The `epoch` field of a holder record.
proof fn lemma_record_epoch(t: LockToken, who: Seq<char>)
    ensures
        lock_field(lock_text(t, who), "epoch"@) == Some(decimal(t.epoch as nat)),
{
    lemma_record_literals();
    let dp = decimal(t.pid as nat);
    let dn = decimal(t.nonce as nat);
    let de = decimal(t.epoch as nat);
    let s = lock_text(t, who);
    lemma_decimal_chars(t.pid as nat);
    lemma_decimal_chars(t.nonce as nat);
    lemma_decimal_chars(t.epoch as nat);
    crate::text::lemma_decimal(t.epoch as nat);
    let tail = " session="@ + who + "\n"@;
    let ne = "epoch"@ + "="@;
    let kn: int = 4 + dp.len() as int + 1;
    let ke: int = kn + 6 + dn.len() as int + 1;
    assert(s.subrange(ke, ke + 6) =~= ne);
    assert forall|j: int| 0 <= j < ke implies #[trigger] s.subrange(j, j + ne.len()) != ne by {
        assert(s.subrange(j, j + ne.len())[0] == s[j]);
        assert(s.subrange(j, j + ne.len())[1] == s[j + 1]);
        if j >= 4 && j < 4 + dp.len() {
            assert(s[j] == dp[j - 4]);
        }
        if j >= kn + 6 && j < kn + 6 + dn.len() {
            assert(s[j] == dn[j - kn - 6]);
        }
    }
    lemma_find_first(s, ne, 0, ke);
    let re = s.subrange(ke + 6, s.len() as int);
    assert(re =~= de + tail);
    lemma_first_space_after_digits(de, tail);
    assert(re.subrange(0, de.len() as int) =~= de);
}

/// A holder record gives back, field by field, the identity it was written
/// with: whatever the writer's name, reading `pid`, `nonce` and `epoch`
/// out of `lock_text(t, who)` yields `t`'s own numbers — so a holder
/// always recognises its own lock on release.
pub proof fn lemma_lock_record_roundtrip(t: LockToken, who: Seq<char>)
    ensures
        records(lock_text(t, who), t),
{
    lemma_record_pid(t, who);
    lemma_record_nonce(t, who);
    lemma_record_epoch(t, who);
}

/// How long a lock's holder has been silent: the age of the `epoch` its
/// record publishes when that reads as a number no later than `now`,
/// otherwise the age of the file's modification time (`mtime_age`, which
/// covers a holder that crashed before writing its record). `None` — the
/// age cannot be established — counts as fresh.
pub open spec fn silence(
    contents: Option<Seq<char>>,
    now: Option<u64>,
    mtime_age: Option<u64>,
) -> Option<int> {
    let published = match contents {
        Some(c) => match lock_field(c, "epoch"@) {
            Some(raw) => u64_text_value(raw),
            None => None,
        },
        None => None,
    };
    match (published, now) {
        (Some(h), Some(n)) if h <= n => Some(n - h),
        _ => match mtime_age {
            Some(a) => Some(a as int),
            None => None,
        },
    }
}

/// What `u64::from_str` accepts: an optional `+`, then one or more ASCII
/// digits whose value fits in a `u64`.
pub open spec fn u64_text_value(s: Seq<char>) -> Option<int> {
    let d = if s.len() > 0 && s[0] == '+' {
        s.drop_first()
    } else {
        s
    };
    if d.len() == 0 || !all_digits(d) || digits_value(d) > u64::MAX {
        None
    } else {
        Some(digits_value(d))
    }
}

/// `u64::from_str`.
pub fn parse_u64(s: &str) -> (r: Option<u64>)
    ensures
        match r {
            Some(v) => u64_text_value(s@) == Some(v as int),
            None => u64_text_value(s@) is None,
        },
{
    let v = chars_of(s);
    let start: usize = if v.len() > 0 && v[0] == '+' { 1 } else { 0 };
    let ghost d = v@.subrange(start as int, v@.len() as int);
    proof {
        if start == 1 {
            assert(d =~= v@.drop_first());
        } else {
            assert(d =~= v@);
        }
    }
    if start == v.len() {
        return None;
    }
    let mut acc: u64 = 0;
    let mut i = start;
    while i < v.len()
        invariant
            start <= i <= v@.len(),
            v@ == s@,
            d == v@.subrange(start as int, v@.len() as int),
            d == (if s@.len() > 0 && s@[0] == '+' {
                s@.drop_first()
            } else {
                s@
            }),
            all_digits(v@.subrange(start as int, i as int)),
            acc == digits_value(v@.subrange(start as int, i as int)),
        decreases v.len() - i,
    {
        let c = v[i];
        let ghost pre = v@.subrange(start as int, i as int);
        let ghost next = v@.subrange(start as int, i + 1);
        assert(next.drop_last() =~= pre);
        if !('0' <= c && c <= '9') {
            proof {
                assert(d[i - start] == c);
                assert(!is_digit(d[i - start]));
            }
            return None;
        }
        let digit = (c as u32 - '0' as u32) as u64;
        if acc > (u64::MAX - digit) / 10 {
            proof {
                crate::text::lemma_digits_value_bound(pre);
                assert(digits_value(next) == acc * 10 + digit);
                assert(acc * 10 + digit > u64::MAX) by (nonlinear_arith)
                    requires acc > (u64::MAX - digit) / 10, digit <= 9;
                if all_digits(d) {
                    assert(d.subrange(0, (i + 1 - start) as int) =~= next);
                    lemma_digits_prefix_mono(d, (i + 1 - start) as int);
                }
            }
            return None;
        }
        acc = acc * 10 + digit;
        proof {
            assert(digits_value(next) == digits_value(pre) * 10 + (c as int - 48));
            assert forall|j: int| 0 <= j < next.len() implies is_digit(#[trigger] next[j]) by {
                if j < pre.len() {
                    assert(next[j] == pre[j]);
                }
            }
        }
        i += 1;
    }
    proof {
        assert(v@.subrange(start as int, v@.len() as int) =~= d);
    }
    Some(acc)
}

/// A longer all-digit prefix is worth at least as much as a shorter one.
proof fn lemma_digits_prefix_mono(d: Seq<char>, k: int)
    requires
        0 <= k <= d.len(),
        all_digits(d),
    ensures
        digits_value(d) >= digits_value(d.subrange(0, k)),
    decreases d.len() - k,
{
    if k < d.len() {
        lemma_digits_prefix_mono(d, k + 1);
        let a = d.subrange(0, k);
        let b = d.subrange(0, k + 1);
        assert(b.drop_last() =~= a);
        assert(is_digit(d[k]));
        assert(b.last() == d[k]);
        crate::text::lemma_digits_value_bound(a);
        assert(all_digits(a)) by {
            assert forall|j: int| 0 <= j < a.len() implies is_digit(#[trigger] a[j]) by {
                assert(a[j] == d[j]);
            }
        }
        crate::text::lemma_digits_value_bound(a);
        assert(digits_value(b) == digits_value(a) * 10 + (d[k] as int - 48));
    } else {
        assert(d.subrange(0, k) =~= d);
    }
}

/// [`silence`].
pub fn holder_silence(contents: &Option<String>, now: Option<u64>, mtime_age: Option<u64>) -> (r:
    Option<u64>)
    ensures
        match r {
            Some(a) => silence(opt_chars(*contents), now, mtime_age) == Some(a as int),
            None => silence(opt_chars(*contents), now, mtime_age) is None,
        },
{
    proof {
        reveal_strlit("epoch");
    }
    let published = match contents {
        Some(c) => match parse_lock_field(c.as_str(), "epoch") {
            Some(raw) => parse_u64(raw.as_str()),
            None => None,
        },
        None => None,
    };
    match (published, now) {
        (Some(h), Some(n)) => {
            if h <= n {
                return Some(n - h);
            }
        },
        _ => {},
    }
    mtime_age
}

/// The characters of an optional string.
pub open spec fn opt_chars(o: Option<String>) -> Option<Seq<char>> {
    match o {
        Some(s) => Some(s@),
        None => None,
    }
}

/// Whether a holder silent for `age` seconds is taken over.
pub open spec fn is_stale(age: Option<int>) -> bool {
    age matches Some(a) && a >= STALE_AFTER_SECS
}

/// What the acquire loop does after an attempt at the create.
#[derive(PartialEq, Eq, Structural, Debug)]
pub enum LockAttempt {
    /// The create succeeded: publish the holder record.
    Created,
    /// The file exists; `took_over` tells whether a stale holder's record
    /// was removed in this very attempt.
    Held { took_over: bool },
}

/// The acquire loop's next move.
#[derive(PartialEq, Eq, Structural, Debug)]
pub enum LockMove {
    /// The lock is ours.
    Publish,
    /// A stale holder was removed: try the create again at once.
    RetryNow,
    /// A fresh holder holds it: sleep [`RETRY_SLEEP_MS`], then retry.
    Wait,
    /// The bounded retry is spent: refuse, having written nothing.
    GiveUp,
}

/// The acquire loop's decision after its `attempts`-th attempt: a
/// created file is published, a stale takeover retries at once (spending
/// no budget on a dead holder), a fresh holder is waited out until the
/// [`MAX_ACQUIRE_ATTEMPTS`]-th attempt, and then given up on.
pub fn next_lock_move(attempts: u32, outcome: LockAttempt) -> (m: LockMove)
    ensures
        outcome == LockAttempt::Created ==> m == LockMove::Publish,
        outcome == (LockAttempt::Held { took_over: true }) ==> m == LockMove::RetryNow,
        outcome == (LockAttempt::Held { took_over: false }) ==> m == (if attempts
            >= MAX_ACQUIRE_ATTEMPTS {
            LockMove::GiveUp
        } else {
            LockMove::Wait
        }),
{
    match outcome {
        LockAttempt::Created => LockMove::Publish,
        LockAttempt::Held { took_over } => {
            if took_over {
                LockMove::RetryNow
            } else if attempts >= MAX_ACQUIRE_ATTEMPTS {
                LockMove::GiveUp
            } else {
                LockMove::Wait
            }
        },
    }
}

/// Whether a holder silent for `age` seconds is stale (see [`is_stale`]).
pub fn stale(age: Option<u64>) -> (r: bool)
    ensures
        r == is_stale(
            match age {
                Some(a) => Some(a as int),
                None => None,
            },
        ),
{
    match age {
        Some(a) => a >= STALE_AFTER_SECS,
        None => false,
    }
}

/// The refusal when the bounded retry is spent.
pub fn exhausted_refusal(who: &str, lock_name: &str) -> (m: String)
    ensures
        m@ == who@ + " refused: .locks/"@ + lock_name@
            + " is held by another writer and the bounded retry (50 x 100 ms) is exhausted; retry, or the stale takeover will reclaim it once the holder goes silent"@,
{
    let mut m = String::from_str(who);
    m.append(" refused: .locks/");
    m.append(lock_name);
    m.append(
        " is held by another writer and the bounded retry (50 x 100 ms) is exhausted; retry, or the stale takeover will reclaim it once the holder goes silent",
    );
    m
}

} // verus!
