use vstd::prelude::*;

verus! {

/// The characters of `s`, in order.
pub fn chars_of(s: &str) -> (v: Vec<char>)
    ensures
        v@ == s@,
{
    let mut v: Vec<char> = Vec::new();
    for c in it: s.chars()
        invariant
            v@ == it.seq().take(it.index() as int),
            it.seq() == s@,
    {
        v.push(c);
    }
    v
}

/// `String::from_iter` over a slice of characters: the string whose
/// characters are exactly `v`, in order.
#[verifier::external_body]
pub fn string_of(v: &[char]) -> (s: String)
    ensures
        s@ == v@,
{
    v.iter().collect::<String>()
}


/// The character of the decimal digit `d` (`0 <= d <= 9`).
pub open spec fn digit_char(d: int) -> char {
    (d + 48) as char
}

/// Whether `c` is an ASCII decimal digit.
pub open spec fn is_digit(c: char) -> bool {
    '0' <= c && c <= '9'
}

/// The value of the ASCII digit `c`.
pub open spec fn digit_value(c: char) -> int {
    c as int - 48
}

/// The decimal digits of `n`, most significant first, without leading
/// zeros (`0` renders as `"0"`).
pub open spec fn decimal(n: nat) -> Seq<char>
    decreases n,
{
    if n < 10 {
        seq![digit_char(n as int)]
    } else {
        decimal(n / 10) + seq![digit_char((n % 10) as int)]
    }
}

/// `n` zero characters.
pub open spec fn zeros(n: int) -> Seq<char>
    decreases n,
{
    if n <= 0 {
        Seq::empty()
    } else {
        zeros(n - 1).push('0')
    }
}

/// The rendering of `n` under the `{:0w}` format: the sign when negative,
/// then the decimal digits of the magnitude, zero-padded after the sign so
/// the whole rendering is at least `w` characters wide.
pub open spec fn padded(n: int, w: int) -> Seq<char> {
    let mag = if n < 0 { -n } else { n };
    let sign: Seq<char> = if n < 0 { seq!['-'] } else { Seq::empty() };
    let digits = decimal(mag as nat);
    sign + zeros(w - sign.len() - digits.len()) + digits
}

/// The value of a sequence of decimal digits (most significant first).
pub open spec fn digits_value(s: Seq<char>) -> int
    decreases s.len(),
{
    if s.len() == 0 {
        0
    } else {
        digits_value(s.drop_last()) * 10 + digit_value(s.last())
    }
}

/// Whether every character of `s` is an ASCII digit.
pub open spec fn all_digits(s: Seq<char>) -> bool {
    forall|i: int| 0 <= i < s.len() ==> is_digit(#[trigger] s[i])
}

/// `10^k`.
pub open spec fn pow10(k: nat) -> nat
    decreases k,
{
    if k == 0 { 1 } else { 10 * pow10((k - 1) as nat) }
}

/// A number below `10^k` has at most `k` decimal digits.
pub proof fn lemma_decimal_len(n: nat, k: nat)
    requires
        k >= 1,
        n < pow10(k),
    ensures
        decimal(n).len() <= k,
    decreases n,
{
    if n >= 10 {
        assert(k >= 2) by {
            if k == 1 {
                assert(pow10(1) == 10) by {
                    reveal_with_fuel(pow10, 2);
                }
            }
        }
        assert(n / 10 < pow10((k - 1) as nat));
        lemma_decimal_len(n / 10, (k - 1) as nat);
    }
}

/// Every `u64` has at most 20 decimal digits.
pub proof fn lemma_decimal_len_u64(n: u64)
    ensures
        decimal(n as nat).len() <= 20,
{
    assert(pow10(20) == 100000000000000000000) by {
        reveal_with_fuel(pow10, 21);
    }
    lemma_decimal_len(n as nat, 20);
}

pub fn digit_to_char(d: u64) -> (c: char)
    requires
        d < 10,
    ensures
        c == digit_char(d as int),
        is_digit(c),
{
    let b: u8 = (48 + d) as u8;
    b as char
}

/// The decimal digits of `n`.
pub fn decimal_digits(n: u64) -> (v: Vec<char>)
    ensures
        v@ == decimal(n as nat),
        v@.len() >= 1,
    decreases n,
{
    if n < 10 {
        let mut v: Vec<char> = Vec::new();
        v.push(digit_to_char(n));
        v
    } else {
        let mut v = decimal_digits(n / 10);
        v.push(digit_to_char(n % 10));
        v
    }
}

/// Append `n` zero characters to `out`.
pub fn push_zeros(out: &mut Vec<char>, n: i64)
    ensures
        final(out)@ == old(out)@ + zeros(n as int),
    decreases if n < 0 { 0 } else { n as int },
{
    if n > 0 {
        push_zeros(out, n - 1);
        out.push('0');
        proof {
            assert(zeros(n as int) == zeros(n - 1).push('0'));
        }
    } else {
        assert(zeros(n as int) =~= Seq::<char>::empty());
    }
}

/// Append the `{:0w}` rendering of `n` to `out`.
pub fn push_padded(out: &mut Vec<char>, n: i64, w: usize)
    requires
        w <= 64,
    ensures
        final(out)@ == old(out)@ + padded(n as int, w as int),
{
    let mag: u64 = if n < 0 { (-(n as i128)) as u64 } else { n as u64 };
    let digits = decimal_digits(mag);
    proof {
        lemma_decimal_len_u64(mag);
    }
    let sign_len: i64 = if n < 0 { 1 } else { 0 };
    if n < 0 {
        out.push('-');
    }
    let pad: i64 = (w as i64) - sign_len - (digits.len() as i64);
    push_zeros(out, pad);
    let mut i: usize = 0;
    let ghost before = out@;
    while i < digits.len()
        invariant
            i <= digits.len(),
            out@ == before + digits@.take(i as int),
        decreases digits.len() - i,
    {
        out.push(digits[i]);
        i += 1;
        proof {
            assert(digits@.take(i as int) == digits@.take(i - 1).push(digits@[i - 1]));
        }
    }
    proof {
        assert(digits@.take(digits.len() as int) == digits@);
        let sign: Seq<char> = if n < 0 { seq!['-'] } else { Seq::empty() };
        let m: int = if n < 0 { -n } else { n as int };
        assert(m == mag);
        assert(padded(n as int, w as int) == sign + zeros(pad as int) + digits@);
        assert(old(out)@ + padded(n as int, w as int) =~= old(out)@ + sign + zeros(pad as int) + digits@);
    }
}

/// Append every character of `s` to `out`.
pub fn push_all(out: &mut Vec<char>, s: &[char])
    ensures
        final(out)@ == old(out)@ + s@,
{
    let mut i: usize = 0;
    let ghost before = out@;
    while i < s.len()
        invariant
            i <= s.len(),
            out@ == before + s@.take(i as int),
        decreases s.len() - i,
    {
        out.push(s[i]);
        i += 1;
        proof {
            assert(s@.take(i as int) == s@.take(i - 1).push(s@[i - 1]));
        }
    }
    proof {
        assert(s@.take(s.len() as int) == s@);
    }
}

/// The digit character of `d` is the ASCII digit whose value is `d`.
pub proof fn lemma_digit_char(d: int)
    requires
        0 <= d <= 9,
    ensures
        digit_char(d) as int == d + 48,
        digit_value(digit_char(d)) == d,
        is_digit(digit_char(d)),
{
}

/// Every character of `decimal(n)` is a digit, and the digits spell `n`.
pub proof fn lemma_decimal(n: nat)
    ensures
        all_digits(decimal(n)),
        digits_value(decimal(n)) == n,
        decimal(n).len() >= 1,
    decreases n,
{
    lemma_digit_char((n % 10) as int);
    if n < 10 {
        assert(decimal(n).drop_last() =~= Seq::<char>::empty());
        assert(digits_value(Seq::<char>::empty()) == 0);
        assert(digits_value(decimal(n)) == digits_value(decimal(n).drop_last()) * 10
            + digit_value(decimal(n).last()));
    }
    if n >= 10 {
        lemma_decimal(n / 10);
        let s = decimal(n);
        assert(s.drop_last() == decimal(n / 10));
        assert(s.last() == digit_char((n % 10) as int));
        assert(digits_value(s) == digits_value(decimal(n / 10)) * 10 + (n % 10));
        assert((n / 10) * 10 + n % 10 == n);
        assert forall|i: int| 0 <= i < s.len() implies is_digit(#[trigger] s[i]) by {
            if i < s.len() - 1 {
                assert(s[i] == decimal(n / 10)[i]);
            }
        }
    }
}

/// The value of digits after leading zeros is the value of the digits.
pub proof fn lemma_zeros_value(k: int, s: Seq<char>)
    ensures
        digits_value(zeros(k) + s) == digits_value(s) + digits_value(zeros(k)) * pow10(s.len()),
        digits_value(zeros(k)) == 0,
        all_digits(zeros(k)),
        zeros(k).len() == if k < 0 { 0 } else { k },
    decreases s.len(), if k < 0 { 0 } else { k },
{
    if k > 0 {
        lemma_zeros_value(k - 1, Seq::empty());
        assert(zeros(k - 1) + Seq::<char>::empty() == zeros(k - 1));
        assert(zeros(k).drop_last() == zeros(k - 1));
        assert forall|i: int| 0 <= i < zeros(k).len() implies is_digit(#[trigger] zeros(k)[i]) by {
            if i < k - 1 {
                assert(zeros(k)[i] == zeros(k - 1)[i]);
            }
        }
    }
    if s.len() == 0 {
        assert(zeros(k) + s == zeros(k));
        assert(pow10(0) == 1);
    } else {
        lemma_zeros_value(k, s.drop_last());
        assert((zeros(k) + s).drop_last() == zeros(k) + s.drop_last());
        assert((zeros(k) + s).last() == s.last());
        assert(pow10(s.len()) == 10 * pow10((s.len() - 1) as nat));
    }
}

/// `{:0w}` of a number with at most `w` digits is exactly `w` digits
/// spelling the number.
pub proof fn lemma_padded_exact(n: int, w: nat)
    requires
        0 <= n < pow10(w),
        w >= 1,
    ensures
        padded(n, w as int).len() == w,
        all_digits(padded(n, w as int)),
        digits_value(padded(n, w as int)) == n,
{
    let d = decimal(n as nat);
    lemma_decimal(n as nat);
    lemma_decimal_len(n as nat, w);
    lemma_zeros_value(w - d.len(), d);
    assert(padded(n, w as int) == Seq::<char>::empty() + zeros(w - d.len()) + d);
    assert(Seq::<char>::empty() + zeros(w - d.len()) == zeros(w - d.len()));
    let p = zeros(w - d.len()) + d;
    assert forall|i: int| 0 <= i < p.len() implies is_digit(#[trigger] p[i]) by {
        if i < zeros(w - d.len()).len() {
            assert(p[i] == zeros(w - d.len())[i]);
        } else {
            assert(p[i] == d[i - zeros(w - d.len()).len()]);
        }
    }
}

/// A sequence of `k` digits is worth less than `10^k`.
pub proof fn lemma_digits_value_bound(s: Seq<char>)
    requires
        all_digits(s),
    ensures
        0 <= digits_value(s) < pow10(s.len()),
    decreases s.len(),
{
    if s.len() > 0 {
        assert(all_digits(s.drop_last())) by {
            assert forall|i: int| 0 <= i < s.drop_last().len() implies is_digit(
                #[trigger] s.drop_last()[i],
            ) by {
                assert(s.drop_last()[i] == s[i]);
            }
        }
        lemma_digits_value_bound(s.drop_last());
        assert(is_digit(s[s.len() - 1]));
        assert(pow10(s.len()) == 10 * pow10((s.len() - 1) as nat));
    }
}

/// Whether `v[lo..hi]` is made of ASCII digits only.
pub fn all_digits_in(v: &[char], lo: usize, hi: usize) -> (r: bool)
    requires
        lo <= hi <= v.len(),
    ensures
        r == all_digits(v@.subrange(lo as int, hi as int)),
{
    let mut i = lo;
    while i < hi
        invariant
            lo <= i <= hi <= v.len(),
            forall|j: int| lo <= j < i ==> is_digit(#[trigger] v@[j]),
        decreases hi - i,
    {
        if !('0' <= v[i] && v[i] <= '9') {
            assert(!is_digit(v@.subrange(lo as int, hi as int)[i - lo]));
            return false;
        }
        i += 1;
    }
    assert forall|j: int| 0 <= j < hi - lo implies is_digit(
        #[trigger] v@.subrange(lo as int, hi as int)[j],
    ) by {
        assert(v@.subrange(lo as int, hi as int)[j] == v@[lo + j]);
    }
    true
}

/// The value of the decimal digits `v[lo..hi]`.
pub fn digits_in(v: &[char], lo: usize, hi: usize) -> (r: u64)
    requires
        lo <= hi <= v.len(),
        hi - lo <= 18,
        all_digits(v@.subrange(lo as int, hi as int)),
    ensures
        r == digits_value(v@.subrange(lo as int, hi as int)),
{
    let mut r: u64 = 0;
    let mut i = lo;
    assert(pow10(18) == 1000000000000000000) by {
        reveal_with_fuel(pow10, 19);
    }
    while i < hi
        invariant
            lo <= i <= hi <= v.len(),
            hi - lo <= 18,
            all_digits(v@.subrange(lo as int, hi as int)),
            pow10(18) == 1000000000000000000,
            r == digits_value(v@.subrange(lo as int, i as int)),
        decreases hi - i,
    {
        let ghost pre = v@.subrange(lo as int, i as int);
        let ghost next = v@.subrange(lo as int, i + 1);
        assert(next.drop_last() == pre);
        assert(next.last() == v@[i as int]);
        assert(v@[i as int] == v@.subrange(lo as int, hi as int)[i - lo]);
        assert(all_digits(next)) by {
            assert forall|j: int| 0 <= j < next.len() implies is_digit(#[trigger] next[j]) by {
                assert(next[j] == v@.subrange(lo as int, hi as int)[j]);
            }
        }
        proof {
            lemma_digits_value_bound(next);
            lemma_pow10_mono((i + 1 - lo) as nat, 18);
        }
        let d = (v[i] as u32 - 48) as u64;
        r = r * 10 + d;
        i += 1;
    }
    r
}

/// `10^a <= 10^b` when `a <= b`.
pub proof fn lemma_pow10_mono(a: nat, b: nat)
    requires
        a <= b,
    ensures
        pow10(a) <= pow10(b),
    decreases b,
{
    if a < b {
        lemma_pow10_mono(a, (b - 1) as nat);
    }
}

/// The `{:0w}` rendering is at least `w` characters wide.
pub proof fn lemma_padded_len(n: int, w: int)
    ensures
        padded(n, w).len() >= w,
        padded(n, w).len() >= 1,
{
    let mag = if n < 0 { -n } else { n };
    let sign: Seq<char> = if n < 0 { seq!['-'] } else { Seq::empty() };
    let digits = decimal(mag as nat);
    lemma_decimal(mag as nat);
    lemma_zeros_value(w - sign.len() - digits.len(), Seq::empty());
}

/// Whether two strings hold the same characters.
pub fn same_text(a: &String, b: &String) -> (r: bool)
    ensures
        r == (a@ == b@),
{
    let x = chars_of(a.as_str());
    let y = chars_of(b.as_str());
    if x.len() != y.len() {
        return false;
    }
    let mut i: usize = 0;
    while i < x.len()
        invariant
            i <= x@.len(),
            x@.len() == y@.len(),
            x@ == a@,
            y@ == b@,
            forall|j: int| 0 <= j < i ==> x@[j] == y@[j],
        decreases x.len() - i,
    {
        if x[i] != y[i] {
            assert(x@[i as int] != y@[i as int]);
            return false;
        }
        i += 1;
    }
    assert(x@ =~= y@);
    true
}

/// `a` sorts strictly before `b`: the order of `String`'s `Ord`, which
/// compares UTF-8 bytes and so orders by characters, a proper prefix first.
pub open spec fn text_less(a: Seq<char>, b: Seq<char>) -> bool
    decreases a.len(),
{
    if a.len() == 0 {
        b.len() > 0
    } else if b.len() == 0 {
        false
    } else if a[0] != b[0] {
        a[0] < b[0]
    } else {
        text_less(a.drop_first(), b.drop_first())
    }
}

/// Strictly ordered texts differ.
pub proof fn lemma_text_less_ne(a: Seq<char>, b: Seq<char>)
    requires
        text_less(a, b),
    ensures
        a != b,
    decreases a.len(),
{
    if a.len() > 0 && b.len() > 0 && a[0] == b[0] {
        lemma_text_less_ne(a.drop_first(), b.drop_first());
        if a == b {
            assert(a.drop_first() == b.drop_first());
        }
    }
}

/// `text_less` is transitive.
pub proof fn lemma_text_less_trans(a: Seq<char>, b: Seq<char>, c: Seq<char>)
    requires
        text_less(a, b),
        text_less(b, c),
    ensures
        text_less(a, c),
    decreases a.len(),
{
    if a.len() > 0 && b.len() > 0 && c.len() > 0 && a[0] == b[0] && b[0] == c[0] {
        lemma_text_less_trans(a.drop_first(), b.drop_first(), c.drop_first());
    }
}

/// Two different texts are ordered one way or the other.
pub proof fn lemma_text_less_total(a: Seq<char>, b: Seq<char>)
    requires
        a != b,
    ensures
        text_less(a, b) || text_less(b, a),
    decreases a.len(),
{
    if a.len() > 0 && b.len() > 0 && a[0] == b[0] {
        if a.drop_first() == b.drop_first() {
            assert(a =~= seq![a[0]] + a.drop_first());
            assert(b =~= seq![b[0]] + b.drop_first());
        }
        lemma_text_less_total(a.drop_first(), b.drop_first());
    } else if a.len() == 0 && b.len() == 0 {
        assert(a =~= b);
    }
}

/// No text sorts before itself.
pub proof fn lemma_text_less_irrefl(a: Seq<char>)
    ensures
        !text_less(a, a),
    decreases a.len(),
{
    if a.len() > 0 {
        lemma_text_less_irrefl(a.drop_first());
    }
}

/// Whether `a` sorts strictly before `b`.
pub fn text_less_exec(a: &String, b: &String) -> (r: bool)
    ensures
        r == text_less(a@, b@),
{
    let x = chars_of(a.as_str());
    let y = chars_of(b.as_str());
    let mut i: usize = 0;
    assert(x@.subrange(0, x@.len() as int) =~= x@);
    assert(y@.subrange(0, y@.len() as int) =~= y@);
    while i < x.len() && i < y.len() && x[i] == y[i]
        invariant
            i <= x@.len(),
            i <= y@.len(),
            text_less(x@, y@) == text_less(x@.subrange(i as int, x@.len() as int), y@.subrange(
                i as int,
                y@.len() as int,
            )),
        decreases x.len() - i,
    {
        proof {
            let xs = x@.subrange(i as int, x@.len() as int);
            let ys = y@.subrange(i as int, y@.len() as int);
            assert(xs.drop_first() =~= x@.subrange(i + 1, x@.len() as int));
            assert(ys.drop_first() =~= y@.subrange(i + 1, y@.len() as int));
        }
        i += 1;
    }
    proof {
        assert(x@.subrange(0, x@.len() as int) =~= x@);
        assert(y@.subrange(0, y@.len() as int) =~= y@);
    }
    if i == x.len() {
        i < y.len()
    } else if i == y.len() {
        false
    } else {
        x[i] < y[i]
    }
}

/// The views of a list of strings.
pub open spec fn texts(v: Seq<String>) -> Seq<Seq<char>> {
    v.map_values(|s: String| s@)
}

/// The texts are in (non-strictly) increasing order.
pub open spec fn sorted_texts(s: Seq<Seq<char>>) -> bool {
    forall|i: int, j: int| 0 <= i < j < s.len() ==> !text_less(#[trigger] s[j], #[trigger] s[i])
}

/// `v`'s strings in increasing order (equal strings keep their order).
pub fn sort_texts(v: Vec<String>) -> (r: Vec<String>)
    ensures
        sorted_texts(texts(r@)),
        texts(r@).to_multiset() == texts(v@).to_multiset(),
{
    let mut r: Vec<String> = Vec::new();
    let mut k: usize = 0;
    assert(texts(v@.subrange(0, 0)) =~= texts(r@));
    while k < v.len()
        invariant
            k <= v@.len(),
            sorted_texts(texts(r@)),
            texts(r@).to_multiset() == texts(v@.subrange(0, k as int)).to_multiset(),
        decreases v.len() - k,
    {
        let x = v[k].clone();
        let mut j: usize = 0;
        while j < r.len() && text_less_exec(&r[j], &x)
            invariant
                j <= r@.len(),
                forall|i: int| 0 <= i < j ==> text_less(#[trigger] texts(r@)[i], x@),
            decreases r.len() - j,
        {
            j += 1;
        }
        let ghost before = texts(r@);
        r.insert(j, x);
        proof {
            assert(texts(r@) =~= before.insert(j as int, x@));
            assert forall|a: int, b: int| 0 <= a < b < texts(r@).len() implies !text_less(
                #[trigger] texts(r@)[b],
                #[trigger] texts(r@)[a],
            ) by {
                let s = texts(r@);
                if b < j {
                    assert(s[a] == before[a] && s[b] == before[b]);
                } else if b == j {
                    assert(s[a] == before[a]);
                    assert(text_less(s[a], x@));
                    if text_less(x@, s[a]) {
                        lemma_text_less_trans(s[a], x@, s[a]);
                        lemma_text_less_irrefl(s[a]);
                    }
                } else if a == j {
                    assert(s[b] == before[b - 1]);
                    if j < before.len() {
                        assert(!text_less(before[j as int], x@));
                        if before[j as int] != x@ {
                            lemma_text_less_total(before[j as int], x@);
                        }
                        if text_less(s[b], x@) {
                            if b - 1 > j {
                                assert(!text_less(before[b - 1], before[j as int]));
                                if before[j as int] == x@ {
                                } else {
                                    lemma_text_less_trans(before[b - 1], x@, before[j as int]);
                                }
                            } else {
                                lemma_text_less_irrefl(x@);
                            }
                        }
                    }
                } else if a < j {
                    assert(s[a] == before[a] && s[b] == before[b - 1]);
                    assert(text_less(before[a], x@));
                    if j < before.len() {
                        assert(!text_less(before[j as int], x@));
                    }
                } else {
                    assert(s[a] == before[a - 1] && s[b] == before[b - 1]);
                }
            }
            let vk = texts(v@.subrange(0, k + 1));
            assert(vk =~= texts(v@.subrange(0, k as int)).push(x@));
            vstd::seq_lib::to_multiset_insert(before, j as int, x@);
            vstd::seq_lib::to_multiset_build(texts(v@.subrange(0, k as int)), x@);
        }
        k += 1;
    }
    assert(v@.subrange(0, v@.len() as int) =~= v@);
    r
}

/// The non-strict text order, as a relation.
pub open spec fn text_le() -> spec_fn(Seq<char>, Seq<char>) -> bool {
    |a: Seq<char>, b: Seq<char>| !text_less(b, a)
}

/// The non-strict text order is a total order.
pub proof fn lemma_text_le_total()
    ensures
        vstd::relations::total_ordering(text_le()),
{
    assert forall|x: Seq<char>| #[trigger] text_le()(x, x) by {
        lemma_text_less_irrefl(x);
    }
    assert forall|x: Seq<char>, y: Seq<char>| #[trigger] text_le()(x, y) && #[trigger] text_le()(
        y,
        x,
    ) implies x == y by {
        if x != y {
            lemma_text_less_total(x, y);
        }
    }
    assert forall|x: Seq<char>, y: Seq<char>, z: Seq<char>| #[trigger] text_le()(x, y)
        && #[trigger] text_le()(y, z) implies text_le()(x, z) by {
        if text_less(z, x) {
            if x == y {
            } else if y == z {
            } else {
                lemma_text_less_total(x, y);
                lemma_text_less_total(y, z);
                lemma_text_less_trans(z, x, y);
            }
        }
    }
    assert forall|x: Seq<char>, y: Seq<char>| #[trigger] text_le()(x, y) || #[trigger] text_le()(
        y,
        x,
    ) by {
        if text_less(y, x) && text_less(x, y) {
            lemma_text_less_trans(x, y, x);
            lemma_text_less_irrefl(x);
        }
    }
}

/// A list of texts sorted by [`sort_texts`] is the sorted permutation.
pub proof fn lemma_sorted_is_sort(r: Seq<Seq<char>>, v: Seq<Seq<char>>)
    requires
        sorted_texts(r),
        r.to_multiset() == v.to_multiset(),
    ensures
        r == v.sort_by(text_le()),
{
    lemma_text_le_total();
    v.lemma_sort_by_ensures(text_le());
    assert(vstd::relations::sorted_by(r, text_le())) by {
        assert forall|i: int, j: int| 0 <= i < j < r.len() implies #[trigger] text_le()(
            r[i],
            r[j],
        ) by {}
    }
    vstd::seq_lib::lemma_sorted_unique(r, v.sort_by(text_le()), text_le());
}

/// Whether two character vectors are equal.
pub fn same_chars(x: &Vec<char>, y: &Vec<char>) -> (r: bool)
    ensures
        r == (x@ == y@),
{
    if x.len() != y.len() {
        return false;
    }
    let mut i: usize = 0;
    while i < x.len()
        invariant
            i <= x@.len(),
            x@.len() == y@.len(),
            forall|j: int| 0 <= j < i ==> x@[j] == y@[j],
        decreases x.len() - i,
    {
        if x[i] != y[i] {
            assert(x@[i as int] != y@[i as int]);
            return false;
        }
        i += 1;
    }
    assert(x@ =~= y@);
    true
}

} // verus!
