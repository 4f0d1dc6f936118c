//! The pattern syntax of `re:` queries: literals and escapes, `.`, classes
//! with ranges, groups with alternation, anchors, and the repetitions `*`,
//! `+`, `?`, `{m}`, `{m,}`, `{m,n}` (a trailing `?` is accepted and
//! ignored). The grammar is stated as a recognizer over the pattern's
//! characters; the compiler accepts exactly the patterns it recognizes.
use vstd::prelude::*;

use crate::regex::{lower, lowercase_of, Node, REP_CAP};
use crate::text::{
    all_digits, chars_of, decimal, decimal_digits, digits_value, is_digit, string_of,
};

verus! {

/// Whether `c` may follow an atom as a quantifier.
pub open spec fn is_quantifier(c: char) -> bool {
    c == '*' || c == '+' || c == '?' || c == '{'
}

/// Whether `\e` is a supported escape.
pub open spec fn escape_ok(e: char) -> bool {
    e == 'n' || e == 't' || e == 'r' || e == 'f' || e == 'd' || e == 'D' || e == 'w' || e == 'W'
        || e == 's' || e == 'S' || e == '.' || e == '\\' || e == '|' || e == '*' || e == '+' || e
        == '?' || e == '(' || e == ')' || e == '[' || e == ']' || e == '{' || e == '}' || e == '^'
        || e == '$' || e == '/'
}

/// The first position at or after `p` that is not an ASCII digit.
pub open spec fn digits_end(cs: Seq<char>, p: int) -> int
    decreases cs.len() - p,
{
    if p < cs.len() && p >= 0 && is_digit(cs[p]) {
        digits_end(cs, p + 1)
    } else {
        p
    }
}

/// The number written by the digits `cs[a..b]`: `None` when there are none,
/// `Some(None)` when it does not fit in a `u32`.
pub open spec fn number_at(cs: Seq<char>, a: int, b: int) -> Option<Option<int>> {
    if a == b {
        None
    } else if digits_value(cs.subrange(a, b)) <= u32::MAX {
        Some(Some(digits_value(cs.subrange(a, b))))
    } else {
        Some(None)
    }
}

/// A counted repetition `{m}`, `{m,}` or `{m,n}` starting at the `{` at
/// `pos`: the position after its `}`, or `None` when it is malformed, a
/// bound overflows, or a bound exceeds [`REP_CAP`].
pub open spec fn r_counted(cs: Seq<char>, pos: int) -> Option<int> {
    let a = digits_end(cs, pos + 1);
    let lo = number_at(cs, pos + 1, a);
    if lo == Some(None::<int>) {
        None
    } else {
        let min = match lo {
            Some(Some(v)) => v,
            _ => 0,
        };
        let comma = a < cs.len() && cs[a] == ',';
        let b = if comma { digits_end(cs, a + 1) } else { a };
        let hi = if comma { number_at(cs, a + 1, b) } else { Some(Some(min)) };
        if hi == Some(None::<int>) {
            None
        } else if !(b < cs.len() && cs[b] == '}') {
            None
        } else if min > REP_CAP || (match hi {
            Some(Some(m)) => m > REP_CAP,
            _ => false,
        }) {
            None
        } else {
            Some(b + 1)
        }
    }
}

/// One member character of a class at `p`: its (case-folded) value and the
/// position after it.
pub open spec fn r_class_char(cs: Seq<char>, p: int) -> Option<(char, int)> {
    if p < 0 || p >= cs.len() {
        None
    } else if cs[p] != '\\' {
        Some((lowercase_of(cs[p])[0], p + 1))
    } else if p + 1 >= cs.len() {
        None
    } else {
        let e = cs[p + 1];
        let v = if e == 'n' {
            '\n'
        } else if e == 't' {
            '\t'
        } else if e == 'r' {
            '\r'
        } else {
            lowercase_of(e)[0]
        };
        Some((v, p + 2))
    }
}

/// The members of a class from `p` up to its closing `]`.
pub open spec fn r_class_items(cs: Seq<char>, p: int, first: bool) -> Option<int>
    decreases cs.len() - p,
{
    if p < 0 || p >= cs.len() {
        None
    } else if cs[p] == ']' && !first {
        Some(p + 1)
    } else {
        match r_class_char(cs, p) {
            None => None,
            Some((lo, p2)) => {
                let ranged = p2 < cs.len() && cs[p2] == '-' && p2 + 1 < cs.len() && cs[p2 + 1]
                    != ']';
                if ranged {
                    match r_class_char(cs, p2 + 1) {
                        None => None,
                        Some((hi, p3)) => if hi < lo {
                            None
                        } else if p < p3 {
                            r_class_items(cs, p3, false)
                        } else {
                            None
                        },
                    }
                } else if p < p2 {
                    r_class_items(cs, p2, false)
                } else {
                    None
                }
            },
        }
    }
}

/// A class `[...]` or `[^...]` starting at the `[` at `pos`.
pub open spec fn r_class(cs: Seq<char>, pos: int) -> Option<int> {
    let p0 = pos + 1;
    let p1 = if p0 < cs.len() && cs[p0] == '^' { p0 + 1 } else { p0 };
    r_class_items(cs, p1, true)
}

/// One alternation (branches separated by `|`) from `pos`.
pub open spec fn r_alt(cs: Seq<char>, pos: int) -> Option<int>
    decreases cs.len() - pos, 4int,
{
    if pos < 0 || pos > cs.len() {
        None
    } else {
        match r_concat(cs, pos) {
            None => None,
            Some(p1) => if pos <= p1 < cs.len() && cs[p1] == '|' {
                r_alt(cs, p1 + 1)
            } else {
                Some(p1)
            },
        }
    }
}

/// One branch: repetitions up to the end, a `|` or a `)`.
pub open spec fn r_concat(cs: Seq<char>, pos: int) -> Option<int>
    decreases cs.len() - pos, 3int,
{
    if pos < 0 || pos > cs.len() {
        None
    } else if pos == cs.len() || cs[pos] == '|' || cs[pos] == ')' {
        Some(pos)
    } else {
        match r_rep(cs, pos) {
            None => None,
            Some(p1) => if pos < p1 <= cs.len() {
                r_concat(cs, p1)
            } else {
                None
            },
        }
    }
}

/// One atom and its quantifier, if any. An anchor takes no quantifier.
pub open spec fn r_rep(cs: Seq<char>, pos: int) -> Option<int>
    decreases cs.len() - pos, 2int,
{
    if pos < 0 || pos >= cs.len() {
        None
    } else {
        match r_atom(cs, pos) {
            None => None,
            Some(p1) => if cs[pos] == '^' || cs[pos] == '$' {
                if 0 <= p1 < cs.len() && is_quantifier(cs[p1]) {
                    None
                } else {
                    Some(p1)
                }
            } else if p1 < 0 || p1 >= cs.len() {
                Some(p1)
            } else {
                let q = cs[p1];
                let p2 = if q == '*' || q == '+' || q == '?' {
                    Some(p1 + 1)
                } else if q == '{' {
                    r_counted(cs, p1)
                } else {
                    Some(p1)
                };
                if !is_quantifier(q) {
                    Some(p1)
                } else {
                    match p2 {
                        None => None,
                        Some(p2) => if 0 <= p2 < cs.len() && cs[p2] == '?' {
                            Some(p2 + 1)
                        } else {
                            Some(p2)
                        },
                    }
                }
            },
        }
    }
}

/// One atom: a group, a class, `.`, an anchor, an escape or a literal.
pub open spec fn r_atom(cs: Seq<char>, pos: int) -> Option<int>
    decreases cs.len() - pos, 1int,
{
    if pos < 0 || pos >= cs.len() {
        None
    } else {
        let c = cs[pos];
        if c == '(' {
            match r_alt(cs, pos + 1) {
                None => None,
                Some(p1) => if 0 <= p1 < cs.len() && cs[p1] == ')' {
                    Some(p1 + 1)
                } else {
                    None
                },
            }
        } else if c == '[' {
            r_class(cs, pos)
        } else if c == '.' || c == '^' || c == '$' {
            Some(pos + 1)
        } else if c == '\\' {
            if pos + 1 >= cs.len() {
                None
            } else if escape_ok(cs[pos + 1]) {
                Some(pos + 2)
            } else {
                None
            }
        } else if c == '*' || c == '+' || c == '?' {
            None
        } else {
            Some(pos + 1)
        }
    }
}

/// Whether the whole pattern is in the supported syntax.
pub open spec fn accepts(cs: Seq<char>) -> bool {
    r_alt(cs, 0) == Some(cs.len() as int)
}

/// The node an escape `\e` compiles to: a control character, one of the
/// classes `\d`, `\w`, `\s` (negated when upper case), or the escaped
/// character itself.
pub open spec fn escape_node(e: char, n: Node) -> bool {
    if e == 'n' {
        n == Node::Ch('\n')
    } else if e == 't' {
        n == Node::Ch('\t')
    } else if e == 'r' {
        n == Node::Ch('\r')
    } else if e == 'f' {
        n == Node::Ch('\u{c}')
    } else if e == 'd' || e == 'D' {
        n matches Node::Class { negated, ranges } && negated == (e == 'D') && ranges@ == seq![
            ('0', '9'),
        ]
    } else if e == 'w' || e == 'W' {
        n matches Node::Class { negated, ranges } && negated == (e == 'W') && ranges@ == seq![
            ('a', 'z'),
            ('0', '9'),
            ('_', '_'),
        ]
    } else if e == 's' || e == 'S' {
        n matches Node::Class { negated, ranges } && negated == (e == 'S') && ranges@ == seq![
            (' ', ' '),
            ('\t', '\r'),
        ]
    } else {
        n == Node::Ch(e)
    }
}

/// The ranges a class's members from `p` up to its closing `]` compile
/// to, in order: a single member `c` is the range `c..=c`.
pub open spec fn class_ranges(cs: Seq<char>, p: int, first: bool, rs: Seq<(char, char)>) -> bool
    decreases cs.len() - p,
{
    if p < 0 || p >= cs.len() {
        false
    } else if cs[p] == ']' && !first {
        rs.len() == 0
    } else {
        match r_class_char(cs, p) {
            None => false,
            Some((lo, p2)) => {
                let ranged = p2 < cs.len() && cs[p2] == '-' && p2 + 1 < cs.len() && cs[p2 + 1]
                    != ']';
                if ranged {
                    match r_class_char(cs, p2 + 1) {
                        None => false,
                        Some((hi, p3)) => p < p3 && rs.len() > 0 && rs[0] == (lo, hi)
                            && class_ranges(cs, p3, false, rs.drop_first()),
                    }
                } else {
                    p < p2 && rs.len() > 0 && rs[0] == (lo, lo) && class_ranges(
                        cs,
                        p2,
                        false,
                        rs.drop_first(),
                    )
                }
            },
        }
    }
}

/// The bounds `{m}`, `{m,}` or `{m,n}` at the `{` at `pos` compiles to: a
/// missing `m` is 0, a missing `n` unbounded.
pub open spec fn counted_bounds(cs: Seq<char>, pos: int) -> (int, Option<int>) {
    let a = digits_end(cs, pos + 1);
    let min = match number_at(cs, pos + 1, a) {
        Some(Some(v)) => v,
        _ => 0,
    };
    if a < cs.len() && cs[a] == ',' {
        let b = digits_end(cs, a + 1);
        (
            min,
            match number_at(cs, a + 1, b) {
                Some(Some(m)) => Some(m),
                _ => None,
            },
        )
    } else {
        (min, Some(min))
    }
}

/// A run of ASCII digits from `a` that stops at `q` ends there.
pub proof fn lemma_digits_end_at(cs: Seq<char>, a: int, q: int)
    requires
        0 <= a <= q < cs.len(),
        forall|j: int| a <= j < q ==> is_digit(#[trigger] cs[j]),
        !is_digit(cs[q]),
    ensures
        digits_end(cs, a) == q,
    decreases q - a,
{
    if a < q {
        lemma_digits_end_at(cs, a + 1, q);
    }
}

/// The number written by the non-empty run of digits `cs[a..b]`, when it
/// fits in a `u32`.
pub proof fn lemma_number_at(cs: Seq<char>, a: int, b: int)
    requires
        0 <= a < b <= cs.len(),
        digits_value(cs.subrange(a, b)) <= u32::MAX,
    ensures
        number_at(cs, a, b) == Some(Some(digits_value(cs.subrange(a, b)))),
{
}

/// `{m}`: exactly `m` repetitions. With digits alone between the braces,
/// the bounds are `(m, Some(m))` and the repetition ends after its `}`.
pub proof fn lemma_exact_count(cs: Seq<char>, p: int, q: int)
    requires
        0 <= p,
        p + 1 < q < cs.len(),
        cs[p] == '{',
        cs[q] == '}',
        forall|j: int| p < j < q ==> is_digit(#[trigger] cs[j]),
        digits_value(cs.subrange(p + 1, q)) <= REP_CAP,
    ensures
        counted_bounds(cs, p) == (
            digits_value(cs.subrange(p + 1, q)),
            Some(digits_value(cs.subrange(p + 1, q))),
        ),
        r_counted(cs, p) == Some(q + 1),
{
    lemma_digits_end_at(cs, p + 1, q);
    lemma_number_at(cs, p + 1, q);
}

/// `{m,}`: at least `m` repetitions, with no upper bound.
pub proof fn lemma_open_count(cs: Seq<char>, p: int, c: int)
    requires
        0 <= p,
        p + 1 < c,
        c + 1 < cs.len(),
        cs[p] == '{',
        cs[c] == ',',
        cs[c + 1] == '}',
        forall|j: int| p < j < c ==> is_digit(#[trigger] cs[j]),
        digits_value(cs.subrange(p + 1, c)) <= REP_CAP,
    ensures
        counted_bounds(cs, p) == (digits_value(cs.subrange(p + 1, c)), None::<int>),
        r_counted(cs, p) == Some(c + 2),
{
    lemma_digits_end_at(cs, p + 1, c);
    lemma_number_at(cs, p + 1, c);
    lemma_digits_end_at(cs, c + 1, c + 1);
}

/// `{m,n}`: from `m` to `n` repetitions.
pub proof fn lemma_range_count(cs: Seq<char>, p: int, c: int, q: int)
    requires
        0 <= p,
        p + 1 < c,
        c + 1 < q < cs.len(),
        cs[p] == '{',
        cs[c] == ',',
        cs[q] == '}',
        forall|j: int| p < j < c ==> is_digit(#[trigger] cs[j]),
        forall|j: int| c < j < q ==> is_digit(#[trigger] cs[j]),
        digits_value(cs.subrange(p + 1, c)) <= REP_CAP,
        digits_value(cs.subrange(c + 1, q)) <= REP_CAP,
    ensures
        counted_bounds(cs, p) == (
            digits_value(cs.subrange(p + 1, c)),
            Some(digits_value(cs.subrange(c + 1, q))),
        ),
        r_counted(cs, p) == Some(q + 1),
{
    lemma_digits_end_at(cs, p + 1, c);
    lemma_number_at(cs, p + 1, c);
    lemma_digits_end_at(cs, c + 1, q);
    lemma_number_at(cs, c + 1, q);
}

/// An atom followed by `{m}` compiles to a repetition of exactly `m`
/// copies: its `min` is `m` and its `max` is `Some(m)`.
pub proof fn lemma_exact_count_node(cs: Seq<char>, pos: int, p1: int, q: int, n: Node)
    requires
        rep_node(cs, pos, n),
        0 <= pos < cs.len(),
        cs[pos] != '^',
        cs[pos] != '$',
        r_atom(cs, pos) == Some(p1),
        0 <= p1,
        p1 + 1 < q < cs.len(),
        cs[p1] == '{',
        cs[q] == '}',
        forall|j: int| p1 < j < q ==> is_digit(#[trigger] cs[j]),
        digits_value(cs.subrange(p1 + 1, q)) <= REP_CAP,
    ensures
        n matches Node::Rep { min, max, .. } && min as int == digits_value(cs.subrange(p1 + 1, q))
            && max == Some(min),
{
    lemma_exact_count(cs, p1, q);
    assert(is_quantifier(cs[p1]));
    assert(quantifier_bounds(cs, p1) == counted_bounds(cs, p1));
}

/// An atom followed by `*` compiles to any number of copies, by `+` to
/// at least one, by `?` to at most one.
pub proof fn lemma_quantifier_node(cs: Seq<char>, pos: int, p1: int, n: Node)
    requires
        rep_node(cs, pos, n),
        0 <= pos < cs.len(),
        cs[pos] != '^',
        cs[pos] != '$',
        r_atom(cs, pos) == Some(p1),
        0 <= p1 < cs.len(),
        cs[p1] == '*' || cs[p1] == '+' || cs[p1] == '?',
    ensures
        cs[p1] == '*' ==> (n matches Node::Rep { min, max, .. } && min == 0 && max is None),
        cs[p1] == '+' ==> (n matches Node::Rep { min, max, .. } && min == 1 && max is None),
        cs[p1] == '?' ==> (n matches Node::Rep { min, max, .. } && min == 0 && max == Some(1u32)),
{
    assert(is_quantifier(cs[p1]));
}

/// The repetition bounds of the quantifier `q` at `p`.
pub open spec fn quantifier_bounds(cs: Seq<char>, p: int) -> (int, Option<int>) {
    let q = cs[p];
    if q == '*' {
        (0, None)
    } else if q == '+' {
        (1, None)
    } else if q == '?' {
        (0, Some(1))
    } else {
        counted_bounds(cs, p)
    }
}

/// The bounds of a compiled repetition.
pub open spec fn rep_bounds(min: u32, max: Option<u32>) -> (int, Option<int>) {
    (
        min as int,
        match max {
            Some(m) => Some(m as int),
            None => None,
        },
    )
}

/// `n` is what the atom at `pos` compiles to: a group of the alternation
/// inside, a class, `.`, an anchor, an escape, or a literal folded to the
/// first character of its lowercase mapping.
pub open spec fn atom_node(cs: Seq<char>, pos: int, n: Node) -> bool
    decreases cs.len() - pos, 1int,
{
    if pos < 0 || pos >= cs.len() {
        false
    } else {
        let c = cs[pos];
        if c == '(' {
            n matches Node::Group(inner) && alt_nodes(cs, pos + 1, inner@)
        } else if c == '[' {
            n matches Node::Class { negated, ranges } && {
                let p0 = pos + 1;
                &&& negated == (p0 < cs.len() && cs[p0] == '^')
                &&& class_ranges(cs, if negated { p0 + 1 } else { p0 }, true, ranges@)
            }
        } else if c == '.' {
            n is Any
        } else if c == '^' {
            n is Start
        } else if c == '$' {
            n is End
        } else if c == '\\' {
            pos + 1 < cs.len() && escape_node(cs[pos + 1], n)
        } else {
            n == Node::Ch(lowercase_of(c)[0])
        }
    }
}

/// `n` is what the atom at `pos` and its quantifier, if any, compile to:
/// the atom itself, or a repetition of it with the quantifier's bounds.
pub open spec fn rep_node(cs: Seq<char>, pos: int, n: Node) -> bool
    decreases cs.len() - pos, 2int,
{
    if pos < 0 || pos >= cs.len() {
        false
    } else {
        match r_atom(cs, pos) {
            None => false,
            Some(p1) => if cs[pos] == '^' || cs[pos] == '$' || p1 < 0 || p1 >= cs.len()
                || !is_quantifier(cs[p1]) {
                atom_node(cs, pos, n)
            } else {
                n matches Node::Rep { min, max, node } && atom_node(cs, pos, *node) && rep_bounds(
                    min,
                    max,
                ) == quantifier_bounds(cs, p1)
            },
        }
    }
}

/// `ns` is what the branch from `pos` compiles to: one node per
/// repetition, in order.
pub open spec fn concat_nodes(cs: Seq<char>, pos: int, ns: Seq<Node>) -> bool
    decreases cs.len() - pos, 3int,
{
    if pos < 0 || pos > cs.len() {
        false
    } else if pos == cs.len() || cs[pos] == '|' || cs[pos] == ')' {
        ns.len() == 0
    } else {
        match r_rep(cs, pos) {
            None => false,
            Some(p1) => pos < p1 <= cs.len() && ns.len() > 0 && rep_node(cs, pos, ns[0])
                && concat_nodes(cs, p1, ns.drop_first()),
        }
    }
}

/// `bs` is what the branches from `pos` on compile to, one node sequence
/// per branch.
pub open spec fn branch_nodes(cs: Seq<char>, pos: int, bs: Seq<Vec<Node>>) -> bool
    decreases cs.len() - pos, 4int,
{
    if pos < 0 || pos > cs.len() {
        false
    } else {
        bs.len() > 0 && concat_nodes(cs, pos, bs[0]@) && match r_concat(cs, pos) {
            None => false,
            Some(p1) => if pos <= p1 < cs.len() && cs[p1] == '|' {
                branch_nodes(cs, p1 + 1, bs.drop_first())
            } else {
                bs.len() == 1
            },
        }
    }
}

/// `prog` is what the alternation from `pos` compiles to: the nodes of its
/// one branch, or a single [`Node::Alt`] of all its branches.
pub open spec fn alt_nodes(cs: Seq<char>, pos: int, prog: Seq<Node>) -> bool
    decreases cs.len() - pos, 5int,
{
    if pos < 0 || pos > cs.len() {
        false
    } else {
        match r_concat(cs, pos) {
            None => false,
            Some(p1) => if pos <= p1 < cs.len() && cs[p1] == '|' {
                prog.len() == 1 && (prog[0] matches Node::Alt(bs) && branch_nodes(cs, pos, bs@))
            } else {
                concat_nodes(cs, pos, prog)
            },
        }
    }
}

/// The head of a malformed-pattern refusal at `pos`.
pub open spec fn malformed_head(pos: int) -> Seq<char> {
    "regex is malformed at position "@ + decimal(pos as nat) + " ("@
}

/// A malformed-pattern refusal at `pos`, saying `what`.
pub open spec fn malformed_text(pos: int, what: Seq<char>) -> Seq<char> {
    malformed_head(pos) + what + ")"@
}

/// The refusal of a repetition bound written by the digits `cs[a..b]`
/// that does not fit in a `u32`.
pub open spec fn overflow_text(cs: Seq<char>, a: int, b: int) -> Seq<char> {
    "counted repetition "@ + debug_str_of(cs.subrange(a, b)) + " overflows"@
}

/// Why the class member at `p` does not read.
pub open spec fn class_char_error(cs: Seq<char>, p: int) -> Seq<char> {
    if p >= cs.len() {
        "regex ends inside a character class"@
    } else {
        "regex ends with a dangling escape"@
    }
}

/// Why the members of the class opened at `start` do not read from `p` on.
pub open spec fn class_items_error(cs: Seq<char>, p: int, first: bool, start: int) -> Seq<char>
    decreases cs.len() - p,
{
    if p < 0 || p >= cs.len() {
        malformed_text(start, "unterminated character class"@)
    } else {
        match r_class_char(cs, p) {
            None => class_char_error(cs, p),
            Some((lo, p2)) => {
                let ranged = p2 < cs.len() && cs[p2] == '-' && p2 + 1 < cs.len() && cs[p2 + 1]
                    != ']';
                if ranged {
                    match r_class_char(cs, p2 + 1) {
                        None => class_char_error(cs, p2 + 1),
                        Some((hi, p3)) => if hi < lo {
                            malformed_head(start) + "inverted range "@ + seq![lo] + ".."@ + seq![hi]
                                + ")"@
                        } else if p < p3 {
                            class_items_error(cs, p3, false, start)
                        } else {
                            Seq::empty()
                        },
                    }
                } else if p < p2 {
                    class_items_error(cs, p2, false, start)
                } else {
                    Seq::empty()
                }
            },
        }
    }
}

/// Why the counted repetition at the `{` at `pos` does not read.
pub open spec fn counted_error(cs: Seq<char>, pos: int) -> Seq<char> {
    let a = digits_end(cs, pos + 1);
    let comma = a < cs.len() && cs[a] == ',';
    let b = if comma { digits_end(cs, a + 1) } else { a };
    if number_at(cs, pos + 1, a) == Some(None::<int>) {
        overflow_text(cs, pos + 1, a)
    } else if comma && number_at(cs, a + 1, b) == Some(None::<int>) {
        overflow_text(cs, a + 1, b)
    } else if !(b < cs.len() && cs[b] == '}') {
        malformed_text(pos, "unterminated counted repetition"@)
    } else {
        malformed_head(pos) + "counted repetition "@ + debug_str_of(cs.subrange(pos, b + 1))
            + " exceeds the 256-rep search cap)"@
    }
}

/// Why the atom at `pos` does not read.
pub open spec fn atom_error(cs: Seq<char>, pos: int) -> Seq<char>
    decreases cs.len() - pos, 1int,
{
    if pos < 0 || pos >= cs.len() {
        "regex ends before it is complete"@
    } else {
        let c = cs[pos];
        if c == '(' {
            match r_alt(cs, pos + 1) {
                None => alt_error(cs, pos + 1),
                Some(p1) => malformed_text(p1, "unbalanced group"@),
            }
        } else if c == '[' {
            let p0 = pos + 1;
            class_items_error(
                cs,
                if p0 < cs.len() && cs[p0] == '^' { p0 + 1 } else { p0 },
                true,
                pos,
            )
        } else if c == '\\' {
            if pos + 1 >= cs.len() {
                "regex ends with a dangling escape"@
            } else {
                "regex escape "@ + debug_char_of(cs[pos + 1]) + " is not supported"@
            }
        } else {
            malformed_head(pos) + debug_char_of(c) + " with nothing to repeat)"@
        }
    }
}

/// Why the repetition at `pos` does not read.
pub open spec fn rep_error(cs: Seq<char>, pos: int) -> Seq<char>
    decreases cs.len() - pos, 2int,
{
    match r_atom(cs, pos) {
        None => atom_error(cs, pos),
        Some(p1) => if cs[pos] == '^' || cs[pos] == '$' {
            malformed_text(p1, "a quantifier cannot follow an anchor"@)
        } else {
            counted_error(cs, p1)
        },
    }
}

/// Why the branch from `pos` does not read.
pub open spec fn concat_error(cs: Seq<char>, pos: int) -> Seq<char>
    decreases cs.len() - pos, 3int,
{
    if pos < 0 || pos >= cs.len() {
        Seq::empty()
    } else {
        match r_rep(cs, pos) {
            None => rep_error(cs, pos),
            Some(p1) => if pos < p1 <= cs.len() {
                concat_error(cs, p1)
            } else {
                Seq::empty()
            },
        }
    }
}

/// Why the alternation from `pos` does not read.
pub open spec fn alt_error(cs: Seq<char>, pos: int) -> Seq<char>
    decreases cs.len() - pos, 4int,
{
    if pos < 0 || pos > cs.len() {
        Seq::empty()
    } else {
        match r_concat(cs, pos) {
            None => concat_error(cs, pos),
            Some(p1) => if pos <= p1 < cs.len() {
                alt_error(cs, p1 + 1)
            } else {
                Seq::empty()
            },
        }
    }
}

/// What compiling a refused pattern answers: why its alternation does not
/// read, or, when it reads only up to some position, the character there.
pub open spec fn pattern_refusal(cs: Seq<char>) -> Seq<char> {
    match r_alt(cs, 0) {
        None => alt_error(cs, 0),
        Some(p) => debug_str_of(cs) + " is malformed at position "@ + decimal(p as nat)
            + " (unexpected "@ + debug_char_of(cs[p]) + ")"@,
    }
}

/// What `{:?}` renders for a string.
pub uninterp spec fn debug_str_of(s: Seq<char>) -> Seq<char>;

/// What `{:?}` renders for a character.
pub uninterp spec fn debug_char_of(c: char) -> Seq<char>;

/// `format!("{:?}", s)`: the quoted, escaped rendering of a string.
#[verifier::external_body]
pub fn debug_text(s: &str) -> (r: String)
    ensures
        r@ == debug_str_of(s@),
{
    format!("{:?}", s)
}

/// `format!("{:?}", c)`: the quoted, escaped rendering of a character.
#[verifier::external_body]
fn debug_char(c: char) -> (r: String)
    ensures
        r@ == debug_char_of(c),
{
    format!("{:?}", c)
}

/// The decimal rendering of `n`.
pub fn number_text(n: usize) -> (r: String)
    ensures
        r@ == crate::text::decimal(n as nat),
{
    let v = decimal_digits(n as u64);
    string_of(v.as_slice())
}

/// "regex is malformed at position {pos} ({what})".
fn malformed(pos: usize, what: &str) -> (m: String)
    ensures
        m@ == malformed_text(pos as int, what@),
{
    let mut m = String::from_str("regex is malformed at position ");
    let n = number_text(pos);
    m.append(n.as_str());
    m.append(" (");
    m.append(what);
    m.append(")");
    m
}

/// The parser's cursor over the pattern's characters.
pub struct RParser {
    pub chars: Vec<char>,
    pub pos: usize,
}

/// The number written by the ASCII digits `v[a..b]`, or `None` when it does
/// not fit in a `u32`.
fn parse_u32(v: &Vec<char>, a: usize, b: usize) -> (r: Option<u32>)
    requires
        a < b <= v@.len(),
        all_digits(v@.subrange(a as int, b as int)),
    ensures
        match r {
            Some(n) => n == digits_value(v@.subrange(a as int, b as int)),
            None => digits_value(v@.subrange(a as int, b as int)) > u32::MAX,
        },
{
    let mut acc: u64 = 0;
    let mut i = a;
    while i < b
        invariant
            a <= i <= b <= v@.len(),
            all_digits(v@.subrange(a as int, b as int)),
            acc == digits_value(v@.subrange(a as int, i as int)),
            acc <= u32::MAX,
        decreases b - i,
    {
        let ghost pre = v@.subrange(a as int, i as int);
        let ghost next = v@.subrange(a as int, i + 1);
        assert(next.drop_last() =~= pre);
        assert(next.last() == v@[i as int]);
        assert(v@[i as int] == v@.subrange(a as int, b as int)[i - a]);
        let d = (v[i] as u32 - 48) as u64;
        acc = acc * 10 + d;
        i += 1;
        if acc > 0xFFFF_FFFFu64 {
            proof {
                lemma_digits_grow(v@.subrange(a as int, b as int), i - a);
                assert(v@.subrange(a as int, b as int).subrange(0, i - a) =~= v@.subrange(
                    a as int,
                    i as int,
                ));
            }
            return None;
        }
    }
    Some(acc as u32)
}

/// Appending digits never makes a number smaller.
pub proof fn lemma_digits_grow(s: Seq<char>, k: int)
    requires
        0 <= k <= s.len(),
        all_digits(s),
    ensures
        digits_value(s) >= digits_value(s.subrange(0, k)),
    decreases s.len(),
{
    if s.len() > k {
        let t = s.drop_last();
        assert(all_digits(t)) by {
            assert forall|j: int| 0 <= j < t.len() implies is_digit(#[trigger] t[j]) by {
                assert(t[j] == s[j]);
            }
        }
        lemma_digits_grow(t, k);
        assert(t.subrange(0, k) =~= s.subrange(0, k));
        assert(is_digit(s[s.len() - 1]));
        crate::text::lemma_digits_value_bound(t);
    } else {
        assert(s.subrange(0, k) =~= s);
    }
}

/// A copy of `v[a..b]`.
fn sub_chars(v: &Vec<char>, a: usize, b: usize) -> (r: Vec<char>)
    requires
        a <= b <= v@.len(),
    ensures
        r@ == v@.subrange(a as int, b as int),
{
    let mut r: Vec<char> = Vec::new();
    let mut i = a;
    while i < b
        invariant
            a <= i <= b <= v@.len(),
            r@ == v@.subrange(a as int, i as int),
        decreases b - i,
    {
        r.push(v[i]);
        i += 1;
        assert(r@ =~= v@.subrange(a as int, i as int));
    }
    r
}

/// The one-character string `c`.
fn char_text(c: char) -> (r: String)
    ensures
        r@ == seq![c],
{
    let mut v: Vec<char> = Vec::new();
    v.push(c);
    string_of(v.as_slice())
}

impl RParser {
    /// The character under the cursor.
    fn peek(&self) -> (r: Option<char>)
        ensures
            r == (if self.pos < self.chars@.len() {
                Some(self.chars@[self.pos as int])
            } else {
                None::<char>
            }),
    {
        if self.pos < self.chars.len() {
            Some(self.chars[self.pos])
        } else {
            None
        }
    }

    /// Branches separated by `|`; one branch is returned as it is, several
    /// become one [`Node::Alt`].
    fn alternation(&mut self) -> (r: Result<Vec<Node>, String>)
        requires
            old(self).pos <= old(self).chars@.len(),
            old(self).chars@.len() <= usize::MAX,
        ensures
            final(self).chars@ == old(self).chars@,
            final(self).pos <= final(self).chars@.len(),
            (r is Ok) == (r_alt(old(self).chars@, old(self).pos as int) is Some),
            r is Ok ==> r_alt(old(self).chars@, old(self).pos as int) == Some(final(self).pos as int)
                && old(self).pos <= final(self).pos,
            r matches Ok(v) ==> alt_nodes(old(self).chars@, old(self).pos as int, v@),
            r matches Err(m) ==> m@ == alt_error(old(self).chars@, old(self).pos as int),
        decreases old(self).chars@.len() - old(self).pos, 4int,
    {
        let ghost cs = self.chars@;
        let ghost p0 = self.pos as int;
        let first = match self.concatenation() {
            Ok(v) => v,
            Err(e) => return Err(e),
        };
        let ghost first_end = self.pos as int;
        let ghost mut start = p0;
        let mut branches: Vec<Vec<Node>> = Vec::new();
        branches.push(first);
        proof {
            assert forall|rest: Seq<Vec<Node>>|
                #[trigger] branch_nodes(cs, start, seq![branches@.last()] + rest) implies branch_nodes(
                cs,
                p0,
                branches@ + rest,
            ) by {
                assert(seq![branches@.last()] + rest =~= branches@ + rest);
            }
        }
        loop
            invariant
                self.chars@ == cs,
                cs == old(self).chars@,
                cs.len() <= usize::MAX,
                p0 == old(self).pos,
                0 <= p0 <= start <= self.pos <= cs.len(),
                r_concat(cs, start) == Some(self.pos as int),
                r_alt(cs, p0) == r_alt(cs, start),
                alt_error(cs, p0) == alt_error(cs, start),
                branches@.len() >= 1,
                r_concat(cs, p0) == Some(first_end),
                p0 <= first_end <= cs.len(),
                branches@.len() == 1 ==> start == p0,
                branches@.len() > 1 ==> first_end < cs.len() && cs[first_end] == '|',
                concat_nodes(cs, start, branches@.last()@),
                forall|rest: Seq<Vec<Node>>|
                    #[trigger] branch_nodes(cs, start, seq![branches@.last()] + rest)
                        ==> branch_nodes(cs, p0, branches@ + rest),
            ensures
                r_alt(cs, p0) == Some(self.pos as int),
                p0 <= self.pos <= cs.len(),
                self.chars@ == cs,
                branches@.len() >= 1,
                branches@.len() == 1 ==> start == p0 && !(first_end < cs.len() && cs[first_end]
                    == '|'),
                branches@.len() > 1 ==> first_end < cs.len() && cs[first_end] == '|',
                concat_nodes(cs, start, branches@.last()@),
                branch_nodes(cs, p0, branches@),
            decreases cs.len() - self.pos,
        {
            if self.peek() != Some('|') {
                proof {
                    let one = seq![branches@.last()];
                    assert(one.drop_first() =~= Seq::<Vec<Node>>::empty());
                    assert(branch_nodes(cs, start, one + Seq::<Vec<Node>>::empty())) by {
                        assert(one + Seq::<Vec<Node>>::empty() =~= one);
                    }
                    assert(branches@ + Seq::<Vec<Node>>::empty() =~= branches@);
                }
                break;
            }
            let ghost bar = self.pos as int;
            let ghost start0 = start;
            let ghost before = branches@;
            self.pos += 1;
            proof {
                start = self.pos as int;
                assert(alt_error(cs, start0) == alt_error(cs, start));
            }
            match self.concatenation() {
                Ok(v) => branches.push(v),
                Err(e) => {
                    assert(alt_error(cs, start) == concat_error(cs, start));
                    return Err(e);
                },
            }
            proof {
                assert forall|rest: Seq<Vec<Node>>|
                    #[trigger] branch_nodes(cs, start, seq![branches@.last()] + rest)
                        implies branch_nodes(cs, p0, branches@ + rest) by {
                    let tail = seq![branches@.last()] + rest;
                    let whole = seq![before.last()] + tail;
                    assert(whole.drop_first() =~= tail);
                    assert(whole[0] == before.last());
                    assert(branch_nodes(cs, start0, whole));
                    assert(before + tail =~= branches@ + rest);
                }
            }
        }
        if branches.len() == 1 {
            proof {
                assert(branches@.last() == branches@[0]);
            }
            match branches.pop() {
                Some(only) => return Ok(only),
                None => return Ok(Vec::new()),
            }
        }
        let mut program: Vec<Node> = Vec::new();
        program.push(Node::Alt(branches));
        Ok(program)
    }

    /// Repetitions up to the end of the pattern, a `|` or a `)`.
    fn concatenation(&mut self) -> (r: Result<Vec<Node>, String>)
        requires
            old(self).pos <= old(self).chars@.len(),
            old(self).chars@.len() <= usize::MAX,
        ensures
            final(self).chars@ == old(self).chars@,
            final(self).pos <= final(self).chars@.len(),
            (r is Ok) == (r_concat(old(self).chars@, old(self).pos as int) is Some),
            r is Ok ==> r_concat(old(self).chars@, old(self).pos as int) == Some(
                final(self).pos as int,
            ) && old(self).pos <= final(self).pos,
            r matches Ok(v) ==> concat_nodes(old(self).chars@, old(self).pos as int, v@),
            r matches Err(m) ==> m@ == concat_error(old(self).chars@, old(self).pos as int),
        decreases old(self).chars@.len() - old(self).pos, 3int,
    {
        let ghost cs = self.chars@;
        let ghost p0 = self.pos as int;
        let mut nodes: Vec<Node> = Vec::new();
        proof {
            assert forall|rest: Seq<Node>|
                #[trigger] concat_nodes(cs, p0, rest) implies concat_nodes(cs, p0, nodes@ + rest) by {
                assert(nodes@ + rest =~= rest);
            }
        }
        loop
            invariant
                self.chars@ == cs,
                cs == old(self).chars@,
                cs.len() <= usize::MAX,
                p0 == old(self).pos,
                0 <= p0 <= self.pos <= cs.len(),
                r_concat(cs, p0) == r_concat(cs, self.pos as int),
                concat_error(cs, p0) == concat_error(cs, self.pos as int),
                forall|rest: Seq<Node>|
                    #[trigger] concat_nodes(cs, self.pos as int, rest) ==> concat_nodes(
                        cs,
                        p0,
                        nodes@ + rest,
                    ),
            ensures
                r_concat(cs, p0) == Some(self.pos as int),
                p0 <= self.pos <= cs.len(),
                self.chars@ == cs,
                concat_nodes(cs, p0, nodes@),
            decreases cs.len() - self.pos,
        {
            match self.peek() {
                None => {
                    proof {
                        assert(concat_nodes(cs, self.pos as int, Seq::empty()));
                        assert(nodes@ + Seq::<Node>::empty() =~= nodes@);
                    }
                    break;
                },
                Some(c) => {
                    if c == '|' || c == ')' {
                        proof {
                            assert(concat_nodes(cs, self.pos as int, Seq::empty()));
                            assert(nodes@ + Seq::<Node>::empty() =~= nodes@);
                        }
                        break;
                    }
                },
            }
            let ghost before = self.pos as int;
            let ghost prev = nodes@;
            match self.repetition() {
                Ok(n) => nodes.push(n),
                Err(e) => return Err(e),
            }
            assert(r_concat(cs, before) == r_concat(cs, self.pos as int));
            proof {
                assert forall|rest: Seq<Node>|
                    #[trigger] concat_nodes(cs, self.pos as int, rest) implies concat_nodes(
                        cs,
                        p0,
                        nodes@ + rest,
                    ) by {
                    let whole = seq![nodes@.last()] + rest;
                    assert(whole.drop_first() =~= rest);
                    assert(whole[0] == nodes@.last());
                    assert(concat_nodes(cs, before, whole));
                    assert(prev + whole =~= nodes@ + rest);
                }
            }
        }
        Ok(nodes)
    }

    /// One atom and the quantifier after it, if any.
    fn repetition(&mut self) -> (r: Result<Node, String>)
        requires
            old(self).pos < old(self).chars@.len(),
            old(self).chars@.len() <= usize::MAX,
        ensures
            final(self).chars@ == old(self).chars@,
            final(self).pos <= final(self).chars@.len(),
            (r is Ok) == (r_rep(old(self).chars@, old(self).pos as int) is Some),
            r is Ok ==> r_rep(old(self).chars@, old(self).pos as int) == Some(final(self).pos as int)
                && old(self).pos < final(self).pos,
            r matches Ok(n) ==> rep_node(old(self).chars@, old(self).pos as int, n),
            r matches Err(m) ==> m@ == rep_error(old(self).chars@, old(self).pos as int),
        decreases old(self).chars@.len() - old(self).pos, 2int,
    {
        let ghost cs = self.chars@;
        let ghost p0 = self.pos as int;
        let atom = match self.atom() {
            Ok(a) => a,
            Err(e) => return Err(e),
        };
        let ghost p1 = self.pos as int;
        if matches!(atom, Node::Start | Node::End) {
            let q = self.peek();
            if q == Some('*') || q == Some('+') || q == Some('?') || q == Some('{') {
                return Err(
                    malformed(self.pos, "a quantifier cannot follow an anchor"),
                );
            }
            return Ok(atom);
        }
        let q = match self.peek() {
            Some(q) => q,
            None => return Ok(atom),
        };
        let (min, max): (u32, Option<u32>) = if q == '*' {
            self.pos += 1;
            (0u32, None)
        } else if q == '+' {
            self.pos += 1;
            (1u32, None)
        } else if q == '?' {
            self.pos += 1;
            (0u32, Some(1u32))
        } else if q == '{' {
            match self.counted() {
                Ok(b) => b,
                Err(e) => return Err(e),
            }
        } else {
            return Ok(atom);
        };
        // A trailing non-greedy marker is accepted and ignored: the engine
        // asks whether a line matches, never which match wins.
        if self.peek() == Some('?') {
            self.pos += 1;
        }
        Ok(Node::Rep { min, max, node: Box::new(atom) })
    }

    /// The digits under the cursor, as a number: `None` when there are none.
    fn number(&mut self) -> (r: Result<Option<u32>, String>)
        requires
            old(self).pos <= old(self).chars@.len(),
            old(self).chars@.len() <= usize::MAX,
        ensures
            final(self).chars@ == old(self).chars@,
            final(self).pos == digits_end(old(self).chars@, old(self).pos as int),
            old(self).pos <= final(self).pos <= final(self).chars@.len(),
            match r {
                Ok(None) => number_at(old(self).chars@, old(self).pos as int, final(self).pos as int)
                    == None::<Option<int>>,
                Ok(Some(n)) => number_at(old(self).chars@, old(self).pos as int, final(self).pos as int)
                    == Some(Some(n as int)),
                Err(m) => number_at(old(self).chars@, old(self).pos as int, final(self).pos as int)
                    == Some(None::<int>) && m@ == overflow_text(
                    old(self).chars@,
                    old(self).pos as int,
                    final(self).pos as int,
                ),
            },
    {
        let ghost cs = self.chars@;
        let from = self.pos;
        while self.pos < self.chars.len() && '0' <= self.chars[self.pos] && self.chars[self.pos]
            <= '9'
            invariant
                self.chars@ == cs,
                cs == old(self).chars@,
                cs.len() <= usize::MAX,
                from == old(self).pos,
                from <= self.pos <= cs.len(),
                digits_end(cs, from as int) == digits_end(cs, self.pos as int),
                forall|j: int| from <= j < self.pos ==> is_digit(#[trigger] cs[j]),
            decreases cs.len() - self.pos,
        {
            self.pos += 1;
        }
        if from == self.pos {
            return Ok(None);
        }
        assert(all_digits(cs.subrange(from as int, self.pos as int))) by {
            assert forall|j: int| 0 <= j < self.pos - from implies is_digit(
                #[trigger] cs.subrange(from as int, self.pos as int)[j],
            ) by {
                assert(cs.subrange(from as int, self.pos as int)[j] == cs[from + j]);
            }
        }
        match parse_u32(&self.chars, from, self.pos) {
            Some(n) => Ok(Some(n)),
            None => {
                let text = sub_chars(&self.chars, from, self.pos);
                let shown = string_of(text.as_slice());
                let mut m = String::from_str("counted repetition ");
                let q = debug_text(shown.as_str());
                m.append(q.as_str());
                m.append(" overflows");
                Err(m)
            },
        }
    }

    /// `{m}`, `{m,}` or `{m,n}`: advances past the closing `}` and returns
    /// the bounds. A bound above [`REP_CAP`] is refused: the engine cannot
    /// honour it, and clamping it would answer a question nobody asked.
    fn counted(&mut self) -> (r: Result<(u32, Option<u32>), String>)
        requires
            old(self).pos < old(self).chars@.len(),
            old(self).chars@.len() <= usize::MAX,
            old(self).chars@[old(self).pos as int] == '{',
        ensures
            final(self).chars@ == old(self).chars@,
            final(self).pos <= final(self).chars@.len(),
            (r is Ok) == (r_counted(old(self).chars@, old(self).pos as int) is Some),
            r is Ok ==> r_counted(old(self).chars@, old(self).pos as int) == Some(
                final(self).pos as int,
            ) && old(self).pos < final(self).pos,
            r matches Ok((mn, mx)) ==> rep_bounds(mn, mx) == counted_bounds(
                old(self).chars@,
                old(self).pos as int,
            ),
            r matches Err(m) ==> m@ == counted_error(old(self).chars@, old(self).pos as int),
    {
        let ghost cs = self.chars@;
        let start = self.pos;
        self.pos += 1;
        let min = match self.number() {
            Ok(Some(n)) => n,
            Ok(None) => 0,
            Err(e) => return Err(e),
        };
        let ghost a = self.pos as int;
        let max: Option<u32> = if self.peek() == Some(',') {
            self.pos += 1;
            match self.number() {
                Ok(n) => n,
                Err(e) => return Err(e),
            }
        } else {
            Some(min)
        };
        if self.peek() != Some('}') {
            return Err(malformed(start, "unterminated counted repetition"));
        }
        self.pos += 1;
        let over = match max {
            Some(n) => n > REP_CAP,
            None => false,
        };
        if min > REP_CAP || over {
            let literal = sub_chars(&self.chars, start, self.pos);
            let shown = string_of(literal.as_slice());
            let mut m = malformed_prefix(start);
            m.append("counted repetition ");
            let q = debug_text(shown.as_str());
            m.append(q.as_str());
            m.append(" exceeds the 256-rep search cap)");
            return Err(m);
        }
        Ok((min, max))
    }

    /// One atom: a group, a class, `.`, an anchor, an escape or a literal
    /// (case-folded).
    fn atom(&mut self) -> (r: Result<Node, String>)
        requires
            old(self).pos <= old(self).chars@.len(),
            old(self).chars@.len() <= usize::MAX,
        ensures
            final(self).chars@ == old(self).chars@,
            final(self).pos <= final(self).chars@.len(),
            (r is Ok) == (r_atom(old(self).chars@, old(self).pos as int) is Some),
            r is Ok ==> r_atom(old(self).chars@, old(self).pos as int) == Some(final(self).pos as int)
                && old(self).pos < final(self).pos,
            match r {
                Ok(n) => (n is Start || n is End) == (old(self).chars@[old(self).pos as int] == '^'
                    || old(self).chars@[old(self).pos as int] == '$'),
                Err(_) => true,
            },
            r matches Ok(n) ==> atom_node(old(self).chars@, old(self).pos as int, n),
            r matches Err(m) ==> m@ == atom_error(old(self).chars@, old(self).pos as int),
        decreases old(self).chars@.len() - old(self).pos, 1int,
    {
        let ghost cs = self.chars@;
        let c = match self.peek() {
            Some(c) => c,
            None => return Err(String::from_str("regex ends before it is complete")),
        };
        if c == '(' {
            self.pos += 1;
            let inner = match self.alternation() {
                Ok(v) => v,
                Err(e) => return Err(e),
            };
            if self.peek() != Some(')') {
                return Err(malformed(self.pos, "unbalanced group"));
            }
            self.pos += 1;
            Ok(Node::Group(inner))
        } else if c == '[' {
            self.class()
        } else if c == '.' {
            self.pos += 1;
            Ok(Node::Any)
        } else if c == '^' {
            self.pos += 1;
            Ok(Node::Start)
        } else if c == '$' {
            self.pos += 1;
            Ok(Node::End)
        } else if c == '\\' {
            self.pos += 1;
            let e = match self.peek() {
                Some(e) => e,
                None => return Err(String::from_str("regex ends with a dangling escape")),
            };
            self.pos += 1;
            if e == 'n' {
                Ok(Node::Ch('\n'))
            } else if e == 't' {
                Ok(Node::Ch('\t'))
            } else if e == 'r' {
                Ok(Node::Ch('\r'))
            } else if e == 'f' {
                Ok(Node::Ch('\u{c}'))
            } else if e == 'd' || e == 'D' {
                let mut ranges: Vec<(char, char)> = Vec::new();
                ranges.push(('0', '9'));
                assert(ranges@ =~= seq![('0', '9')]);
                Ok(Node::Class { negated: e == 'D', ranges })
            } else if e == 'w' || e == 'W' {
                let mut ranges: Vec<(char, char)> = Vec::new();
                ranges.push(('a', 'z'));
                ranges.push(('0', '9'));
                ranges.push(('_', '_'));
                assert(ranges@ =~= seq![('a', 'z'), ('0', '9'), ('_', '_')]);
                Ok(Node::Class { negated: e == 'W', ranges })
            } else if e == 's' || e == 'S' {
                let mut ranges: Vec<(char, char)> = Vec::new();
                ranges.push((' ', ' '));
                ranges.push(('\t', '\r'));
                assert(ranges@ =~= seq![(' ', ' '), ('\t', '\r')]);
                Ok(Node::Class { negated: e == 'S', ranges })
            } else if e == '.' || e == '\\' || e == '|' || e == '*' || e == '+' || e == '?' || e
                == '(' || e == ')' || e == '[' || e == ']' || e == '{' || e == '}' || e == '^' || e
                == '$' || e == '/' {
                Ok(Node::Ch(e))
            } else {
                let mut m = String::from_str("regex escape ");
                let q = debug_char(e);
                m.append(q.as_str());
                m.append(" is not supported");
                Err(m)
            }
        } else if c == '*' || c == '+' || c == '?' {
            let mut m = malformed_prefix(self.pos);
            let q = debug_char(c);
            m.append(q.as_str());
            m.append(" with nothing to repeat)");
            Err(m)
        } else {
            self.pos += 1;
            Ok(Node::Ch(lower(c)))
        }
    }

    /// A class `[...]` or `[^...]`; a `]` in the first position is a member.
    fn class(&mut self) -> (r: Result<Node, String>)
        requires
            old(self).pos < old(self).chars@.len(),
            old(self).chars@.len() <= usize::MAX,
            old(self).chars@[old(self).pos as int] == '[',
        ensures
            final(self).chars@ == old(self).chars@,
            final(self).pos <= final(self).chars@.len(),
            (r is Ok) == (r_class(old(self).chars@, old(self).pos as int) is Some),
            r is Ok ==> r_class(old(self).chars@, old(self).pos as int) == Some(final(self).pos as int)
                && old(self).pos < final(self).pos,
            r matches Ok(n) ==> atom_node(old(self).chars@, old(self).pos as int, n),
            r matches Err(m) ==> m@ == atom_error(old(self).chars@, old(self).pos as int),
    {
        let ghost cs = self.chars@;
        let start = self.pos;
        self.pos += 1;
        let negated = if self.peek() == Some('^') {
            self.pos += 1;
            true
        } else {
            false
        };
        let ghost p1 = self.pos as int;
        assert(atom_error(cs, start as int) == class_items_error(cs, p1, true, start as int));
        let mut ranges: Vec<(char, char)> = Vec::new();
        let mut first = true;
        loop
            invariant_except_break
                r_class(cs, start as int) == r_class_items(cs, self.pos as int, first),
                class_items_error(cs, self.pos as int, first, start as int) == class_items_error(
                    cs,
                    p1,
                    true,
                    start as int,
                ),
                forall|rest: Seq<(char, char)>|
                    #[trigger] class_ranges(cs, self.pos as int, first, rest) ==> class_ranges(
                        cs,
                        p1,
                        true,
                        ranges@ + rest,
                    ),
            invariant
                atom_error(cs, start as int) == class_items_error(cs, p1, true, start as int),
                p1 == (if negated { start + 2 } else { start + 1 }),
                negated == (start + 1 < cs.len() && cs[start + 1] == '^'),
                self.chars@ == cs,
                cs == old(self).chars@,
                cs.len() <= usize::MAX,
                start == old(self).pos,
                start < self.pos <= cs.len(),
                !first ==> ranges@.len() > 0,
            ensures
                r_class(cs, start as int) == Some(self.pos as int),
                ranges@.len() > 0,
                class_ranges(cs, p1, true, ranges@),
            decreases cs.len() - self.pos,
        {
            let c = match self.peek() {
                Some(c) => c,
                None => {
                    assert(class_items_error(cs, self.pos as int, first, start as int)
                        == malformed_text(start as int, "unterminated character class"@));
                    return Err(malformed(start, "unterminated character class"));
                },
            };
            if c == ']' && !first {
                proof {
                    assert(class_ranges(cs, self.pos as int, first, Seq::empty()));
                    assert(ranges@ + Seq::<(char, char)>::empty() =~= ranges@);
                }
                self.pos += 1;
                break;
            }
            let ghost p = self.pos as int;
            let ghost first0 = first;
            let ghost before = ranges@;
            first = false;
            let lo = match self.class_char() {
                Ok(v) => v,
                Err(e) => return Err(e),
            };
            let ranged = self.peek() == Some('-') && self.pos + 1 < self.chars.len()
                && self.chars[self.pos + 1] != ']';
            let ghost p2 = self.pos as int;
            if ranged {
                self.pos += 1;
                let hi = match self.class_char() {
                    Ok(v) => v,
                    Err(e) => {
                        assert(r_class_char(cs, p) == Some((lo, p2)));
                        assert(class_items_error(cs, p, first0, start as int) == class_char_error(
                            cs,
                            p2 + 1,
                        ));
                        return Err(e);
                    },
                };
                if hi < lo {
                    let mut m = malformed_prefix(start);
                    m.append("inverted range ");
                    let a = char_text(lo);
                    m.append(a.as_str());
                    m.append("..");
                    let b = char_text(hi);
                    m.append(b.as_str());
                    m.append(")");
                    return Err(m);
                }
                ranges.push((lo, hi));
                proof {
                    assert forall|rest: Seq<(char, char)>|
                        #[trigger] class_ranges(cs, self.pos as int, first, rest) implies class_ranges(
                        cs,
                        p1,
                        true,
                        ranges@ + rest,
                    ) by {
                        let whole = seq![(lo, hi)] + rest;
                        assert(whole.drop_first() =~= rest);
                        assert(class_ranges(cs, p, first0, whole));
                        assert(before + whole =~= ranges@ + rest);
                    }
                }
            } else {
                ranges.push((lo, lo));
                proof {
                    assert forall|rest: Seq<(char, char)>|
                        #[trigger] class_ranges(cs, self.pos as int, first, rest) implies class_ranges(
                        cs,
                        p1,
                        true,
                        ranges@ + rest,
                    ) by {
                        let whole = seq![(lo, lo)] + rest;
                        assert(whole.drop_first() =~= rest);
                        assert(class_ranges(cs, p, first0, whole));
                        assert(before + whole =~= ranges@ + rest);
                    }
                }
            }
        }
        if ranges.len() == 0 {
            return Err(malformed(start, "empty character class"));
        }
        Ok(Node::Class { negated, ranges })
    }

    /// One member character of a class, case-folded; `\n`, `\t`, `\r`
    /// escape control characters and any other escaped character stands
    /// for itself.
    fn class_char(&mut self) -> (r: Result<char, String>)
        requires
            old(self).pos <= old(self).chars@.len(),
            old(self).chars@.len() <= usize::MAX,
        ensures
            final(self).chars@ == old(self).chars@,
            final(self).pos <= final(self).chars@.len(),
            match r_class_char(old(self).chars@, old(self).pos as int) {
                Some((v, p)) => r == Ok::<char, String>(v) && final(self).pos == p,
                None => r matches Err(m) && m@ == class_char_error(
                    old(self).chars@,
                    old(self).pos as int,
                ),
            },
    {
        let c = match self.peek() {
            Some(c) => c,
            None => return Err(String::from_str("regex ends inside a character class")),
        };
        if c != '\\' {
            self.pos += 1;
            return Ok(lower(c));
        }
        self.pos += 1;
        let e = match self.peek() {
            Some(e) => e,
            None => return Err(String::from_str("regex ends with a dangling escape")),
        };
        self.pos += 1;
        if e == 'n' {
            Ok('\n')
        } else if e == 't' {
            Ok('\t')
        } else if e == 'r' {
            Ok('\r')
        } else {
            Ok(lower(e))
        }
    }
}

/// "regex is malformed at position {pos} (" — the head of a refusal whose
/// detail the caller appends, with the closing `)`.
fn malformed_prefix(pos: usize) -> (m: String)
    ensures
        m@ == malformed_head(pos as int),
{
    let mut m = String::from_str("regex is malformed at position ");
    let n = number_text(pos);
    m.append(n.as_str());
    m.append(" (");
    m
}

/// Compile a pattern to its node program ([`alt_nodes`] from the start).
/// Every pattern outside the supported syntax is refused with a message
/// naming the position.
pub fn compile_regex(pattern: &str) -> (r: Result<Vec<Node>, String>)
    ensures
        (r is Ok) == accepts(pattern@),
        r matches Ok(program) ==> alt_nodes(pattern@, 0, program@),
        r matches Err(m) ==> m@ == pattern_refusal(pattern@),
{
    let chars = chars_of(pattern);
    let n = chars.len();
    let mut p = RParser { chars, pos: 0 };
    let program = match p.alternation() {
        Ok(v) => v,
        Err(e) => return Err(e),
    };
    if p.pos != p.chars.len() {
        let mut m = debug_text(pattern);
        m.append(" is malformed at position ");
        let n = number_text(p.pos);
        m.append(n.as_str());
        m.append(" (unexpected ");
        let q = debug_char(p.chars[p.pos]);
        m.append(q.as_str());
        m.append(")");
        return Err(m);
    }
    Ok(program)
}

} // verus!
