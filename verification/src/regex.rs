//! The line matcher behind `recall`'s `re:` queries: a small back-tracking
//! regex engine that decides whether a pattern matches anywhere in a line.
use vstd::prelude::*;

use crate::text::chars_of;

verus! {

/// Back-tracking budget for one line (number of node visits).
pub const REGEX_FUEL: u32 = 200_000;

/// The most repetitions one unbounded repetition enumerates.
pub const REP_CAP: u32 = 256;

/// One node of a compiled pattern.
pub enum Node {
    /// One literal (already case-folded) character.
    Ch(char),
    /// `.`: any one character.
    Any,
    /// `[...]` / `[^...]`: one character inside (or outside) the ranges.
    Class { negated: bool, ranges: Vec<(char, char)> },
    /// `^`: the start of the line.
    Start,
    /// `$`: the end of the line.
    End,
    /// A group: its nodes in sequence.
    Group(Vec<Node>),
    /// Alternatives, each a node sequence.
    Alt(Vec<Vec<Node>>),
    /// `min` to `max` (unbounded when `None`) repetitions of `node`.
    Rep { min: u32, max: Option<u32>, node: Box<Node> },
}

/// Whether `c` falls inside one of the inclusive ranges.
pub open spec fn class_hit(ranges: Seq<(char, char)>, c: char) -> bool {
    exists|i: int| 0 <= i < ranges.len() && ranges[i].0 <= c && c <= ranges[i].1
}

/// How many repetitions a repetition enumerates at most.
pub open spec fn rep_cap(max: Option<u32>) -> int {
    match max {
        Some(n) => if n < REP_CAP { n as int } else { REP_CAP as int },
        None => REP_CAP as int,
    }
}

/// The positions of the line `s` that matching `node` once from `i` can
/// reach.
pub open spec fn ends1(node: Node, s: Seq<char>, i: int) -> Set<int>
    decreases node, 0int,
{
    match node {
        Node::Ch(c) => if 0 <= i < s.len() && s[i] == c { set![i + 1] } else { Set::empty() },
        Node::Any => if 0 <= i < s.len() { set![i + 1] } else { Set::empty() },
        Node::Class { negated, ranges } => if 0 <= i < s.len() && class_hit(ranges@, s[i])
            != negated {
            set![i + 1]
        } else {
            Set::empty()
        },
        Node::Start => if i == 0 { set![i] } else { Set::empty() },
        Node::End => if i == s.len() { set![i] } else { Set::empty() },
        Node::Group(inner) => seq_ends(inner@, s, i),
        Node::Alt(branches) => alt_ends(branches@, s, i),
        Node::Rep { min, max, node } => rep_ends(*node, s, i, min as int, rep_cap(max)),
    }
}

/// The positions that matching the node sequence `nodes` from `i` can
/// reach.
pub open spec fn seq_ends(nodes: Seq<Node>, s: Seq<char>, i: int) -> Set<int>
    decreases nodes, 0int,
{
    if nodes.len() == 0 {
        set![i]
    } else {
        union_over(nodes.drop_first(), s, ends1(nodes[0], s, i), s.len() as int)
    }
}

/// The positions that matching `nodes` from any position `p <= m` of `x`
/// can reach.
pub open spec fn union_over(nodes: Seq<Node>, s: Seq<char>, x: Set<int>, m: int) -> Set<int>
    decreases nodes, if m < 0 { 0int } else { m + 1 },
{
    if m < 0 {
        Set::empty()
    } else {
        union_over(nodes, s, x, m - 1) + if x.contains(m) {
            seq_ends(nodes, s, m)
        } else {
            Set::empty()
        }
    }
}

/// The positions that matching one of the alternatives from `i` can reach.
pub open spec fn alt_ends(branches: Seq<Vec<Node>>, s: Seq<char>, i: int) -> Set<int>
    decreases branches, 0int,
{
    if branches.len() == 0 {
        Set::empty()
    } else {
        seq_ends(branches[0]@, s, i) + alt_ends(branches.drop_first(), s, i)
    }
}

/// The positions that matching `node` once from any position `p <= m`
/// of `x` can reach.
pub open spec fn step_set(node: Node, s: Seq<char>, x: Set<int>, m: int) -> Set<int>
    decreases node, if m < 0 { 0int } else { m + 1 },
{
    if m < 0 {
        Set::empty()
    } else {
        step_set(node, s, x, m - 1) + if x.contains(m) {
            ends1(node, s, m)
        } else {
            Set::empty()
        }
    }
}

/// A measure that orders the repetition definitions below.
pub open spec fn lvl(s: Seq<char>, k: int) -> int {
    s.len() + 10 + 4 * if k < -1 { 0 } else { k + 1 }
}

/// The positions that exactly `k` copies of `node` from `i` can reach.
pub open spec fn reps(node: Node, s: Seq<char>, i: int, k: int) -> Set<int>
    decreases node, lvl(s, k),
{
    if k <= 0 {
        set![i]
    } else {
        step_set(node, s, reps(node, s, i, k - 1), s.len() as int)
    }
}

/// The positions that some count of copies in `lo..=hi` can reach.
pub open spec fn reps_between(node: Node, s: Seq<char>, i: int, lo: int, hi: int) -> Set<int>
    decreases node, lvl(s, hi) + 1,
{
    if hi < lo || hi < 0 {
        Set::empty()
    } else {
        reps(node, s, i, hi) + reps_between(node, s, i, lo, hi - 1)
    }
}

/// `a` and `b` hold the same positions of a line of length `n`.
pub open spec fn same_within(a: Set<int>, b: Set<int>, n: int) -> bool {
    forall|q: int| 0 <= q <= n ==> (a.contains(q) <==> b.contains(q))
}

/// `a` holds some position of a line of length `n`.
pub open spec fn some_within(a: Set<int>, n: int) -> bool {
    exists|q: int| 0 <= q <= n && a.contains(q)
}

/// One more copy reaches exactly the same, non-empty, positions of the line.
pub open spec fn fixpoint_at(node: Node, s: Seq<char>, i: int, c: int) -> bool
    decreases node, lvl(s, c) + 5,
{
    same_within(reps(node, s, i, c + 1), reps(node, s, i, c), s.len() as int) && some_within(
        reps(node, s, i, c),
        s.len() as int,
    )
}

/// A fixpoint is reached at some count below `c`.
pub open spec fn fixpoint_below(node: Node, s: Seq<char>, i: int, c: int) -> bool
    decreases node, lvl(s, c) + 2,
{
    if c <= 0 {
        false
    } else {
        fixpoint_at(node, s, i, c - 1) || fixpoint_below(node, s, i, c - 1)
    }
}

/// The positions a repetition of `min` to `cap` copies reaches. For an
/// empty count range (`min > cap`) the engine answers only when the copies
/// reach a fixpoint below `cap`, with the positions of that fixpoint.
pub open spec fn rep_ends(node: Node, s: Seq<char>, i: int, min: int, cap: int) -> Set<int>
    decreases node, lvl(s, cap) + 3,
{
    if min <= cap {
        reps_between(node, s, i, min, cap)
    } else if fixpoint_below(node, s, i, cap) {
        reps(node, s, i, cap)
    } else {
        Set::empty()
    }
}

/// Every repetition in `node` has a non-empty count range.
pub open spec fn wb(node: Node) -> bool
    decreases node, 0int,
{
    match node {
        Node::Group(inner) => wb_seq(inner@),
        Node::Alt(branches) => wb_alt(branches@),
        Node::Rep { min, max, node } => min <= rep_cap(max) && wb(*node),
        _ => true,
    }
}

/// [`wb`] for every node of a sequence.
pub open spec fn wb_seq(nodes: Seq<Node>) -> bool
    decreases nodes, 0int,
{
    nodes.len() == 0 || (wb(nodes[0]) && wb_seq(nodes.drop_first()))
}

/// [`wb`] for every node of every alternative.
pub open spec fn wb_alt(branches: Seq<Vec<Node>>) -> bool
    decreases branches, 0int,
{
    branches.len() == 0 || (wb_seq(branches[0]@) && wb_alt(branches.drop_first()))
}

/// Whether the (already case-folded) program matches somewhere in `s`:
/// from some start position to some end position.
pub open spec fn regex_search(program: Seq<Node>, s: Seq<char>) -> bool {
    exists|i: int, j: int|
        0 <= i <= s.len() && 0 <= j <= s.len() && #[trigger] seq_ends(program, s, i).contains(j)
}

/// What [`union_over`] holds: the ends of `nodes` from the members of `x`
/// in `0..=m`.
pub proof fn lemma_union_over(nodes: Seq<Node>, s: Seq<char>, x: Set<int>, m: int, q: int)
    ensures
        union_over(nodes, s, x, m).contains(q) <==> exists|p: int|
            0 <= p <= m && x.contains(p) && #[trigger] seq_ends(nodes, s, p).contains(q),
    decreases if m < 0 { 0int } else { m + 1 },
{
    if m >= 0 {
        lemma_union_over(nodes, s, x, m - 1, q);
        if x.contains(m) && seq_ends(nodes, s, m).contains(q) {
            assert(union_over(nodes, s, x, m).contains(q));
        }
        if union_over(nodes, s, x, m).contains(q) && !union_over(nodes, s, x, m - 1).contains(q) {
            assert(seq_ends(nodes, s, m).contains(q));
        }
    }
}

/// What [`step_set`] holds: the ends of one `node` from the members of `x`
/// in `0..=m`.
pub proof fn lemma_step_set(node: Node, s: Seq<char>, x: Set<int>, m: int, q: int)
    ensures
        step_set(node, s, x, m).contains(q) <==> exists|p: int|
            0 <= p <= m && x.contains(p) && #[trigger] ends1(node, s, p).contains(q),
    decreases if m < 0 { 0int } else { m + 1 },
{
    if m >= 0 {
        lemma_step_set(node, s, x, m - 1, q);
        if x.contains(m) && ends1(node, s, m).contains(q) {
            assert(step_set(node, s, x, m).contains(q));
        }
        if step_set(node, s, x, m).contains(q) && !step_set(node, s, x, m - 1).contains(q) {
            assert(ends1(node, s, m).contains(q));
        }
    }
}

/// What [`alt_ends`] holds: the ends of any one alternative.
pub proof fn lemma_alt_ends(branches: Seq<Vec<Node>>, s: Seq<char>, i: int, q: int)
    ensures
        alt_ends(branches, s, i).contains(q) <==> exists|b: int|
            0 <= b < branches.len() && #[trigger] seq_ends(branches[b]@, s, i).contains(q),
    decreases branches.len(),
{
    if branches.len() > 0 {
        let rest = branches.drop_first();
        lemma_alt_ends(rest, s, i, q);
        assert(alt_ends(branches, s, i) == seq_ends(branches[0]@, s, i) + alt_ends(rest, s, i));
        if seq_ends(branches[0]@, s, i).contains(q) {
            assert(seq_ends(branches[0]@, s, i).contains(q));
        }
        if exists|b: int| 0 <= b < rest.len() && #[trigger] seq_ends(rest[b]@, s, i).contains(q) {
            let b = choose|b: int| 0 <= b < rest.len() && #[trigger] seq_ends(rest[b]@, s, i).contains(q);
            assert(rest[b] == branches[b + 1]);
            assert(seq_ends(branches[b + 1]@, s, i).contains(q));
        }
        if exists|b: int| 0 <= b < branches.len() && #[trigger] seq_ends(branches[b]@, s, i).contains(q) {
            let b = choose|b: int| 0 <= b < branches.len() && #[trigger] seq_ends(branches[b]@, s, i).contains(q);
            if b > 0 {
                assert(rest[b - 1] == branches[b]);
                assert(seq_ends(rest[b - 1]@, s, i).contains(q));
            }
        }
    }
}

/// The search budget of one line.
pub struct Ctx {
    pub fuel: u32,
    pub exhausted: bool,
}

/// A node that matches at one position or none: a character, `.`, a
/// class or an anchor.
pub open spec fn atom(node: Node) -> bool {
    node is Ch || node is Any || node is Class || node is Start || node is End
}

/// A program of atoms alone.
pub open spec fn flat(nodes: Seq<Node>) -> bool {
    forall|i: int| 0 <= i < nodes.len() ==> atom(#[trigger] nodes[i])
}

/// Every position in `v` is at most `n`.
pub open spec fn bounded(v: Seq<usize>, n: int) -> bool {
    forall|k: int| 0 <= k < v.len() ==> v[k] <= n
}

/// The number of nodes over all alternatives.
pub open spec fn atoms_in(branches: Seq<Vec<Node>>) -> nat
    decreases branches.len(),
{
    if branches.len() == 0 {
        0
    } else {
        branches[0]@.len() + atoms_in(branches.drop_first())
    }
}

/// How the budget of a search evolves from `before` to `after`: fuel is
/// only ever spent, and the search is cut short only once it has none left.
pub open spec fn spent(before: Ctx, after: Ctx) -> bool {
    &&& after.fuel <= before.fuel
    &&& after.exhausted ==> before.exhausted || after.fuel == 0
}

/// The most end positions one visit of `node` reports on a line of `n`
/// characters: one for an atom, the product over a sequence, the sum over
/// alternatives, and every position for a repetition.
pub open spec fn width(node: Node, n: nat) -> nat
    decreases node, 0int,
{
    match node {
        Node::Group(inner) => width_seq(inner@, n),
        Node::Alt(branches) => width_alt(branches@, n),
        Node::Rep { .. } => n + 1,
        _ => 1,
    }
}

/// [`width`] of a node sequence: the product of its nodes' widths.
pub open spec fn width_seq(nodes: Seq<Node>, n: nat) -> nat
    decreases nodes, 0int,
{
    if nodes.len() == 0 {
        1
    } else {
        width(nodes[0], n) * width_seq(nodes.drop_first(), n)
    }
}

/// [`width`] of an alternation: the sum of its alternatives' widths.
pub open spec fn width_alt(branches: Seq<Vec<Node>>, n: nat) -> nat
    decreases branches, 0int,
{
    if branches.len() == 0 {
        0
    } else {
        width_seq(branches[0]@, n) + width_alt(branches.drop_first(), n)
    }
}

/// The node visits that matching `node` once on a line of `n` characters
/// costs at most: the visit of the node itself and of everything inside
/// it. A repetition steps its body from every position, once per count it
/// enumerates.
pub open spec fn cost(node: Node, n: nat) -> nat
    decreases node, 0int,
{
    match node {
        Node::Group(inner) => 1 + cost_seq(inner@, n),
        Node::Alt(branches) => 1 + cost_alt(branches@, n),
        Node::Rep { max, node, .. } => 1 + (rep_cap(max) as nat) * (n + 1) * cost(*node, n),
        _ => 1,
    }
}

/// [`cost`] of a node sequence: its first node, then the rest once from
/// each position the first node reports.
pub open spec fn cost_seq(nodes: Seq<Node>, n: nat) -> nat
    decreases nodes, 0int,
{
    if nodes.len() == 0 {
        0
    } else {
        cost(nodes[0], n) + width(nodes[0], n) * cost_seq(nodes.drop_first(), n)
    }
}

/// [`cost`] of an alternation: every alternative is tried.
pub open spec fn cost_alt(branches: Seq<Vec<Node>>, n: nat) -> nat
    decreases branches, 0int,
{
    if branches.len() == 0 {
        0
    } else {
        cost_seq(branches[0]@, n) + cost_alt(branches.drop_first(), n)
    }
}

/// A program of atoms alone reports at most one end per start position
/// and costs one visit per atom, whatever the line's length.
pub proof fn lemma_flat_cost(nodes: Seq<Node>, n: nat)
    requires
        flat(nodes),
    ensures
        cost_seq(nodes, n) == nodes.len(),
        width_seq(nodes, n) == 1,
    decreases nodes.len(),
{
    if nodes.len() > 0 {
        let rest = nodes.drop_first();
        assert forall|i: int| 0 <= i < rest.len() implies atom(#[trigger] rest[i]) by {
            assert(rest[i] == nodes[i + 1]);
        }
        lemma_flat_cost(rest, n);
        assert(atom(nodes[0]));
        let w = width(nodes[0], n) as int;
        assert(w == 1 && cost(nodes[0], n) == 1);
        assert(w * cost_seq(rest, n) == cost_seq(rest, n)) by (nonlinear_arith)
            requires
                w == 1,
        ;
        assert(w * width_seq(rest, n) == width_seq(rest, n)) by (nonlinear_arith)
            requires
                w == 1,
        ;
    }
}

/// An alternation of literal alternatives, such as `error|warn|fail`,
/// costs one visit for the alternation plus one per atom over all its
/// alternatives, so on a line of `n` characters its search needs at most
/// `(n + 1)` times that many visits.
pub proof fn lemma_literal_alternation_cost(program: Seq<Node>, n: nat)
    requires
        program.len() == 1,
        program[0] is Alt,
        forall|b: int|
            0 <= b < program[0]->Alt_0@.len() ==> flat(#[trigger] program[0]->Alt_0@[b]@),
    ensures
        cost_seq(program, n) == 1 + atoms_in(program[0]->Alt_0@),
{
    let bs = program[0]->Alt_0@;
    lemma_literal_alts(bs, n);
    let rest = program.drop_first();
    assert(rest.len() == 0);
    assert(cost(program[0], n) == 1 + cost_alt(bs, n));
    assert(cost_seq(rest, n) == 0);
    let w = width(program[0], n) as int;
    assert(w * cost_seq(rest, n) == 0) by (nonlinear_arith)
        requires
            cost_seq(rest, n) == 0,
    ;
}

/// [`lemma_literal_alternation_cost`] over the alternatives.
proof fn lemma_literal_alts(bs: Seq<Vec<Node>>, n: nat)
    requires
        forall|b: int| 0 <= b < bs.len() ==> flat(#[trigger] bs[b]@),
    ensures
        cost_alt(bs, n) == atoms_in(bs),
    decreases bs.len(),
{
    if bs.len() > 0 {
        let rest = bs.drop_first();
        assert forall|b: int| 0 <= b < rest.len() implies flat(#[trigger] rest[b]@) by {
            assert(rest[b] == bs[b + 1]);
        }
        lemma_literal_alts(rest, n);
        assert(flat(bs[0]@));
        lemma_flat_cost(bs[0]@, n);
    }
}

/// A bitmap over positions `0..=n`, all clear.
fn empty_bits(n: usize) -> (b: Vec<bool>)
    requires
        n < usize::MAX,
    ensures
        b@.len() == n + 1,
        forall|q: int| 0 <= q <= n ==> !b@[q],
{
    let mut b: Vec<bool> = Vec::new();
    let mut i: usize = 0;
    while i <= n
        invariant
            i <= n + 1,
            n < usize::MAX,
            b@.len() == i,
            forall|q: int| 0 <= q < i ==> !b@[q],
        decreases n + 1 - i,
    {
        b.push(false);
        i += 1;
    }
    b
}

/// The set positions of a bitmap, in increasing order.
fn positions_of(bits: &Vec<bool>) -> (r: Vec<usize>)
    ensures
        bounded(r@, bits@.len() - 1),
        forall|k: int| 0 <= k < r@.len() ==> bits@[r@[k] as int],
        forall|q: int| 0 <= q < bits@.len() && bits@[q] ==> r@.contains(q as usize),
        r@.len() <= bits@.len(),
{
    let mut r: Vec<usize> = Vec::new();
    let mut i: usize = 0;
    while i < bits.len()
        invariant
            i <= bits.len(),
            r@.len() <= i,
            forall|k: int| 0 <= k < r@.len() ==> r@[k] < i && bits@[r@[k] as int],
            forall|q: int| 0 <= q < i && bits@[q] ==> r@.contains(q as usize),
        decreases bits.len() - i,
    {
        let ghost r0 = r@;
        if bits[i] {
            r.push(i);
            assert(r@[r@.len() - 1] == i);
            assert(r@.contains(i));
            assert forall|q: int| 0 <= q < i && bits@[q] implies r@.contains(q as usize) by {
                assert(r0.contains(q as usize));
                let j = choose|j: int| 0 <= j < r0.len() && r0[j] == q as usize;
                assert(r@[j] == q as usize);
            }
        }
        i += 1;
    }
    r
}

/// Whether two bitmaps are equal.
fn bits_equal(a: &Vec<bool>, b: &Vec<bool>) -> (r: bool)
    ensures
        r == (a@ == b@),
{
    if a.len() != b.len() {
        return false;
    }
    let mut i: usize = 0;
    while i < a.len()
        invariant
            i <= a.len(),
            a@.len() == b@.len(),
            forall|q: int| 0 <= q < i ==> a@[q] == b@[q],
        decreases a.len() - i,
    {
        if a[i] != b[i] {
            return false;
        }
        i += 1;
    }
    assert(a@ =~= b@);
    true
}

/// The bitwise union of two bitmaps of the same length.
fn or_bits(a: &Vec<bool>, b: &Vec<bool>) -> (r: Vec<bool>)
    requires
        a@.len() == b@.len(),
    ensures
        r@.len() == a@.len(),
        forall|q: int| 0 <= q < a@.len() ==> r@[q] == (a@[q] || b@[q]),
{
    let mut r: Vec<bool> = Vec::new();
    let mut i: usize = 0;
    while i < a.len()
        invariant
            i <= a@.len(),
            a@.len() == b@.len(),
            r@.len() == i,
            forall|q: int| 0 <= q < i ==> r@[q] == (a@[q] || b@[q]),
        decreases a.len() - i,
    {
        r.push(a[i] || b[i]);
        i += 1;
    }
    r
}

/// Whether `c` falls inside one of `ranges`.
fn class_hit_exec(ranges: &Vec<(char, char)>, c: char) -> (r: bool)
    ensures
        r == class_hit(ranges@, c),
{
    let mut i: usize = 0;
    while i < ranges.len()
        invariant
            i <= ranges.len(),
            forall|k: int| 0 <= k < i ==> !(ranges@[k].0 <= c && c <= ranges@[k].1),
        decreases ranges.len() - i,
    {
        let (lo, hi) = ranges[i];
        if lo <= c && c <= hi {
            return true;
        }
        i += 1;
    }
    false
}

/// The ends of a node sequence as the engine builds them: the ends of the
/// first node, each followed by the ends of the rest.
proof fn lemma_seq_ends_cons(nodes: Seq<Node>, s: Seq<char>, i: int, q: int)
    requires
        nodes.len() > 0,
    ensures
        seq_ends(nodes, s, i).contains(q) <==> exists|p: int|
            0 <= p <= s.len() && ends1(nodes[0], s, i).contains(p) && #[trigger] seq_ends(
                nodes.drop_first(),
                s,
                p,
            ).contains(q),
{
    lemma_union_over(nodes.drop_first(), s, ends1(nodes[0], s, i), s.len() as int, q);
}

/// Every position reachable by matching `nodes[idx..]` from `pos`.
fn ends_of(nodes: &Vec<Node>, idx: usize, s: &Vec<char>, pos: usize, ctx: &mut Ctx) -> (out: Vec<
    usize,
>)
    requires
        idx <= nodes@.len(),
        pos <= s@.len(),
        s@.len() < usize::MAX,
    ensures
        bounded(out@, s@.len() as int),
        old(ctx).exhausted ==> final(ctx).exhausted,
        !final(ctx).exhausted ==> forall|q: usize|
            q <= s@.len() ==> (out@.contains(q) <==> seq_ends(
                nodes@.subrange(idx as int, nodes@.len() as int),
                s@,
                pos as int,
            ).contains(q as int)),
        wb_seq(nodes@.subrange(idx as int, nodes@.len() as int)) ==> forall|k: int|
            0 <= k < out@.len() ==> seq_ends(
                nodes@.subrange(idx as int, nodes@.len() as int),
                s@,
                pos as int,
            ).contains(#[trigger] out@[k] as int),
        flat(nodes@.subrange(idx as int, nodes@.len() as int)) && !old(ctx).exhausted
            && old(ctx).fuel >= nodes@.len() - idx ==> !final(ctx).exhausted
            && final(ctx).fuel >= old(ctx).fuel - (nodes@.len() - idx),
        spent(*old(ctx), *final(ctx)),
        !old(ctx).exhausted && old(ctx).fuel >= cost_seq(
            nodes@.subrange(idx as int, nodes@.len() as int),
            s@.len(),
        ) ==> !final(ctx).exhausted && final(ctx).fuel >= old(ctx).fuel - cost_seq(
            nodes@.subrange(idx as int, nodes@.len() as int),
            s@.len(),
        ) && out@.len() <= width_seq(nodes@.subrange(idx as int, nodes@.len() as int), s@.len()),
    decreases nodes@, nodes@.len() - idx,
{
    let ghost sub = nodes@.subrange(idx as int, nodes@.len() as int);
    let ghost f0 = ctx.fuel as int;
    let ghost c0 = *ctx;
    let ghost flat_case = flat(sub) && !ctx.exhausted && ctx.fuel >= sub.len();
    let ghost rf_case = !ctx.exhausted && ctx.fuel >= cost_seq(sub, s@.len());
    if idx == nodes.len() {
        let mut out: Vec<usize> = Vec::new();
        out.push(pos);
        proof {
            assert(sub.len() == 0);
            assert forall|q: usize| q <= s@.len() implies (out@.contains(q) <==> seq_ends(
                sub,
                s@,
                pos as int,
            ).contains(q as int)) by {
                if q == pos {
                    assert(out@[0] == pos);
                }
            }
        }
        return out;
    }
    let ghost rest = nodes@.subrange(idx + 1, nodes@.len() as int);
    let ghost head = nodes@[idx as int];
    assert(sub.drop_first() =~= rest);
    assert(sub[0] == head);
    proof {
        if flat(sub) {
            assert(atom(sub[0]));
            assert forall|i: int| 0 <= i < rest.len() implies atom(#[trigger] rest[i]) by {
                assert(rest[i] == sub[i + 1]);
            }
        }
    }
    let ghost ch = cost(head, s@.len()) as int;
    let ghost cr = cost_seq(rest, s@.len()) as int;
    let ghost wh = width(head, s@.len()) as int;
    let ghost wr = width_seq(rest, s@.len()) as int;
    proof {
        if rf_case {
            assert(cost_seq(sub, s@.len()) == ch + wh * cr);
            assert(width_seq(sub, s@.len()) == wh * wr);
            assert(wh * cr >= 0) by (nonlinear_arith)
                requires
                    wh >= 0,
                    cr >= 0,
            ;
        }
    }
    let firsts = ends_of_one(&nodes[idx], s, pos, ctx);
    let ghost ex0 = ctx.exhausted;
    let mut out: Vec<usize> = Vec::new();
    let mut k: usize = 0;
    while k < firsts.len()
        invariant
            k <= firsts@.len(),
            idx < nodes.len(),
            head == nodes@[idx as int],
            !ex0 ==> forall|q: usize|
                q <= s@.len() ==> (#[trigger] firsts@.contains(q) <==> ends1(head, s@, pos as int).contains(
                    q as int,
                )),
            wb(head) ==> forall|j: int|
                0 <= j < firsts@.len() ==> ends1(head, s@, pos as int).contains(
                    #[trigger] firsts@[j] as int,
                ),
            pos <= s@.len(),
            s@.len() < usize::MAX,
            rest == nodes@.subrange(idx + 1, nodes@.len() as int),
            bounded(firsts@, s@.len() as int),
            bounded(out@, s@.len() as int),
            old(ctx).exhausted ==> ctx.exhausted,
            ex0 ==> ctx.exhausted,
            !ctx.exhausted ==> forall|q: usize|
                q <= s@.len() ==> (out@.contains(q) <==> exists|kk: int|
                    0 <= kk < k && #[trigger] seq_ends(rest, s@, firsts@[kk] as int).contains(q as int)),
            wb_seq(rest) ==> forall|j: int|
                0 <= j < out@.len() ==> exists|kk: int|
                    0 <= kk < k && seq_ends(rest, s@, firsts@[kk] as int).contains(
                        #[trigger] out@[j] as int,
                    ),
            flat_case ==> flat(rest) && firsts@.len() <= 1 && !ctx.exhausted && f0 >= rest.len()
                + 1 && (k == 0 ==> ctx.fuel == f0 - 1) && ctx.fuel >= f0 - 1 - rest.len(),
            spent(c0, *ctx),
            c0 == *old(ctx),
            f0 == c0.fuel,
            ch == cost(head, s@.len()),
            cr == cost_seq(rest, s@.len()),
            wh == width(head, s@.len()),
            wr == width_seq(rest, s@.len()),
            rf_case ==> !ctx.exhausted && firsts@.len() <= wh && ctx.fuel
                >= f0 - ch - k * cr && out@.len() <= k * wr && f0 >= ch + wh * cr && cr >= 0 && wr
                >= 0,
        decreases firsts@.len() - k,
    {
        proof {
            if rf_case {
                assert((wh - k) * cr >= cr) by (nonlinear_arith)
                    requires
                        k < wh,
                        cr >= 0,
                ;
                assert(wh * cr - k * cr == (wh - k) * cr) by (nonlinear_arith);
            }
        }
        let ghost fk = ctx.fuel as int;
        let mut more = ends_of(nodes, idx + 1, s, firsts[k], ctx);
        let ghost before = out@;
        let ghost m = more@;
        out.append(&mut more);
        proof {
            assert(out@ == before + m);
            if rf_case {
                assert((k + 1) * cr == k * cr + cr) by (nonlinear_arith);
                assert((k + 1) * wr == k * wr + wr) by (nonlinear_arith);
            }
            if !ctx.exhausted {
                assert forall|q: usize| q <= s@.len() implies (out@.contains(q) <==> exists|kk: int|
                    0 <= kk < k + 1 && #[trigger] seq_ends(rest, s@, firsts@[kk] as int).contains(
                        q as int,
                    )) by {
                    if out@.contains(q) {
                        let j = choose|j: int| 0 <= j < out@.len() && out@[j] == q;
                        if j < before.len() {
                            assert(before[j] == q);
                            assert(before.contains(q));
                        } else {
                            assert(m[j - before.len()] == q);
                            assert(m.contains(q));
                            assert(seq_ends(rest, s@, firsts@[k as int] as int).contains(q as int));
                        }
                    }
                    if exists|kk: int|
                        0 <= kk < k + 1 && #[trigger] seq_ends(rest, s@, firsts@[kk] as int).contains(
                            q as int,
                        ) {
                        let kk = choose|kk: int|
                            0 <= kk < k + 1 && #[trigger] seq_ends(rest, s@, firsts@[kk] as int).contains(
                                q as int,
                            );
                        if kk < k {
                            assert(before.contains(q));
                            let j = choose|j: int| 0 <= j < before.len() && before[j] == q;
                            assert(out@[j] == q);
                        } else {
                            assert(m.contains(q));
                            let j = choose|j: int| 0 <= j < m.len() && m[j] == q;
                            assert(out@[before.len() + j] == q);
                        }
                    }
                }
            }
            if wb_seq(rest) {
                assert forall|j: int| 0 <= j < out@.len() implies exists|kk: int|
                    0 <= kk < k + 1 && seq_ends(rest, s@, firsts@[kk] as int).contains(
                        #[trigger] out@[j] as int,
                    ) by {
                    if j < before.len() {
                        assert(out@[j] == before[j]);
                    } else {
                        assert(out@[j] == m[j - before.len()]);
                        assert(seq_ends(rest, s@, firsts@[k as int] as int).contains(out@[j] as int));
                    }
                }
            }
        }
        k += 1;
    }
    proof {
        if rf_case {
            assert(k * cr <= wh * cr) by (nonlinear_arith)
                requires
                    k <= wh,
                    cr >= 0,
            ;
            assert(k * wr <= wh * wr) by (nonlinear_arith)
                requires
                    k <= wh,
                    wr >= 0,
            ;
        }
        if !ctx.exhausted {
            assert forall|q: usize| q <= s@.len() implies (out@.contains(q) <==> seq_ends(
                sub,
                s@,
                pos as int,
            ).contains(q as int)) by {
                lemma_seq_ends_cons(sub, s@, pos as int, q as int);
                if seq_ends(sub, s@, pos as int).contains(q as int) {
                    let p = choose|p: int|
                        0 <= p <= s@.len() && ends1(sub[0], s@, pos as int).contains(p)
                            && #[trigger] seq_ends(sub.drop_first(), s@, p).contains(q as int);
                    let pq = p as usize;
                    assert(firsts@.contains(pq));
                    let kk = choose|kk: int| 0 <= kk < firsts@.len() && firsts@[kk] == pq;
                    assert(seq_ends(rest, s@, firsts@[kk] as int).contains(q as int));
                }
                if out@.contains(q) {
                    let kk = choose|kk: int|
                        0 <= kk < k && #[trigger] seq_ends(rest, s@, firsts@[kk] as int).contains(
                            q as int,
                        );
                    assert(firsts@.contains(firsts@[kk]));
                    assert(ends1(sub[0], s@, pos as int).contains(firsts@[kk] as int));
                    assert(seq_ends(sub.drop_first(), s@, firsts@[kk] as int).contains(q as int));
                }
            }
        }
        if wb_seq(sub) {
            assert(wb(sub[0]) && wb_seq(rest));
            assert forall|j: int| 0 <= j < out@.len() implies seq_ends(sub, s@, pos as int).contains(
                #[trigger] out@[j] as int,
            ) by {
                let kk = choose|kk: int|
                    0 <= kk < k && seq_ends(rest, s@, firsts@[kk] as int).contains(out@[j] as int);
                assert(ends1(sub[0], s@, pos as int).contains(firsts@[kk] as int));
                lemma_seq_ends_cons(sub, s@, pos as int, out@[j] as int);
                assert(seq_ends(sub.drop_first(), s@, firsts@[kk] as int).contains(out@[j] as int));
            }
        }
    }
    out
}

/// Every position reachable by matching `node` once from `pos`.
fn ends_of_one(node: &Node, s: &Vec<char>, pos: usize, ctx: &mut Ctx) -> (out: Vec<usize>)
    requires
        pos <= s@.len(),
        s@.len() < usize::MAX,
    ensures
        bounded(out@, s@.len() as int),
        old(ctx).exhausted ==> final(ctx).exhausted,
        !final(ctx).exhausted ==> forall|q: usize|
            q <= s@.len() ==> (out@.contains(q) <==> ends1(*node, s@, pos as int).contains(q as int)),
        wb(*node) ==> forall|k: int|
            0 <= k < out@.len() ==> ends1(*node, s@, pos as int).contains(#[trigger] out@[k] as int),
        atom(*node) ==> out@.len() <= 1,
        atom(*node) && !old(ctx).exhausted && old(ctx).fuel > 0 ==> !final(ctx).exhausted
            && final(ctx).fuel == old(ctx).fuel - 1,
        spent(*old(ctx), *final(ctx)),
        !old(ctx).exhausted && old(ctx).fuel >= cost(*node, s@.len()) ==> !final(ctx).exhausted
            && final(ctx).fuel >= old(ctx).fuel - cost(*node, s@.len()) && out@.len() <= width(
            *node,
            s@.len(),
        ),
    decreases *node, 0int,
{
    if ctx.fuel == 0 {
        ctx.exhausted = true;
        return Vec::new();
    }
    ctx.fuel = ctx.fuel - 1;
    let mut out: Vec<usize> = Vec::new();
    match node {
        Node::Ch(c) => {
            if pos < s.len() && s[pos] == *c {
                out.push(pos + 1);
                assert(out@[0] == pos + 1);
            }
        },
        Node::Any => {
            if pos < s.len() {
                out.push(pos + 1);
                assert(out@[0] == pos + 1);
            }
        },
        Node::Start => {
            if pos == 0 {
                out.push(pos);
                assert(out@[0] == pos);
            }
        },
        Node::End => {
            if pos == s.len() {
                out.push(pos);
                assert(out@[0] == pos);
            }
        },
        Node::Class { negated, ranges } => {
            if pos < s.len() {
                let hit = class_hit_exec(ranges, s[pos]);
                if hit != *negated {
                    out.push(pos + 1);
                    assert(out@[0] == pos + 1);
                }
            }
        },
        Node::Group(inner) => {
            out = ends_of(inner, 0, s, pos, ctx);
            assert(inner@.subrange(0, inner@.len() as int) =~= inner@);
        },
        Node::Alt(branches) => {
            out = alt_ends_of(branches, s, pos, ctx);
        },
        Node::Rep { min, max, node: body } => {
            out = rep_ends_of(body, *min, *max, s, pos, ctx);
        },
    }
    out
}

/// Every position reachable by matching one of `branches` from `pos`, the
/// alternatives taken in order.
fn alt_ends_of(branches: &Vec<Vec<Node>>, s: &Vec<char>, pos: usize, ctx: &mut Ctx) -> (out: Vec<
    usize,
>)
    requires
        pos <= s@.len(),
        s@.len() < usize::MAX,
    ensures
        bounded(out@, s@.len() as int),
        old(ctx).exhausted ==> final(ctx).exhausted,
        !final(ctx).exhausted ==> forall|q: usize|
            q <= s@.len() ==> (out@.contains(q) <==> alt_ends(branches@, s@, pos as int).contains(
                q as int,
            )),
        wb_alt(branches@) ==> forall|k: int|
            0 <= k < out@.len() ==> alt_ends(branches@, s@, pos as int).contains(
                #[trigger] out@[k] as int,
            ),
        spent(*old(ctx), *final(ctx)),
        !old(ctx).exhausted && old(ctx).fuel >= cost_alt(branches@, s@.len())
            ==> !final(ctx).exhausted && final(ctx).fuel >= old(ctx).fuel - cost_alt(
            branches@,
            s@.len(),
        ) && out@.len() <= width_alt(branches@, s@.len()),
    decreases branches@, 1int,
{
    let mut out: Vec<usize> = Vec::new();
    let mut b: usize = 0;
    let ghost c0 = *ctx;
    let ghost f0 = ctx.fuel as int;
    let ghost rf_case = !ctx.exhausted && ctx.fuel >= cost_alt(branches@, s@.len());
    proof {
        assert(branches@.subrange(0, branches@.len() as int) =~= branches@);
    }
    while b < branches.len()
        invariant
            b <= branches@.len(),
            spent(c0, *ctx),
            c0 == *old(ctx),
            f0 == c0.fuel,
            rf_case ==> f0 >= cost_alt(branches@, s@.len()),
            rf_case ==> !ctx.exhausted && ctx.fuel - cost_alt(
                branches@.subrange(b as int, branches@.len() as int),
                s@.len(),
            ) >= f0 - cost_alt(branches@, s@.len()) && out@.len() + width_alt(
                branches@.subrange(b as int, branches@.len() as int),
                s@.len(),
            ) <= width_alt(branches@, s@.len()),
            pos <= s@.len(),
            s@.len() < usize::MAX,
            bounded(out@, s@.len() as int),
            old(ctx).exhausted ==> ctx.exhausted,
            !ctx.exhausted ==> forall|q: usize|
                q <= s@.len() ==> (out@.contains(q) <==> exists|bb: int|
                    0 <= bb < b && #[trigger] seq_ends(branches@[bb]@, s@, pos as int).contains(q as int)),
            wb_alt(branches@) ==> forall|j: int|
                0 <= j < out@.len() ==> exists|bb: int|
                    0 <= bb < b && seq_ends(branches@[bb]@, s@, pos as int).contains(
                        #[trigger] out@[j] as int,
                    ),
        decreases branches@.len() - b,
    {
        proof {
            let tail = branches@.subrange(b as int, branches@.len() as int);
            assert(tail[0] == branches@[b as int]);
            assert(tail.drop_first() =~= branches@.subrange(b + 1, branches@.len() as int));
            assert(branches@[b as int]@.subrange(0, branches@[b as int]@.len() as int)
                =~= branches@[b as int]@);
            if rf_case {
                assert(cost_alt(tail, s@.len()) == cost_seq(branches@[b as int]@, s@.len())
                    + cost_alt(tail.drop_first(), s@.len()));
                assert(width_alt(tail, s@.len()) == width_seq(branches@[b as int]@, s@.len())
                    + width_alt(tail.drop_first(), s@.len()));
            }
        }
        let ghost fb = ctx.fuel as int;
        let mut more = ends_of(&branches[b], 0, s, pos, ctx);
        let ghost br = branches@[b as int]@;
        assert(br.subrange(0, br.len() as int) =~= br);
        let ghost before = out@;
        let ghost m = more@;
        out.append(&mut more);
        proof {
            assert(out@ == before + m);
            if rf_case {
                assert(ctx.fuel >= fb - cost_seq(br, s@.len()));
                assert(m.len() <= width_seq(br, s@.len()));
            }
            if !ctx.exhausted {
                assert forall|q: usize| q <= s@.len() implies (out@.contains(q) <==> exists|bb: int|
                    0 <= bb < b + 1 && #[trigger] seq_ends(branches@[bb]@, s@, pos as int).contains(
                        q as int,
                    )) by {
                    if out@.contains(q) {
                        let j = choose|j: int| 0 <= j < out@.len() && out@[j] == q;
                        if j < before.len() {
                            assert(before[j] == q);
                            assert(before.contains(q));
                        } else {
                            assert(m[j - before.len()] == q);
                            assert(m.contains(q));
                            assert(seq_ends(branches@[b as int]@, s@, pos as int).contains(q as int));
                        }
                    }
                    if exists|bb: int|
                        0 <= bb < b + 1 && #[trigger] seq_ends(branches@[bb]@, s@, pos as int).contains(
                            q as int,
                        ) {
                        let bb = choose|bb: int|
                            0 <= bb < b + 1 && #[trigger] seq_ends(branches@[bb]@, s@, pos as int).contains(
                                q as int,
                            );
                        if bb < b {
                            assert(before.contains(q));
                            let j = choose|j: int| 0 <= j < before.len() && before[j] == q;
                            assert(out@[j] == q);
                        } else {
                            assert(m.contains(q));
                            let j = choose|j: int| 0 <= j < m.len() && m[j] == q;
                            assert(out@[before.len() + j] == q);
                        }
                    }
                }
            }
            if wb_alt(branches@) {
                lemma_wb_alt(branches@, b as int);
                assert forall|j: int| 0 <= j < out@.len() implies exists|bb: int|
                    0 <= bb < b + 1 && seq_ends(branches@[bb]@, s@, pos as int).contains(
                        #[trigger] out@[j] as int,
                    ) by {
                    if j < before.len() {
                        assert(out@[j] == before[j]);
                    } else {
                        assert(out@[j] == m[j - before.len()]);
                        assert(seq_ends(branches@[b as int]@, s@, pos as int).contains(out@[j] as int));
                    }
                }
            }
        }
        b += 1;
    }
    proof {
        if !ctx.exhausted {
            assert forall|q: usize| q <= s@.len() implies (out@.contains(q) <==> alt_ends(
                branches@,
                s@,
                pos as int,
            ).contains(q as int)) by {
                lemma_alt_ends(branches@, s@, pos as int, q as int);
            }
        }
        if wb_alt(branches@) {
            assert forall|j: int| 0 <= j < out@.len() implies alt_ends(branches@, s@, pos as int).contains(
                #[trigger] out@[j] as int,
            ) by {
                lemma_alt_ends(branches@, s@, pos as int, out@[j] as int);
            }
        }
    }
    out
}

/// Every alternative of a well-bounded alternation is well bounded.
proof fn lemma_wb_alt(branches: Seq<Vec<Node>>, b: int)
    requires
        wb_alt(branches),
        0 <= b < branches.len(),
    ensures
        wb_seq(branches[b]@),
    decreases b,
{
    if b > 0 {
        lemma_wb_alt(branches.drop_first(), b - 1);
        assert(branches.drop_first()[b - 1] == branches[b]);
    }
}

/// The positions set in a bitmap.
pub open spec fn bits_set(b: Seq<bool>) -> Set<int> {
    Set::new(|q: int| 0 <= q < b.len() && b[q])
}

/// Every position of `a` on a line of length `n` is in `b`.
pub open spec fn sub_within(a: Set<int>, b: Set<int>, n: int) -> bool {
    forall|q: int| 0 <= q <= n && a.contains(q) ==> b.contains(q)
}

/// One step from sets that agree on the line agrees everywhere.
proof fn lemma_step_congr(node: Node, s: Seq<char>, x: Set<int>, y: Set<int>)
    requires
        same_within(x, y, s.len() as int),
    ensures
        step_set(node, s, x, s.len() as int) == step_set(node, s, y, s.len() as int),
{
    assert forall|q: int| step_set(node, s, x, s.len() as int).contains(q) <==> step_set(
        node,
        s,
        y,
        s.len() as int,
    ).contains(q) by {
        lemma_step_set(node, s, x, s.len() as int, q);
        lemma_step_set(node, s, y, s.len() as int, q);
        if step_set(node, s, x, s.len() as int).contains(q) {
            let p = choose|p: int|
                0 <= p <= s.len() && x.contains(p) && #[trigger] ends1(node, s, p).contains(q);
            assert(y.contains(p));
        }
        if step_set(node, s, y, s.len() as int).contains(q) {
            let p = choose|p: int|
                0 <= p <= s.len() && y.contains(p) && #[trigger] ends1(node, s, p).contains(q);
            assert(x.contains(p));
        }
    }
    assert(step_set(node, s, x, s.len() as int) =~= step_set(node, s, y, s.len() as int));
}

/// One step is monotone in the positions it starts from.
proof fn lemma_step_mono(node: Node, s: Seq<char>, x: Set<int>, y: Set<int>)
    requires
        sub_within(x, y, s.len() as int),
    ensures
        forall|q: int|
            #[trigger] step_set(node, s, x, s.len() as int).contains(q) ==> step_set(
                node,
                s,
                y,
                s.len() as int,
            ).contains(q),
{
    assert forall|q: int| #[trigger] step_set(node, s, x, s.len() as int).contains(q) implies step_set(
        node,
        s,
        y,
        s.len() as int,
    ).contains(q) by {
        lemma_step_set(node, s, x, s.len() as int, q);
        lemma_step_set(node, s, y, s.len() as int, q);
        let p = choose|p: int|
            0 <= p <= s.len() && x.contains(p) && #[trigger] ends1(node, s, p).contains(q);
        assert(y.contains(p));
    }
}

/// A step from a set with no position of the line reaches nothing.
proof fn lemma_step_empty(node: Node, s: Seq<char>, x: Set<int>, q: int)
    requires
        !some_within(x, s.len() as int),
    ensures
        !step_set(node, s, x, s.len() as int).contains(q),
{
    lemma_step_set(node, s, x, s.len() as int, q);
    if step_set(node, s, x, s.len() as int).contains(q) {
        let p = choose|p: int|
            0 <= p <= s.len() && x.contains(p) && #[trigger] ends1(node, s, p).contains(q);
        assert(some_within(x, s.len() as int));
    }
}

/// Once a count reaches a fixpoint, every higher count reaches the same
/// positions.
proof fn lemma_fix_stable(node: Node, s: Seq<char>, i: int, c: int, j: int)
    requires
        0 <= c <= j,
        fixpoint_at(node, s, i, c),
    ensures
        same_within(reps(node, s, i, j), reps(node, s, i, c), s.len() as int),
    decreases j - c,
{
    if j > c {
        lemma_fix_stable(node, s, i, c, j - 1);
        lemma_step_congr(node, s, reps(node, s, i, j - 1), reps(node, s, i, c));
        assert(reps(node, s, i, j) == step_set(node, s, reps(node, s, i, j - 1), s.len() as int));
        assert(reps(node, s, i, c + 1) == step_set(node, s, reps(node, s, i, c), s.len() as int));
    }
}

/// Once a count reaches no position, no higher count does.
proof fn lemma_empty_stable(node: Node, s: Seq<char>, i: int, c: int, j: int)
    requires
        0 <= c <= j,
        !some_within(reps(node, s, i, c), s.len() as int),
    ensures
        !some_within(reps(node, s, i, j), s.len() as int),
    decreases j - c,
{
    if j > c {
        lemma_empty_stable(node, s, i, c, j - 1);
        assert forall|q: int| 0 <= q <= s.len() implies !reps(node, s, i, j).contains(q) by {
            lemma_step_empty(node, s, reps(node, s, i, j - 1), q);
        }
    }
}

/// After a fixpoint at `c`, every bound above `c` has a fixpoint below it.
proof fn lemma_fix_below(node: Node, s: Seq<char>, i: int, c: int, t: int)
    requires
        0 <= c < t,
        fixpoint_at(node, s, i, c),
    ensures
        fixpoint_below(node, s, i, t),
    decreases t - c,
{
    if t - 1 > c {
        lemma_fix_below(node, s, i, c, t - 1);
    }
}

/// When count `c + 1` reaches nothing, and no fixpoint came before `c`,
/// no bound has a fixpoint below it.
proof fn lemma_no_fix_after_empty(node: Node, s: Seq<char>, i: int, c: int, t: int)
    requires
        0 <= c <= t,
        !fixpoint_below(node, s, i, c),
        some_within(reps(node, s, i, c), s.len() as int),
        !some_within(reps(node, s, i, c + 1), s.len() as int),
    ensures
        !fixpoint_below(node, s, i, t),
    decreases t - c,
{
    if t > c {
        lemma_no_fix_after_empty(node, s, i, c, t - 1);
        if t - 1 == c {
            let q = choose|q: int| 0 <= q <= s.len() && #[trigger] reps(node, s, i, c).contains(q);
            assert(!reps(node, s, i, c + 1).contains(q));
            assert(!same_within(reps(node, s, i, c + 1), reps(node, s, i, c), s.len() as int));
        } else {
            lemma_empty_stable(node, s, i, c + 1, t - 1);
        }
        assert(!fixpoint_at(node, s, i, t - 1));
        assert(fixpoint_below(node, s, i, t) == (fixpoint_at(node, s, i, t - 1) || fixpoint_below(
            node,
            s,
            i,
            t - 1,
        )));
    }
}

/// A set that one more step keeps, inside the positions of count `c`, stays
/// inside the positions of every higher count.
proof fn lemma_kept_stable(node: Node, s: Seq<char>, i: int, x: Set<int>, c: int, j: int)
    requires
        0 <= c <= j,
        sub_within(x, reps(node, s, i, c), s.len() as int),
        sub_within(x, step_set(node, s, x, s.len() as int), s.len() as int),
    ensures
        sub_within(x, reps(node, s, i, j), s.len() as int),
    decreases j - c,
{
    if j > c {
        lemma_kept_stable(node, s, i, x, c, j - 1);
        lemma_step_mono(node, s, x, reps(node, s, i, j - 1));
        assert(reps(node, s, i, j) == step_set(node, s, reps(node, s, i, j - 1), s.len() as int));
    }
}

/// What [`reps_between`] holds: the positions of some count in `lo..=hi`.
proof fn lemma_rb(node: Node, s: Seq<char>, i: int, lo: int, hi: int, q: int)
    requires
        0 <= lo,
    ensures
        reps_between(node, s, i, lo, hi).contains(q) <==> exists|j: int|
            lo <= j <= hi && #[trigger] reps(node, s, i, j).contains(q),
    decreases if hi < 0 { 0int } else { hi + 1 },
{
    if hi >= lo && hi >= 0 {
        lemma_rb(node, s, i, lo, hi - 1, q);
        if reps(node, s, i, hi).contains(q) {
            assert(reps_between(node, s, i, lo, hi).contains(q));
        }
    }
}

/// Whether some bit is set.
fn any_bit(b: &Vec<bool>) -> (r: bool)
    ensures
        r == (exists|q: int| 0 <= q < b@.len() && b@[q]),
{
    let mut i: usize = 0;
    while i < b.len()
        invariant
            i <= b@.len(),
            forall|q: int| 0 <= q < i ==> !b@[q],
        decreases b.len() - i,
    {
        if b[i] {
            return true;
        }
        i += 1;
    }
    false
}

/// `q` is among the first `k` entries of `e`.
pub open spec fn listed(e: Seq<usize>, k: int, q: int) -> bool {
    exists|kk: int| 0 <= kk < k && e[kk] == q
}

/// Whether `q` is an entry of `e`.
fn in_list(e: &Vec<usize>, q: usize) -> (r: bool)
    ensures
        r == listed(e@, e@.len() as int, q as int),
{
    let mut k: usize = 0;
    while k < e.len()
        invariant
            k <= e@.len(),
            !listed(e@, k as int, q as int),
        decreases e.len() - k,
    {
        if e[k] == q {
            return true;
        }
        k += 1;
    }
    false
}

/// `bits` with every position of `e` set as well.
fn mark_all(bits: &Vec<bool>, e: &Vec<usize>) -> (r: Vec<bool>)
    ensures
        r@.len() == bits@.len(),
        forall|q: int| 0 <= q < bits@.len() ==> (r@[q] <==> (bits@[q] || listed(e@, e@.len() as int, q))),
{
    let mut r: Vec<bool> = Vec::new();
    let mut q: usize = 0;
    while q < bits.len()
        invariant
            q <= bits@.len(),
            r@.len() == q,
            forall|j: int| 0 <= j < q ==> (r@[j] <==> (bits@[j] || listed(e@, e@.len() as int, j))),
        decreases bits.len() - q,
    {
        let hit = bits[q] || in_list(e, q);
        r.push(hit);
        q += 1;
    }
    r
}

/// The positions one more copy of `body` reaches from the positions set in
/// `fbits`, visited in increasing order.
fn step_bits(body: &Node, s: &Vec<char>, fbits: &Vec<bool>, ctx: &mut Ctx) -> (nb: Vec<bool>)
    requires
        fbits@.len() == s@.len() + 1,
        s@.len() < usize::MAX,
    ensures
        nb@.len() == s@.len() + 1,
        old(ctx).exhausted ==> final(ctx).exhausted,
        !final(ctx).exhausted ==> forall|q: int|
            0 <= q <= s@.len() ==> (nb@[q] <==> step_set(
                *body,
                s@,
                bits_set(fbits@),
                s@.len() as int,
            ).contains(q)),
        wb(*body) ==> forall|q: int|
            0 <= q <= s@.len() && nb@[q] ==> step_set(
                *body,
                s@,
                bits_set(fbits@),
                s@.len() as int,
            ).contains(q),
        spent(*old(ctx), *final(ctx)),
        !old(ctx).exhausted && old(ctx).fuel >= (s@.len() + 1) * cost(*body, s@.len())
            ==> !final(ctx).exhausted && final(ctx).fuel >= old(ctx).fuel - (s@.len() + 1) * cost(
            *body,
            s@.len(),
        ),
    decreases *body, 1int,
{
    let n = s.len();
    let mut nb = empty_bits(n);
    let mut p: usize = 0;
    let ghost c0 = *ctx;
    let ghost f0 = ctx.fuel as int;
    let ghost cb = cost(*body, s@.len()) as int;
    let ghost bc = !ctx.exhausted && ctx.fuel >= (n + 1) * cb;
    while p <= n
        invariant
            spent(c0, *ctx),
            c0 == *old(ctx),
            f0 == c0.fuel,
            cb == cost(*body, s@.len()),
            bc ==> !ctx.exhausted && ctx.fuel >= f0 - p * cb && f0 >= (n + 1) * cb && cb >= 0,
            n == s@.len(),
            n < usize::MAX,
            p <= n + 1,
            fbits@.len() == n + 1,
            nb@.len() == n + 1,
            old(ctx).exhausted ==> ctx.exhausted,
            !ctx.exhausted ==> forall|q: int|
                0 <= q <= n ==> (nb@[q] <==> exists|pp: int|
                    0 <= pp < p && fbits@[pp] && #[trigger] ends1(*body, s@, pp).contains(q)),
            wb(*body) ==> forall|q: int|
                0 <= q <= n && nb@[q] ==> exists|pp: int|
                    0 <= pp < p && fbits@[pp] && #[trigger] ends1(*body, s@, pp).contains(q),
        decreases n + 1 - p,
    {
        proof {
            if bc {
                assert((n + 1 - p) * cb >= cb) by (nonlinear_arith)
                    requires
                        p <= n,
                        cb >= 0,
                ;
                assert((n + 1) * cb - p * cb == (n + 1 - p) * cb) by (nonlinear_arith);
                assert((p + 1) * cb == p * cb + cb) by (nonlinear_arith);
            }
        }
        if fbits[p] {
            let e = ends_of_one(body, s, p, ctx);
            let ghost pre = nb@;
            nb = mark_all(&nb, &e);
            proof {
                if !ctx.exhausted {
                    assert forall|q: int| 0 <= q <= n implies (nb@[q] <==> exists|pp: int|
                        0 <= pp < p + 1 && fbits@[pp] && #[trigger] ends1(*body, s@, pp).contains(
                            q,
                        )) by {
                        if listed(e@, e@.len() as int, q) {
                            let k = choose|k: int| 0 <= k < e@.len() && e@[k] == q;
                            assert(e@.contains(e@[k]));
                            assert(ends1(*body, s@, p as int).contains(q));
                        }
                        if exists|pp: int|
                            0 <= pp < p + 1 && fbits@[pp] && #[trigger] ends1(*body, s@, pp).contains(
                                q,
                            ) {
                            let pp = choose|pp: int|
                                0 <= pp < p + 1 && fbits@[pp] && #[trigger] ends1(
                                    *body,
                                    s@,
                                    pp,
                                ).contains(q);
                            if pp == p {
                                assert(e@.contains(q as usize));
                                let k = choose|k: int| 0 <= k < e@.len() && e@[k] == q as usize;
                                assert(listed(e@, e@.len() as int, q));
                            }
                        }
                    }
                }
                if wb(*body) {
                    assert forall|q: int| 0 <= q <= n && nb@[q] implies exists|pp: int|
                        0 <= pp < p + 1 && fbits@[pp] && #[trigger] ends1(*body, s@, pp).contains(
                            q,
                        ) by {
                        if !pre[q] {
                            let k = choose|k: int| 0 <= k < e@.len() && e@[k] == q;
                            assert(ends1(*body, s@, p as int).contains(e@[k] as int));
                        }
                    }
                }
            }
        }
        p += 1;
    }
    proof {
        let x = bits_set(fbits@);
        if !ctx.exhausted {
            assert forall|q: int| 0 <= q <= n implies (nb@[q] <==> step_set(
                *body,
                s@,
                x,
                n as int,
            ).contains(q)) by {
                lemma_step_set(*body, s@, x, n as int, q);
                if step_set(*body, s@, x, n as int).contains(q) {
                    let pp = choose|pp: int|
                        0 <= pp <= n && x.contains(pp) && #[trigger] ends1(*body, s@, pp).contains(q);
                    assert(fbits@[pp]);
                }
                if nb@[q] {
                    let pp = choose|pp: int|
                        0 <= pp < p && fbits@[pp] && #[trigger] ends1(*body, s@, pp).contains(q);
                    assert(x.contains(pp));
                }
            }
        }
        if wb(*body) {
            assert forall|q: int| 0 <= q <= n && nb@[q] implies step_set(
                *body,
                s@,
                x,
                n as int,
            ).contains(q) by {
                lemma_step_set(*body, s@, x, n as int, q);
                let pp = choose|pp: int|
                    0 <= pp < p && fbits@[pp] && #[trigger] ends1(*body, s@, pp).contains(q);
                assert(x.contains(pp));
            }
        }
    }
    nb
}

/// The positions set in `outb`, as the engine hands them on: each once, in
/// increasing order.
proof fn lemma_positions(outb: Seq<bool>, out: Seq<usize>, target: Set<int>, n: int)
    requires
        outb.len() == n + 1,
        forall|k: int| 0 <= k < out.len() ==> outb[out[k] as int],
        bounded(out, n),
        forall|q: int| 0 <= q < outb.len() && outb[q] ==> out.contains(q as usize),
        same_within(bits_set(outb), target, n),
    ensures
        forall|q: usize| q <= n ==> (out.contains(q) <==> target.contains(q as int)),
{
    assert forall|q: usize| q <= n implies (out.contains(q) <==> target.contains(q as int)) by {
        if out.contains(q) {
            let k = choose|k: int| 0 <= k < out.len() && out[k] == q;
            assert(outb[q as int]);
            assert(bits_set(outb).contains(q as int));
        }
        if target.contains(q as int) {
            assert(bits_set(outb).contains(q as int));
        }
    }
}

/// Every position reachable by matching `min` to `max` copies of `body`
/// from `pos`, each once, in increasing order. At most [`REP_CAP`] copies
/// are enumerated; a count whose copies reach exactly the positions of the
/// count before ends the enumeration, and so does a count that reaches
/// nothing.
fn rep_ends_of(body: &Node, min: u32, max: Option<u32>, s: &Vec<char>, pos: usize, ctx: &mut Ctx) -> (out:
    Vec<usize>)
    requires
        pos <= s@.len(),
        s@.len() < usize::MAX,
    ensures
        bounded(out@, s@.len() as int),
        old(ctx).exhausted ==> final(ctx).exhausted,
        !final(ctx).exhausted ==> forall|q: usize|
            q <= s@.len() ==> (out@.contains(q) <==> rep_ends(
                *body,
                s@,
                pos as int,
                min as int,
                rep_cap(max),
            ).contains(q as int)),
        wb(*body) && min <= rep_cap(max) ==> forall|k: int|
            0 <= k < out@.len() ==> rep_ends(*body, s@, pos as int, min as int, rep_cap(max)).contains(
                #[trigger] out@[k] as int,
            ),
        spent(*old(ctx), *final(ctx)),
        !old(ctx).exhausted && old(ctx).fuel >= (rep_cap(max) as nat) * (s@.len() + 1) * cost(
            *body,
            s@.len(),
        ) ==> !final(ctx).exhausted && final(ctx).fuel >= old(ctx).fuel - (rep_cap(max) as nat) * (
        s@.len() + 1) * cost(*body, s@.len()) && out@.len() <= s@.len() + 1,
    decreases *body, 2int,
{
    let n = s.len();
    let cap: u32 = match max {
        Some(m) => if m < REP_CAP {
            m
        } else {
            REP_CAP
        },
        None => REP_CAP,
    };
    let ghost node = *body;
    let ghost sq = s@;
    let ghost ip = pos as int;
    let ghost lo = min as int;
    let ghost c0 = *ctx;
    let ghost f0 = ctx.fuel as int;
    let ghost kk = (n + 1) * cost(*body, s@.len());
    let ghost total = (rep_cap(max) as nat) * (s@.len() + 1) * cost(*body, s@.len());
    let ghost rc = !ctx.exhausted && ctx.fuel >= total;
    proof {
        let cb = cost(*body, s@.len()) as int;
        assert(kk >= 0) by (nonlinear_arith)
            requires
                kk == (n + 1) * cb,
                cb >= 0,
                n >= 0,
        ;
        assert(total == cap * kk) by (nonlinear_arith)
            requires
                total == cap * (n + 1) * cb,
                kk == (n + 1) * cb,
        ;
    }
    let mut fbits = empty_bits(n);
    fbits.set(pos, true);
    let mut outb = empty_bits(n);
    let mut count: u32 = 0;
    proof {
        assert(reps(node, sq, ip, 0) == set![ip]);
        assert(bits_set(fbits@).contains(ip));
        assert forall|q: int| 0 <= q <= n implies (bits_set(fbits@).contains(q) <==> reps(
            node,
            sq,
            ip,
            0,
        ).contains(q)) by {
            if q != ip {
                assert(fbits@[q] == false);
            }
        }
        assert forall|q: int| 0 <= q <= n implies (bits_set(outb@).contains(q) <==> reps_between(
            node,
            sq,
            ip,
            lo,
            -1,
        ).contains(q)) by {
            assert(!outb@[q]);
        }
    }
    loop
        invariant
            spent(c0, *ctx),
            c0 == *old(ctx),
            f0 == c0.fuel,
            kk == (n + 1) * cost(*body, s@.len()),
            total == (rep_cap(max) as nat) * (s@.len() + 1) * cost(*body, s@.len()),
            rc == (!c0.exhausted && c0.fuel >= total),
            rc ==> !ctx.exhausted && ctx.fuel >= f0 - count * kk && f0 >= total && total == cap * kk
                && kk >= 0 && count * kk <= cap * kk,
            n == s@.len(),
            n < usize::MAX,
            pos <= n,
            node == *body,
            sq == s@,
            ip == pos as int,
            lo == min as int,
            cap as int == rep_cap(max),
            count <= cap,
            fbits@.len() == n + 1,
            outb@.len() == n + 1,
            some_within(bits_set(fbits@), n as int),
            old(ctx).exhausted ==> ctx.exhausted,
            !ctx.exhausted ==> same_within(
                bits_set(fbits@),
                reps(node, sq, ip, count as int),
                n as int,
            ),
            !ctx.exhausted ==> same_within(
                bits_set(outb@),
                reps_between(node, sq, ip, lo, count - 1),
                n as int,
            ),
            !ctx.exhausted ==> !fixpoint_below(node, sq, ip, count as int),
            wb(node) && min <= cap ==> sub_within(
                bits_set(fbits@),
                reps(node, sq, ip, count as int),
                n as int,
            ),
            wb(node) && min <= cap ==> sub_within(
                bits_set(outb@),
                reps_between(node, sq, ip, lo, cap as int),
                n as int,
            ),
        decreases cap - count,
    {
        let ghost c = count as int;
        if count >= min {
            let ghost pre = outb@;
            outb = or_bits(&outb, &fbits);
            proof {
                if !ctx.exhausted {
                    assert forall|q: int| 0 <= q <= n implies (bits_set(outb@).contains(q)
                        <==> reps_between(node, sq, ip, lo, c).contains(q)) by {
                        lemma_rb(node, sq, ip, lo, c, q);
                        lemma_rb(node, sq, ip, lo, c - 1, q);
                        assert(bits_set(pre).contains(q) == pre[q]);
                        assert(bits_set(fbits@).contains(q) == fbits@[q]);
                        if reps(node, sq, ip, c).contains(q) {
                            assert(fbits@[q]);
                        }
                        if reps_between(node, sq, ip, lo, c).contains(q) {
                            let j = choose|j: int| lo <= j <= c && #[trigger] reps(node, sq, ip, j).contains(q);
                            if j < c {
                                assert(reps_between(node, sq, ip, lo, c - 1).contains(q));
                            }
                        }
                    }
                }
                if wb(node) && min <= cap {
                    assert forall|q: int| 0 <= q <= n && bits_set(outb@).contains(q) implies reps_between(
                        node,
                        sq,
                        ip,
                        lo,
                        cap as int,
                    ).contains(q) by {
                        assert(bits_set(pre).contains(q) == pre[q]);
                        if fbits@[q] {
                            assert(bits_set(fbits@).contains(q));
                            lemma_rb(node, sq, ip, lo, cap as int, q);
                        }
                    }
                }
            }
        } else {
            proof {
                if !ctx.exhausted {
                    assert forall|q: int| 0 <= q <= n implies (bits_set(outb@).contains(q)
                        <==> reps_between(node, sq, ip, lo, c).contains(q)) by {
                        lemma_rb(node, sq, ip, lo, c, q);
                        lemma_rb(node, sq, ip, lo, c - 1, q);
                    }
                }
            }
        }
        // Here `outb` holds the positions of the counts `min..=count`.
        if count >= cap {
            let out = positions_of(&outb);
            proof {
                if !ctx.exhausted {
                    if lo > cap {
                        assert forall|q: int| 0 <= q <= n implies !bits_set(outb@).contains(q) by {
                            lemma_rb(node, sq, ip, lo, c, q);
                        }
                    }
                    lemma_positions(outb@, out@, rep_ends(node, sq, ip, lo, rep_cap(max)), n as int);
                }
                if wb(node) && min <= cap {
                    assert forall|k: int| 0 <= k < out@.len() implies rep_ends(node, sq, ip, lo, rep_cap(max)).contains(
                        #[trigger] out@[k] as int,
                    ) by {
                        assert(outb@[out@[k] as int]);
                        assert(bits_set(outb@).contains(out@[k] as int));
                    }
                }
            }
            return out;
        }
        proof {
            if rc {
                assert((cap - count) * kk >= kk) by (nonlinear_arith)
                    requires
                        count < cap,
                        kk >= 0,
                ;
                assert(cap * kk - count * kk == (cap - count) * kk) by (nonlinear_arith);
                assert((count + 1) * kk == count * kk + kk) by (nonlinear_arith);
                assert((count + 1) * kk <= cap * kk) by (nonlinear_arith)
                    requires
                        count < cap,
                        kk >= 0,
                ;
            }
        }
        let nb = step_bits(body, s, &fbits, ctx);
        proof {
            assert(reps(node, sq, ip, c + 1) == step_set(node, sq, reps(node, sq, ip, c), n as int));
            if !ctx.exhausted {
                lemma_step_congr(node, sq, bits_set(fbits@), reps(node, sq, ip, c));
            }
        }
        if !any_bit(&nb) {
            let out = positions_of(&outb);
            proof {
                if !ctx.exhausted {
                    assert(!some_within(reps(node, sq, ip, c + 1), n as int)) by {
                        if some_within(reps(node, sq, ip, c + 1), n as int) {
                            let q = choose|q: int| 0 <= q <= n && #[trigger] reps(node, sq, ip, c + 1).contains(q);
                            assert(nb@[q]);
                        }
                    }
                    assert(some_within(reps(node, sq, ip, c), n as int)) by {
                        let q = choose|q: int| 0 <= q <= n && bits_set(fbits@).contains(q);
                        assert(reps(node, sq, ip, c).contains(q));
                    }
                    assert forall|q: int| 0 <= q <= n implies (bits_set(outb@).contains(q)
                        <==> rep_ends(node, sq, ip, lo, rep_cap(max)).contains(q)) by {
                        lemma_rb(node, sq, ip, lo, c, q);
                        if lo <= cap {
                            lemma_rb(node, sq, ip, lo, cap as int, q);
                            if reps_between(node, sq, ip, lo, cap as int).contains(q) {
                                let j = choose|j: int| lo <= j <= cap && #[trigger] reps(node, sq, ip, j).contains(q);
                                if j > c {
                                    lemma_empty_stable(node, sq, ip, c + 1, j);
                                }
                            }
                        } else {
                            lemma_no_fix_after_empty(node, sq, ip, c, cap as int);
                        }
                    }
                    lemma_positions(outb@, out@, rep_ends(node, sq, ip, lo, rep_cap(max)), n as int);
                }
                if wb(node) && min <= cap {
                    assert forall|k: int| 0 <= k < out@.len() implies rep_ends(node, sq, ip, lo, rep_cap(max)).contains(
                        #[trigger] out@[k] as int,
                    ) by {
                        assert(outb@[out@[k] as int]);
                        assert(bits_set(outb@).contains(out@[k] as int));
                    }
                }
            }
            return out;
        }
        if bits_equal(&nb, &fbits) {
            let ghost pre = outb@;
            outb = or_bits(&outb, &fbits);
            let out = positions_of(&outb);
            proof {
                if !ctx.exhausted {
                    assert(fixpoint_at(node, sq, ip, c)) by {
                        assert forall|q: int| 0 <= q <= n implies (reps(node, sq, ip, c + 1).contains(q)
                            <==> reps(node, sq, ip, c).contains(q)) by {
                            assert(bits_set(fbits@).contains(q) == fbits@[q]);
                        }
                        let q = choose|q: int| 0 <= q <= n && bits_set(fbits@).contains(q);
                        assert(reps(node, sq, ip, c).contains(q));
                    }
                    assert forall|q: int| 0 <= q <= n implies (bits_set(outb@).contains(q)
                        <==> rep_ends(node, sq, ip, lo, rep_cap(max)).contains(q)) by {
                        assert(bits_set(pre).contains(q) == pre[q]);
                        assert(bits_set(fbits@).contains(q) == fbits@[q]);
                        lemma_rb(node, sq, ip, lo, c, q);
                        if lo <= cap {
                            lemma_rb(node, sq, ip, lo, cap as int, q);
                            if reps_between(node, sq, ip, lo, cap as int).contains(q) {
                                let j = choose|j: int| lo <= j <= cap && #[trigger] reps(node, sq, ip, j).contains(q);
                                if j > c {
                                    lemma_fix_stable(node, sq, ip, c, j);
                                }
                            }
                            if fbits@[q] {
                                if c >= lo {
                                    assert(reps(node, sq, ip, c).contains(q));
                                } else {
                                    lemma_fix_stable(node, sq, ip, c, lo);
                                    assert(reps(node, sq, ip, lo).contains(q));
                                }
                            }
                        } else {
                            lemma_fix_below(node, sq, ip, c, cap as int);
                            lemma_fix_stable(node, sq, ip, c, cap as int);
                        }
                    }
                    lemma_positions(outb@, out@, rep_ends(node, sq, ip, lo, rep_cap(max)), n as int);
                }
                if wb(node) && min <= cap {
                    let x = bits_set(fbits@);
                    assert(sub_within(x, step_set(node, sq, x, n as int), n as int)) by {
                        assert forall|q: int| 0 <= q <= n && x.contains(q) implies step_set(
                            node,
                            sq,
                            x,
                            n as int,
                        ).contains(q) by {
                            assert(nb@[q]);
                        }
                    }
                    if c < lo {
                        lemma_kept_stable(node, sq, ip, x, c, lo);
                    }
                    assert forall|k: int| 0 <= k < out@.len() implies rep_ends(node, sq, ip, lo, rep_cap(max)).contains(
                        #[trigger] out@[k] as int,
                    ) by {
                        let q = out@[k] as int;
                        assert(outb@[q]);
                        assert(bits_set(pre).contains(q) == pre[q]);
                        lemma_rb(node, sq, ip, lo, cap as int, q);
                        if fbits@[q] {
                            assert(x.contains(q));
                            if c >= lo {
                                assert(reps(node, sq, ip, c).contains(q));
                            } else {
                                assert(reps(node, sq, ip, lo).contains(q));
                            }
                        }
                    }
                }
            }
            return out;
        }
        proof {
            if !ctx.exhausted {
                assert(!fixpoint_at(node, sq, ip, c)) by {
                    if fixpoint_at(node, sq, ip, c) {
                        assert forall|q: int| 0 <= q < nb@.len() implies nb@[q] == fbits@[q] by {
                            assert(bits_set(fbits@).contains(q) == fbits@[q]);
                        }
                        assert(nb@ =~= fbits@);
                    }
                }
                assert forall|q: int| 0 <= q <= n implies (bits_set(nb@).contains(q) <==> reps(
                    node,
                    sq,
                    ip,
                    c + 1,
                ).contains(q)) by {}
            }
            if wb(node) && min <= cap {
                lemma_step_mono(node, sq, bits_set(fbits@), reps(node, sq, ip, c));
                assert forall|q: int| 0 <= q <= n && bits_set(nb@).contains(q) implies reps(
                    node,
                    sq,
                    ip,
                    c + 1,
                ).contains(q) by {
                    assert(nb@[q]);
                }
            }
            assert(some_within(bits_set(nb@), n as int)) by {
                let q = choose|q: int| 0 <= q < nb@.len() && nb@[q];
                assert(bits_set(nb@).contains(q));
            }
        }
        fbits = nb;
        count = count + 1;
    }
}

/// What `char::to_lowercase` yields for `c`.
pub uninterp spec fn lowercase_of(c: char) -> Seq<char>;

/// `char::to_lowercase`, collected: the lowercase mapping of `c`, which the
/// standard library documents as one or more characters.
#[verifier::external_body]
fn char_lowercase(c: char) -> (r: Vec<char>)
    ensures
        r@ == lowercase_of(c),
        r@.len() >= 1,
{
    c.to_lowercase().collect()
}

/// The case-folded form of a line: each character replaced by its
/// lowercase mapping.
pub open spec fn fold(s: Seq<char>) -> Seq<char>
    decreases s.len(),
{
    if s.len() == 0 {
        Seq::empty()
    } else {
        fold(s.drop_last()) + lowercase_of(s.last())
    }
}

/// The first character of the lowercase mapping of `c`.
pub fn lower(c: char) -> (r: char)
    ensures
        r == lowercase_of(c)[0],
{
    let m = char_lowercase(c);
    m[0]
}

/// The case-folded characters of `line`.
pub fn fold_line(line: &str) -> (r: Vec<char>)
    ensures
        r@ == fold(line@),
{
    let chars = chars_of(line);
    let mut r: Vec<char> = Vec::new();
    let mut i: usize = 0;
    while i < chars.len()
        invariant
            i <= chars@.len(),
            chars@ == line@,
            r@ == fold(chars@.take(i as int)),
        decreases chars.len() - i,
    {
        let mut m = char_lowercase(chars[i]);
        proof {
            assert(chars@.take(i + 1).drop_last() =~= chars@.take(i as int));
        }
        r.append(&mut m);
        i += 1;
    }
    assert(chars@.take(chars@.len() as int) =~= chars@);
    r
}

/// Unanchored match of a compiled program against already case-folded
/// characters. `Err` is the search budget: a search that could not finish
/// within [`REGEX_FUEL`] node visits. `Ok(false)` means no start and end
/// position match; `Ok(true)` means some do, for every program whose
/// repetitions have non-empty count ranges. A program of atoms alone visits
/// at most one node per atom and start position, so its search always
/// finishes when that many visits fit in the budget; more generally, any
/// program visits at most [`cost_seq`] nodes per start position on a line
/// of `n` characters, and its search finishes whenever `(n + 1)` times that
/// fits.
/// The search is cut short only once the whole budget has been spent.
pub fn search_folded(program: &Vec<Node>, s: &Vec<char>) -> (r: Result<bool, ()>)
    requires
        s@.len() < usize::MAX,
    ensures
        r == Ok::<bool, ()>(false) ==> !regex_search(program@, s@),
        r == Ok::<bool, ()>(true) && wb_seq(program@) ==> regex_search(program@, s@),
        flat(program@) && (s@.len() + 1) * program@.len() <= REGEX_FUEL ==> r is Ok,
        (s@.len() + 1) * cost_seq(program@, s@.len()) <= REGEX_FUEL ==> r is Ok,
{
    let mut ctx = Ctx { fuel: REGEX_FUEL, exhausted: false };
    let mut start: usize = 0;
    let ghost small = flat(program@) && (s@.len() + 1) * program@.len() <= REGEX_FUEL;
    let ghost fits = (s@.len() + 1) * cost_seq(program@, s@.len()) <= REGEX_FUEL;
    assert(program@.subrange(0, program@.len() as int) =~= program@);
    while start <= s.len()
        invariant
            s@.len() < usize::MAX,
            start <= s@.len() + 1,
            !ctx.exhausted,
            small == (flat(program@) && (s@.len() + 1) * program@.len() <= REGEX_FUEL),
            small ==> ctx.fuel + start * program@.len() >= REGEX_FUEL,
            fits == ((s@.len() + 1) * cost_seq(program@, s@.len()) <= REGEX_FUEL),
            fits ==> ctx.fuel + start * cost_seq(program@, s@.len()) >= REGEX_FUEL,
            program@.subrange(0, program@.len() as int) == program@,
            forall|i: int, j: int|
                0 <= i < start && 0 <= j <= s@.len() ==> !#[trigger] seq_ends(program@, s@, i).contains(j),
        decreases s@.len() + 1 - start,
    {
        let ghost fuel0 = ctx.fuel as int;
        proof {
            if small {
                let p = program@.len() as int;
                let n1 = s@.len() + 1;
                assert((n1 - start) * p >= p) by (nonlinear_arith)
                    requires
                        start < n1,
                        p >= 0,
                ;
                assert(n1 * p - start * p == (n1 - start) * p) by (nonlinear_arith);
            }
            if fits {
                let c = cost_seq(program@, s@.len()) as int;
                let n1 = s@.len() + 1;
                assert((n1 - start) * c >= c) by (nonlinear_arith)
                    requires
                        start < n1,
                        c >= 0,
                ;
                assert(n1 * c - start * c == (n1 - start) * c) by (nonlinear_arith);
            }
        }
        let e = ends_of(program, 0, s, start, &mut ctx);
        proof {
            if small {
                let p = program@.len() as int;
                assert((start + 1) * p == start * p + p) by (nonlinear_arith);
            }
            if fits {
                let c = cost_seq(program@, s@.len()) as int;
                assert((start + 1) * c == start * c + c) by (nonlinear_arith);
            }
        }
        if e.len() > 0 {
            proof {
                if wb_seq(program@) {
                    assert(seq_ends(program@, s@, start as int).contains(e@[0] as int));
                }
            }
            return Ok(true);
        }
        if ctx.exhausted {
            return Err(());
        }
        proof {
            assert forall|j: int| 0 <= j <= s@.len() implies !#[trigger] seq_ends(program@, s@, start as int).contains(j) by {
                if seq_ends(program@, s@, start as int).contains(j) {
                    assert(e@.contains(j as usize));
                }
            }
        }
        start += 1;
    }
    Ok(false)
}

/// Unanchored, case-insensitive match of a compiled program against one
/// line: [`search_folded`] on the line's case-folded characters.
pub fn regex_matches(program: &Vec<Node>, line: &str) -> (r: Result<bool, ()>)
    ensures
        r == Ok::<bool, ()>(false) ==> !regex_search(program@, fold(line@)),
        r == Ok::<bool, ()>(true) && wb_seq(program@) ==> regex_search(program@, fold(line@)),
        flat(program@) && fold(line@).len() < usize::MAX && (fold(line@).len() + 1)
            * program@.len() <= REGEX_FUEL ==> r is Ok,
        fold(line@).len() < usize::MAX && (fold(line@).len() + 1) * cost_seq(
            program@,
            fold(line@).len(),
        ) <= REGEX_FUEL ==> r is Ok,
{
    let chars = fold_line(line);
    if chars.len() == usize::MAX {
        return Err(());
    }
    search_folded(program, &chars)
}

} // verus!
