//! What `read_signoff` reads back of what `write_warm_start` wrote: the
//! ranked list of the rewritten `signoff.md` is the ranked list of the
//! block the caller wrote.
use vstd::prelude::*;

use crate::append::lemma_lines_concat;
use crate::file_parser::lines_of;
use crate::signoff_read::{
    find_heading, find_line, heading_prefix, history_items, ranked_items, ranked_of,
    ranked_of_file, warm_heading,
};
use crate::strings::{find, is_space, starts_with, trim};
use crate::warmstart::{
    block_of, concat, content_of, find_content, find_section, history_at, insert_at, last_filled,
    lemma_concat_split, lemma_offsets, lemma_raw_lines, new_history, normalized, offset,
    raw_lines, region_of, rewritten,
};

verus! {

/// Every raw line but the last ends with its newline, and no raw line has
/// a newline anywhere else.
proof fn lemma_raw_line_ends(t: Seq<char>)
    ensures
        forall|i: int| 0 <= i < raw_lines(t).len() - 1 ==> (#[trigger] raw_lines(t)[i]).last() == '\n',
        forall|i: int, j: int|
            0 <= i < raw_lines(t).len() && 0 <= j < raw_lines(t)[i].len() - 1 ==> #[trigger] raw_lines(
                t,
            )[i][j] != '\n',
    decreases t.len(),
{
    if t.len() > 0 {
        let k = find(t, '\n');
        crate::strings::lemma_find(t, '\n');
        if k < t.len() {
            let rest = t.subrange(k + 1, t.len() as int);
            lemma_raw_line_ends(rest);
            let first = t.subrange(0, k + 1);
            assert(raw_lines(t) == seq![first] + raw_lines(rest));
            assert forall|i: int| 0 <= i < raw_lines(t).len() - 1 implies (#[trigger] raw_lines(
                t,
            )[i]).last() == '\n' by {
                if i > 0 {
                    assert(raw_lines(t)[i] == raw_lines(rest)[i - 1]);
                }
            }
            assert forall|i: int, j: int|
                0 <= i < raw_lines(t).len() && 0 <= j < raw_lines(t)[i].len() - 1 implies #[trigger] raw_lines(
                t,
            )[i][j] != '\n' by {
                if i > 0 {
                    assert(raw_lines(t)[i] == raw_lines(rest)[i - 1]);
                } else {
                    assert(raw_lines(t)[0][j] == t[j]);
                }
            }
        } else {
            assert(raw_lines(t) == seq![t]);
            assert forall|i: int, j: int|
                0 <= i < raw_lines(t).len() && 0 <= j < raw_lines(t)[i].len() - 1 implies #[trigger] raw_lines(
                t,
            )[i][j] != '\n' by {
                assert(i == 0);
            }
        }
    }
}

/// The lines of one raw line that ends with its only newline: its content.
proof fn lemma_lines_of_line(l: Seq<char>)
    requires
        l.len() > 0,
        l.last() == '\n',
        forall|j: int| 0 <= j < l.len() - 1 ==> l[j] != '\n',
    ensures
        lines_of(l) == seq![content_of(l)],
{
    crate::strings::lemma_find(l, '\n');
    let k = find(l, '\n');
    assert(k == l.len() - 1) by {
        if k < l.len() - 1 {
            assert(l[k] == '\n');
        }
    }
    assert(l.subrange(0, k) =~= l.drop_last());
    assert(l.subrange(k + 1, l.len() as int) =~= Seq::<char>::empty());
    assert(lines_of(Seq::<char>::empty()) =~= Seq::<Seq<char>>::empty());
    assert(lines_of(l) == seq![
        if k > 0 && l.subrange(0, k).last() == '\r' {
            l.subrange(0, k).drop_last()
        } else {
            l.subrange(0, k)
        },
    ] + lines_of(Seq::<char>::empty()));
    assert(lines_of(l) =~= seq![content_of(l)]);
}

/// Lines that each end with their only newline read back, concatenated,
/// as their contents.
proof fn lemma_lines_of_concat(ls: Seq<Seq<char>>)
    requires
        forall|i: int| 0 <= i < ls.len() ==> (#[trigger] ls[i]).len() > 0 && ls[i].last() == '\n',
        forall|i: int, j: int| 0 <= i < ls.len() && 0 <= j < ls[i].len() - 1 ==> #[trigger] ls[i][j] != '\n',
    ensures
        lines_of(concat(ls)) == ls.map_values(|l: Seq<char>| content_of(l)),
        ls.len() > 0 ==> concat(ls).len() > 0 && concat(ls).last() == '\n',
    decreases ls.len(),
{
    if ls.len() > 0 {
        let prev = ls.drop_last();
        let l = ls.last();
        assert forall|i: int| 0 <= i < prev.len() implies (#[trigger] prev[i]).len() > 0 && prev[i].last() == '\n' by {
            assert(prev[i] == ls[i]);
        }
        assert forall|i: int, j: int| 0 <= i < prev.len() && 0 <= j < prev[i].len() - 1 implies #[trigger] prev[i][j] != '\n' by {
            assert(prev[i] == ls[i]);
            assert(ls[i][j] != '\n');
        }
        lemma_lines_of_concat(prev);
        assert(l == ls[ls.len() - 1]);
        assert forall|j: int| 0 <= j < l.len() - 1 implies l[j] != '\n' by {
            assert(ls[ls.len() - 1][j] != '\n');
        }
        lemma_lines_of_line(l);
        assert(concat(ls) == concat(prev) + l);
        if prev.len() > 0 {
            lemma_lines_concat(concat(prev), l);
        } else {
            assert(concat(prev) + l =~= l);
            assert(prev.map_values(|x: Seq<char>| content_of(x)) =~= Seq::<Seq<char>>::empty());
        }
        assert(ls.map_values(|x: Seq<char>| content_of(x)) =~= prev.map_values(
            |x: Seq<char>| content_of(x),
        ) + seq![content_of(l)]);
        assert((concat(prev) + l).last() == l.last());
    }
}

/// `find_line` past a prefix: the search continues in what follows.
proof fn lemma_find_line_shift(x: Seq<Seq<char>>, y: Seq<Seq<char>>, t: Seq<char>, j: int)
    requires
        0 <= j <= y.len(),
    ensures
        find_line(x + y, t, x.len() + j) == x.len() + find_line(y, t, j),
    decreases y.len() - j,
{
    if j < y.len() {
        assert((x + y)[x.len() + j] == y[j]);
        lemma_find_line_shift(x, y, t, j + 1);
    }
}

/// `find_line` over two pieces: a hit in the first, else one in the second.
proof fn lemma_find_line_concat(x: Seq<Seq<char>>, y: Seq<Seq<char>>, t: Seq<char>, i: int)
    requires
        0 <= i <= x.len(),
    ensures
        find_line(x + y, t, i) == if find_line(x, t, i) < x.len() {
            find_line(x, t, i)
        } else {
            x.len() + find_line(y, t, 0)
        },
    decreases x.len() - i,
{
    if i == x.len() {
        lemma_find_line_shift(x, y, t, 0);
    } else {
        assert((x + y)[i] == x[i]);
        lemma_find_line_concat(x, y, t, i + 1);
    }
}

/// `find_heading` past a prefix: the search continues in what follows.
proof fn lemma_find_heading_shift(x: Seq<Seq<char>>, y: Seq<Seq<char>>, j: int)
    requires
        0 <= j <= y.len(),
    ensures
        find_heading(x + y, x.len() + j) == x.len() + find_heading(y, j),
    decreases y.len() - j,
{
    if j < y.len() {
        assert((x + y)[x.len() + j] == y[j]);
        lemma_find_heading_shift(x, y, j + 1);
    }
}

/// `find_heading` over two pieces: a heading in the first, else one in the
/// second.
proof fn lemma_find_heading_concat(x: Seq<Seq<char>>, y: Seq<Seq<char>>, i: int)
    requires
        0 <= i <= x.len(),
    ensures
        find_heading(x + y, i) == if find_heading(x, i) < x.len() {
            find_heading(x, i)
        } else {
            x.len() + find_heading(y, 0)
        },
        i <= find_heading(x, i) <= x.len(),
    decreases x.len() - i,
{
    if i == x.len() {
        lemma_find_heading_shift(x, y, 0);
    } else {
        assert((x + y)[i] == x[i]);
        lemma_find_heading_concat(x, y, i + 1);
    }
}

/// `find_line` answers a position from where it starts to the count.
proof fn lemma_find_line_bound(x: Seq<Seq<char>>, t: Seq<char>, i: int)
    requires
        0 <= i <= x.len(),
    ensures
        i <= find_line(x, t, i) <= x.len(),
    decreases x.len() - i,
{
    if i < x.len() && x[i] != t {
        lemma_find_line_bound(x, t, i + 1);
    }
}

/// A line equal to `t` at or after `i` bounds where `find_line` stops.
proof fn lemma_find_line_hit(x: Seq<Seq<char>>, t: Seq<char>, i: int, j: int)
    requires
        0 <= i <= j < x.len(),
        x[j] == t,
    ensures
        find_line(x, t, i) <= j,
    decreases j - i,
{
    if x[i] != t {
        lemma_find_line_hit(x, t, i + 1, j);
    }
}

/// No line before `find_content`'s answer has the content `t`.
proof fn lemma_before_content(ls: Seq<Seq<char>>, t: Seq<char>, i: int, j: int)
    requires
        0 <= i <= j < find_content(ls, t, i),
    ensures
        content_of(ls[j]) != t,
    decreases j - i,
{
    if i < j {
        lemma_before_content(ls, t, i + 1, j);
    }
}

/// `find_content` answers a position at or after where it starts.
proof fn lemma_find_content_bound(ls: Seq<Seq<char>>, t: Seq<char>, i: int)
    requires
        0 <= i,
    ensures
        find_content(ls, t, i) >= i || find_content(ls, t, i) == ls.len(),
        find_content(ls, t, i) <= ls.len(),
    decreases ls.len() - i,
{
    if i < ls.len() && content_of(ls[i]) != t {
        lemma_find_content_bound(ls, t, i + 1);
    }
}

/// What `find_section` finds is a section heading after where it starts.
proof fn lemma_find_section(ls: Seq<Seq<char>>, i: int)
    requires
        0 <= i,
    ensures
        find_section(ls, i) <= ls.len(),
        find_section(ls, i) < ls.len() ==> find_section(ls, i) >= i && starts_with(
            content_of(ls[find_section(ls, i)]),
            heading_prefix(),
        ),
        i <= ls.len() ==> find_section(ls, i) >= i,
    decreases ls.len() - i,
{
    if i < ls.len() && !starts_with(content_of(ls[i]), heading_prefix()) {
        lemma_find_section(ls, i + 1);
    }
}

/// The last non-blank line before `h` is before it.
proof fn lemma_last_filled(ls: Seq<Seq<char>>, h: int)
    requires
        h >= 0,
    ensures
        last_filled(ls, h) < h,
        last_filled(ls, h) >= -1,
    decreases h,
{
    if h > 0 && h <= ls.len() && crate::warmstart::blank(ls[h - 1]) {
        lemma_last_filled(ls, h - 1);
    }
}

/// The ranked items of two pieces are those of each, in order.
proof fn lemma_ranked_concat(x: Seq<Seq<char>>, y: Seq<Seq<char>>)
    ensures
        ranked_items(x + y) == ranked_items(x) + ranked_items(y),
    decreases y.len(),
{
    if y.len() == 0 {
        assert(x + y =~= x);
        assert(ranked_items(x) + Seq::<(u64, Seq<char>)>::empty() =~= ranked_items(x));
    } else {
        assert((x + y).drop_last() =~= x + y.drop_last());
        assert((x + y).last() == y.last());
        lemma_ranked_concat(x, y.drop_last());
        match ranked_of(y.last()) {
            Some(item) => {
                assert(ranked_items(x) + ranked_items(y.drop_last()).push(item) =~= (ranked_items(x)
                    + ranked_items(y.drop_last())).push(item));
            },
            None => {},
        }
    }
}

/// The first line of a text that starts with `## ` starts with it too.
proof fn lemma_lines_heading_first(x: Seq<char>)
    requires
        starts_with(x, heading_prefix()),
    ensures
        lines_of(x).len() > 0,
        starts_with(lines_of(x)[0], heading_prefix()),
{
    crate::strings::lemma_find(x, '\n');
    let k = find(x, '\n');
    assert(x[0] == x.subrange(0, 3)[0]);
    assert(x[1] == x.subrange(0, 3)[1]);
    assert(x[2] == x.subrange(0, 3)[2]);
    assert(k >= 3) by {
        if k < 3 {
            assert(x[k] == '\n');
        }
    }
    if k < x.len() {
        let l = x.subrange(0, k);
        let l2 = if k > 0 && l.last() == '\r' { l.drop_last() } else { l };
        assert(lines_of(x) == seq![l2] + lines_of(x.subrange(k + 1, x.len() as int)));
        assert(lines_of(x)[0] == l2);
        if k == 3 {
            assert(l.last() == x[2]);
        }
        assert(l2.subrange(0, 3) =~= x.subrange(0, 3));
    } else {
        assert(lines_of(x) == seq![x]);
    }
}

/// A text that starts with a newline starts with an empty line.
proof fn lemma_lines_newline_first(y: Seq<char>)
    ensures
        lines_of(seq!['\n'] + y) == seq![Seq::<char>::empty()] + lines_of(y),
{
    let x = seq!['\n'] + y;
    crate::strings::lemma_find(x, '\n');
    assert(x[0] == '\n');
    assert(find(x, '\n') == 0);
    assert(x.subrange(0, 0) =~= Seq::<char>::empty());
    assert(x.subrange(1, x.len() as int) =~= y);
}

/// What follows the block in a rewritten file holds no ranked line before
/// the next section: it starts with a section heading, or with an empty
/// line and then one.
proof fn lemma_rest_quiet(rest: Seq<char>)
    requires
        starts_with(rest, heading_prefix()) || (rest.len() > 0 && rest[0] == '\n' && starts_with(
            rest.drop_first(),
            heading_prefix(),
        )),
    ensures
        ranked_items(lines_of(rest).subrange(0, find_heading(lines_of(rest), 0))) =~= Seq::<
            (u64, Seq<char>),
        >::empty(),
{
    let r = lines_of(rest);
    if starts_with(rest, heading_prefix()) {
        lemma_lines_heading_first(rest);
        assert(find_heading(r, 0) == 0);
        assert(r.subrange(0, 0) =~= Seq::<Seq<char>>::empty());
        assert(ranked_items(r.subrange(0, 0)) =~= Seq::<(u64, Seq<char>)>::empty());
    } else {
        let y = rest.drop_first();
        assert(rest =~= seq!['\n'] + y);
        lemma_lines_newline_first(y);
        lemma_lines_heading_first(y);
        assert(r[0] =~= Seq::<char>::empty());
        assert(r[1] == lines_of(y)[0]);
        assert(!starts_with(r[0], heading_prefix()));
        assert(find_heading(r, 1) == 1);
        assert(find_heading(r, 0) == 1);
        let sl = r.subrange(0, 1);
        assert(sl.drop_last() =~= Seq::<Seq<char>>::empty());
        assert(sl.last() == r[0]);
        assert(crate::signoff_read::digit_run(r[0]) == 0);
        assert(ranked_of(r[0]) is None);
        assert(ranked_items(sl.drop_last()) =~= Seq::<(u64, Seq<char>)>::empty());
        assert(ranked_items(sl) == ranked_items(sl.drop_last()));
    }
}

/// `find_line` finds nothing in lines that all differ from `t`.
proof fn lemma_find_line_miss(x: Seq<Seq<char>>, t: Seq<char>, i: int)
    requires
        0 <= i <= x.len(),
        forall|j: int| i <= j < x.len() ==> x[j] != t,
    ensures
        find_line(x, t, i) == x.len(),
    decreases x.len() - i,
{
    if i < x.len() {
        lemma_find_line_miss(x, t, i + 1);
    }
}

/// A line's content is a prefix of it, so a prefix of the content starts
/// the line.
proof fn lemma_content_prefix(l: Seq<char>, p: Seq<char>)
    requires
        starts_with(content_of(l), p),
    ensures
        starts_with(l, p),
{
    let s1 = if l.len() > 0 && l.last() == '\n' { l.drop_last() } else { l };
    assert(s1.subrange(0, p.len() as int) =~= l.subrange(0, p.len() as int));
    let s2 = if s1.len() > 0 && s1.last() == '\r' { s1.drop_last() } else { s1 };
    assert(s2.subrange(0, p.len() as int) =~= s1.subrange(0, p.len() as int));
}

/// Text that starts with a line starting a section starts a section.
proof fn lemma_starts_section(l: Seq<char>, z: Seq<char>)
    requires
        starts_with(l, heading_prefix()),
    ensures
        starts_with(l + z, heading_prefix()),
{
    assert((l + z).subrange(0, 3) =~= l.subrange(0, 3));
}

/// The raw lines from `e` on, concatenated, start with line `e`.
proof fn lemma_tail_starts(ls: Seq<Seq<char>>, e: int, b: int)
    requires
        0 <= e < b <= ls.len(),
        starts_with(ls[e], heading_prefix()),
    ensures
        starts_with(concat(ls.subrange(e, b)), heading_prefix()),
{
    let t = ls.subrange(e, b);
    assert(t =~= seq![ls[e]] + ls.subrange(e + 1, b));
    crate::warmstart::lemma_concat_cons(ls[e], ls.subrange(e + 1, b));
    lemma_starts_section(ls[e], concat(ls.subrange(e + 1, b)));
}

/// The first line of the warm-start region.
pub open spec fn region_start(ls: Seq<Seq<char>>) -> int {
    match region_of(ls) {
        Some((s, _)) => s,
        None => 0,
    }
}

/// The line after the warm-start region.
pub open spec fn region_end(ls: Seq<Seq<char>>) -> int {
    match region_of(ls) {
        Some((_, e)) => e,
        None => 0,
    }
}

/// The part of `o` a rewrite keeps before the block: the lines before the
/// region.
pub open spec fn head_of(o: Seq<char>) -> Seq<char> {
    let ls = raw_lines(o);
    o.subrange(0, offset(ls, region_start(ls)))
}

/// What a rewrite puts after the block: the kept sections and History
/// with the superseded region's entries.
pub open spec fn tail_of(o: Seq<char>) -> Seq<char> {
    let ls = raw_lines(o);
    let s = region_start(ls);
    let e = region_end(ls);
    let h = history_at(ls);
    let block = block_of(ls.subrange(s, e));
    if h < ls.len() {
        let ins = offset(ls, insert_at(ls, h));
        o.subrange(offset(ls, e), ins) + block + o.subrange(ins, o.len() as int)
    } else {
        o.subrange(offset(ls, e), o.len() as int) + new_history(o) + block
    }
}

/// The region's facts: it starts at or before the heading, ends at the
/// next section after it, and the heading is the first line holding it.
proof fn lemma_region_bounds(o: Seq<char>)
    requires
        crate::warmstart::rewrite_accepted(o),
    ensures
        ({
            let ls = raw_lines(o);
            let s = region_start(ls);
            let e = region_end(ls);
            let hh = find_content(ls, warm_heading(), 0);
            &&& 0 <= s <= hh < e <= ls.len()
            &&& e == find_section(ls, hh + 1)
            &&& concat(ls) == o
            &&& offset(ls, 0) == 0
            &&& offset(ls, ls.len() as int) == o.len()
        }),
{
    let ls = raw_lines(o);
    let n = ls.len() as int;
    lemma_raw_lines(o);
    let hh = find_content(ls, warm_heading(), 0);
    lemma_find_content_bound(ls, warm_heading(), 0);
    lemma_last_filled(ls, hh);
    lemma_find_section(ls, hh + 1);
    assert(ls.subrange(0, 0) =~= Seq::<Seq<char>>::empty());
    assert(ls.subrange(0, n) =~= ls);
}

/// The kept head ends with a newline (or is empty), and none of its lines
/// is the warm-start heading.
proof fn lemma_head(o: Seq<char>)
    requires
        crate::warmstart::rewrite_accepted(o),
    ensures
        head_of(o).len() == 0 || head_of(o).last() == '\n',
        forall|j: int| 0 <= j < lines_of(head_of(o)).len() ==> lines_of(head_of(o))[j] != warm_heading(),
{
    let ls = raw_lines(o);
    lemma_region_bounds(o);
    lemma_raw_lines(o);
    lemma_raw_line_ends(o);
    let s = region_start(ls);
    let hl = ls.subrange(0, s);
    lemma_offsets(ls, 0, s);
    assert(head_of(o) == concat(hl));
    assert forall|i: int| 0 <= i < hl.len() implies (#[trigger] hl[i]).len() > 0 && hl[i].last() == '\n' by {
        assert(hl[i] == ls[i]);
    }
    assert forall|i: int, j: int| 0 <= i < hl.len() && 0 <= j < hl[i].len() - 1 implies #[trigger] hl[i][j] != '\n' by {
        assert(hl[i] == ls[i]);
        assert(ls[i][j] != '\n');
    }
    lemma_lines_of_concat(hl);
    let a = lines_of(head_of(o));
    assert forall|j: int| 0 <= j < a.len() implies a[j] != warm_heading() by {
        assert(a[j] == content_of(ls[j]));
        lemma_before_content(ls, warm_heading(), 0, j);
    }
    if hl.len() == 0 {
        assert(concat(hl) =~= Seq::<char>::empty());
    }
}

/// What follows the block starts with a section heading, or with an empty
/// line and then one; and the rewritten text is the head, the block and
/// that.
proof fn lemma_tail(o: Seq<char>, content: Seq<char>)
    requires
        crate::warmstart::rewrite_accepted(o),
    ensures
        rewritten(o, content) == head_of(o) + (normalized(content) + tail_of(o)),
        starts_with(tail_of(o), heading_prefix()) || (tail_of(o).len() > 0 && tail_of(o)[0] == '\n'
            && starts_with(tail_of(o).drop_first(), heading_prefix())),
{
    let ls = raw_lines(o);
    let n = ls.len() as int;
    lemma_region_bounds(o);
    let s = region_start(ls);
    let e = region_end(ls);
    let hh = find_content(ls, warm_heading(), 0);
    lemma_find_section(ls, hh + 1);
    let h = history_at(ls);
    let block = block_of(ls.subrange(s, e));
    let c = normalized(content);
    let rest = tail_of(o);
    if h < n {
        let ins_line = insert_at(ls, h);
        let end = find_section(ls, h + 1);
        lemma_find_section(ls, h + 1);
        lemma_last_filled(ls, end);
        assert(e <= h < ins_line <= n);
        lemma_offsets(ls, e, ins_line);
        lemma_content_prefix(ls[e], heading_prefix());
        lemma_tail_starts(ls, e, ins_line);
        let mid = o.subrange(offset(ls, e), offset(ls, ins_line));
        assert(mid == concat(ls.subrange(e, ins_line)));
        lemma_starts_section(mid, block + o.subrange(offset(ls, ins_line), o.len() as int));
        assert(rest =~= mid + (block + o.subrange(offset(ls, ins_line), o.len() as int)));
    } else {
        if e < n {
            lemma_offsets(ls, e, n);
            lemma_content_prefix(ls[e], heading_prefix());
            lemma_tail_starts(ls, e, n);
            let mid = o.subrange(offset(ls, e), o.len() as int);
            assert(mid == concat(ls.subrange(e, n)));
            lemma_starts_section(mid, new_history(o) + block);
            assert(rest =~= mid + (new_history(o) + block));
        } else {
            assert(o.subrange(offset(ls, e), o.len() as int) =~= Seq::<char>::empty());
            let hist = seq!['#', '#', ' ', 'H', 'i', 's', 't', 'o', 'r', 'y', '\n'];
            if o.len() > 0 && o.last() != '\n' {
                assert(rest =~= seq!['\n'] + (hist + block));
                assert(rest.drop_first() =~= hist + block);
                assert((hist + block).subrange(0, 3) =~= heading_prefix());
            } else {
                assert(rest =~= hist + block);
                assert(rest.subrange(0, 3) =~= heading_prefix());
            }
        }
    }
    assert(rewritten(o, content) =~= head_of(o) + (c + rest));
}

/// `last_nonblank` inside the second of two pieces, when that piece has a
/// non-blank line before the position.
proof fn lemma_last_nonblank_shift(x: Seq<Seq<char>>, y: Seq<Seq<char>>, k: int)
    requires
        0 <= k <= y.len(),
        crate::signoff_read::last_nonblank(y, k) >= 0,
    ensures
        crate::signoff_read::last_nonblank(x + y, x.len() + k) == x.len()
            + crate::signoff_read::last_nonblank(y, k),
    decreases k,
{
    if k > 0 {
        assert((x + y)[x.len() + k - 1] == y[k - 1]);
        if crate::strings::trim(y[k - 1]).len() == 0 {
            lemma_last_nonblank_shift(x, y, k - 1);
        }
    }
}

/// `last_nonblank` answers a line before the position, or `-1`.
proof fn lemma_last_nonblank_bound(x: Seq<Seq<char>>, k: int)
    requires
        0 <= k <= x.len(),
    ensures
        -1 <= crate::signoff_read::last_nonblank(x, k) < k,
    decreases k,
{
    if k > 0 && crate::strings::trim(x[k - 1]).len() == 0 {
        lemma_last_nonblank_bound(x, k - 1);
    }
}

/// `last_nonblank` within the first of two pieces ignores the second.
proof fn lemma_last_nonblank_prefix(x: Seq<Seq<char>>, y: Seq<Seq<char>>, k: int)
    requires
        0 <= k <= x.len(),
    ensures
        crate::signoff_read::last_nonblank(x + y, k) == crate::signoff_read::last_nonblank(x, k),
    decreases k,
{
    if k > 0 {
        assert((x + y)[k - 1] == x[k - 1]);
        lemma_last_nonblank_prefix(x, y, k - 1);
    }
}

/// A line of a text that does not end with a carriage return is still a
/// line of the text ended with a newline.
proof fn lemma_lines_keep(a: Seq<char>, t: Seq<char>)
    requires
        t.len() > 0,
        t.last() != '\r',
        lines_of(a).contains(t),
    ensures
        lines_of(normalized(a)).contains(t),
    decreases a.len(),
{
    if !(a.len() > 0 && a.last() == '\n') {
        let s = a + seq!['\n'];
        assert(normalized(a) == s);
        let k = find(a, '\n');
        crate::strings::lemma_find(a, '\n');
        crate::strings::lemma_find(s, '\n');
        if k < a.len() {
            assert(find(s, '\n') == k) by {
                if find(s, '\n') < k {
                    assert(s[find(s, '\n')] == a[find(s, '\n')]);
                }
                if find(s, '\n') > k {
                    assert(s[k] == a[k]);
                }
            }
            assert(s.subrange(0, k) =~= a.subrange(0, k));
            let ra = a.subrange(k + 1, a.len() as int);
            assert(ra.len() > 0);
            assert(ra.last() == a.last());
            assert(s.subrange(k + 1, s.len() as int) =~= ra + seq!['\n']);
            let l = a.subrange(0, k);
            let l2 = if k > 0 && l.last() == '\r' { l.drop_last() } else { l };
            assert(lines_of(a) == seq![l2] + lines_of(ra));
            assert(lines_of(s) == seq![l2] + lines_of(ra + seq!['\n']));
            let j = choose|j: int| 0 <= j < lines_of(a).len() && lines_of(a)[j] == t;
            if j == 0 {
                assert(lines_of(s)[0] == t);
            } else {
                assert(lines_of(ra)[j - 1] == t);
                lemma_lines_keep(ra, t);
                assert(normalized(ra) == ra + seq!['\n']);
                let i = choose|i: int| 0 <= i < lines_of(ra + seq!['\n']).len() && lines_of(
                    ra + seq!['\n'],
                )[i] == t;
                assert(lines_of(s)[i + 1] == t);
            }
        } else {
            assert(find(s, '\n') == a.len()) by {
                if find(s, '\n') < a.len() {
                    assert(s[find(s, '\n')] == a[find(s, '\n')]);
                }
                if find(s, '\n') > a.len() {
                    assert(s[a.len() as int] == '\n');
                }
            }
            assert(a.len() > 0);
            assert(lines_of(a) == seq![a]);
            assert(lines_of(a)[0] == t);
            assert(s.subrange(0, a.len() as int) =~= a);
            assert(s.subrange(a.len() + 1int, s.len() as int) =~= Seq::<char>::empty());
            assert(lines_of(Seq::<char>::empty()) =~= Seq::<Seq<char>>::empty());
            assert(a.last() != '\r');
            assert(lines_of(s) == seq![a] + lines_of(Seq::<char>::empty()));
            assert(lines_of(s)[0] == t);
        }
    }
}

/// What `read_signoff` ranks after `write_warm_start` rewrote `signoff.md`
/// with a block that carries its heading line: exactly the ranked lines
/// the block itself holds under its heading. The rest of the file (the
/// kept head before the region, the kept sections after it, the History
/// entries) adds no ranked line and takes none away. When the block has a
/// non-blank line before its heading, the header read back is the block's
/// own too.
pub proof fn lemma_warm_start_reads_back(o: Seq<char>, content: Seq<char>)
    requires
        crate::warmstart::rewrite_accepted(o),
        lines_of(content).contains(warm_heading()),
    ensures
        ranked_of_file(lines_of(rewritten(o, content))) == ranked_of_file(
            lines_of(normalized(content)),
        ),
        ({
            let cl = lines_of(normalized(content));
            crate::signoff_read::last_nonblank(cl, find_line(cl, warm_heading(), 0)) >= 0
                ==> crate::signoff_read::header_of(lines_of(rewritten(o, content)))
                == crate::signoff_read::header_of(cl)
        }),
{
    lemma_lines_keep(content, warm_heading());
    let head = head_of(o);
    let c = normalized(content);
    let rest = tail_of(o);
    lemma_head(o);
    lemma_tail(o, content);
    lemma_rest_quiet(rest);
    let a = lines_of(head);
    let cl = lines_of(c);
    let r = lines_of(rest);
    lemma_find_line_miss(a, warm_heading(), 0);
    lemma_lines_concat(c, rest);
    if head.len() > 0 {
        lemma_lines_concat(head, c + rest);
    } else {
        assert(head + (c + rest) =~= c + rest);
        assert(a =~= Seq::<Seq<char>>::empty());
        assert(a + (cl + r) =~= cl + r);
    }
    let w = a + (cl + r);
    assert(lines_of(rewritten(o, content)) == w);
    let k = find_line(cl, warm_heading(), 0);
    let wj = choose|j: int| 0 <= j < cl.len() && cl[j] == warm_heading();
    lemma_find_line_hit(cl, warm_heading(), 0, wj);
    lemma_find_line_bound(cl, warm_heading(), 0);
    lemma_find_line_concat(cl, r, warm_heading(), 0);
    lemma_find_line_concat(a, cl + r, warm_heading(), 0);
    assert(find_line(w, warm_heading(), 0) == a.len() + k);
    lemma_find_heading_shift(a, cl + r, k + 1);
    lemma_find_heading_concat(cl, r, k + 1);
    lemma_find_heading_concat(r, Seq::<Seq<char>>::empty(), 0);
    if crate::signoff_read::last_nonblank(cl, k) >= 0 {
        assert(crate::signoff_read::last_nonblank(cl + r, k) == crate::signoff_read::last_nonblank(
            cl,
            k,
        )) by {
            lemma_last_nonblank_prefix(cl, r, k);
        }
        lemma_last_nonblank_shift(a, cl + r, k);
        let j = crate::signoff_read::last_nonblank(cl, k);
        lemma_last_nonblank_bound(cl, k);
        assert(w[a.len() + j] == cl[j]);
    }
    let fc = find_heading(cl, k + 1);
    let fr = find_heading(r, 0);
    if fc < cl.len() {
        assert(w.subrange(a.len() + k + 1, a.len() + fc) =~= cl.subrange(k + 1, fc));
    } else {
        assert(w.subrange(a.len() + k + 1, a.len() + cl.len() + fr) =~= cl.subrange(
            k + 1,
            cl.len() as int,
        ) + r.subrange(0, fr));
        lemma_ranked_concat(cl.subrange(k + 1, cl.len() as int), r.subrange(0, fr));
        assert(ranked_items(cl.subrange(k + 1, cl.len() as int)) + Seq::<(u64, Seq<char>)>::empty()
            =~= ranked_items(cl.subrange(k + 1, cl.len() as int)));
    }
}

/// A text trims to nothing exactly when it is all whitespace.
proof fn lemma_trim_empty(x: Seq<char>)
    ensures
        (trim(x).len() == 0) == (forall|j: int| 0 <= j < x.len() ==> is_space(#[trigger] x[j])),
{
    crate::strings::lemma_lead_space(x);
    let a = crate::strings::lead_space(x);
    let y = crate::strings::trim_start(x);
    crate::strings::lemma_trail_space(y);
    if trim(x).len() == 0 {
        assert forall|j: int| 0 <= j < x.len() implies is_space(#[trigger] x[j]) by {
            if j >= a {
                assert(x[j] == y[j - a]);
            }
        }
    }
    if forall|j: int| 0 <= j < x.len() ==> is_space(#[trigger] x[j]) {
        if a < x.len() {
            assert(is_space(x[a]));
        }
    }
}

/// Trimming twice trims no more than once.
proof fn lemma_trim_twice(x: Seq<char>)
    ensures
        trim(trim(x)) == trim(x),
{
    crate::strings::lemma_lead_space(x);
    let a = crate::strings::lead_space(x);
    let y = crate::strings::trim_start(x);
    crate::strings::lemma_trail_space(y);
    let t = trim(x);
    assert(t == y.subrange(0, y.len() - crate::strings::trail_space(y)));
    if t.len() > 0 {
        assert(t[0] == y[0]);
        assert(y[0] == x[a]);
        assert(t[t.len() - 1] == y[y.len() - crate::strings::trail_space(y) - 1]);
        crate::strings::lemma_lead_space(t);
        crate::strings::lemma_trail_space(t);
        assert(crate::strings::lead_space(t) == 0);
        assert(crate::strings::trim_start(t) =~= t);
        assert(crate::strings::trail_space(t) == 0);
        assert(crate::strings::trim_end(t) =~= t);
    } else {
        assert(t =~= Seq::<char>::empty());
        assert(crate::strings::trim_start(t) =~= t);
    }
}

/// The History entries a superseded region becomes, as `read_signoff`
/// reads them back: each non-blank line's content, trimmed.
pub open spec fn region_entries(rl: Seq<Seq<char>>) -> Seq<Seq<char>>
    decreases rl.len(),
{
    if rl.len() == 0 {
        Seq::empty()
    } else {
        let prev = region_entries(rl.drop_last());
        let l = rl.last();
        if crate::warmstart::blank(l) {
            prev
        } else {
            prev.push(trim(content_of(l)))
        }
    }
}

/// The rendered History entries of a region read back as its entries; each
/// of their lines starts with `- `.
proof fn lemma_block_read(rl: Seq<Seq<char>>)
    requires
        forall|i: int, j: int| 0 <= i < rl.len() && 0 <= j < rl[i].len() - 1 ==> #[trigger] rl[i][j] != '\n',
    ensures
        block_of(rl).len() == 0 || block_of(rl).last() == '\n',
        history_items(lines_of(block_of(rl))) == region_entries(rl),
        forall|i: int|
            0 <= i < lines_of(block_of(rl)).len() ==> starts_with(
                #[trigger] lines_of(block_of(rl))[i],
                seq!['-', ' '],
            ),
    decreases rl.len(),
{
    if rl.len() == 0 {
        assert(lines_of(Seq::<char>::empty()) =~= Seq::<Seq<char>>::empty());
    } else {
        let prev = rl.drop_last();
        let l = rl.last();
        assert forall|i: int, j: int| 0 <= i < prev.len() && 0 <= j < prev[i].len() - 1 implies #[trigger] prev[i][j] != '\n' by {
            assert(prev[i] == rl[i]);
            assert(rl[i][j] != '\n');
        }
        lemma_block_read(prev);
        let bp = block_of(prev);
        let bl = lines_of(bp);
        if !crate::warmstart::blank(l) {
            let c = content_of(l);
            let t = trim(c);
            let x = seq!['-', ' '] + t;
            let piece = x + seq!['\n'];
            assert(block_of(rl) =~= bp + piece);
            // No newline inside the entry.
            assert forall|j: int| 0 <= j < c.len() implies c[j] != '\n' by {
                assert(l == rl[rl.len() - 1]);
                assert(c[j] == l[j]);
                if j < l.len() - 1 {
                    assert(rl[rl.len() - 1][j] != '\n');
                }
            }
            crate::strings::lemma_lead_space(c);
            let y = crate::strings::trim_start(c);
            crate::strings::lemma_trail_space(y);
            assert(t == y.subrange(0, y.len() - crate::strings::trail_space(y)));
            assert forall|j: int| 0 <= j < t.len() implies t[j] != '\n' by {
                assert(t[j] == y[j]);
                assert(y[j] == c[crate::strings::lead_space(c) + j]);
            }
            assert forall|j: int| 0 <= j < piece.len() - 1 implies piece[j] != '\n' by {
                if j >= 2 {
                    assert(piece[j] == t[j - 2]);
                }
            }
            lemma_lines_of_line(piece);
            lemma_trim_empty(c);
            lemma_trim_twice(c);
            crate::strings::lemma_trail_space(y);
            assert(t.len() > 0);
            assert(t[t.len() - 1] == y[y.len() - crate::strings::trail_space(y) - 1]);
            assert(!is_space(t.last()));
            assert(piece.drop_last() =~= x);
            assert(x.last() == t.last());
            assert(content_of(piece) =~= x);
            if bp.len() > 0 {
                lemma_lines_concat(bp, piece);
            } else {
                assert(bp + piece =~= piece);
                assert(bl =~= Seq::<Seq<char>>::empty());
            }
            let all = lines_of(block_of(rl));
            assert(all =~= bl.push(x));
            assert(all.drop_last() =~= bl);
            assert(all.last() == x);
            assert(x.subrange(0, 2) =~= seq!['-', ' ']);
            assert(x.subrange(2, x.len() as int) =~= t);
            lemma_trim_empty(x);
            assert(!is_space(x[0]));
            assert forall|i: int| 0 <= i < all.len() implies starts_with(
                #[trigger] all[i],
                seq!['-', ' '],
            ) by {
                if i < bl.len() {
                    assert(all[i] == bl[i]);
                }
            }
        }
    }
}

/// The History entries of two pieces are those of each, in order.
proof fn lemma_history_concat(x: Seq<Seq<char>>, y: Seq<Seq<char>>)
    ensures
        history_items(x + y) == history_items(x) + history_items(y),
    decreases y.len(),
{
    if y.len() == 0 {
        assert(x + y =~= x);
        assert(history_items(x) + Seq::<Seq<char>>::empty() =~= history_items(x));
    } else {
        assert((x + y).drop_last() =~= x + y.drop_last());
        assert((x + y).last() == y.last());
        lemma_history_concat(x, y.drop_last());
        let l = y.last();
        let entry = if starts_with(l, seq!['-', ' ']) {
            trim(l.subrange(2, l.len() as int))
        } else {
            trim(l)
        };
        if !(trim(l).len() == 0 || entry.len() == 0) {
            assert(history_items(x) + history_items(y.drop_last()).push(entry) =~= (history_items(x)
                + history_items(y.drop_last())).push(entry));
        }
    }
}

/// Lines that all trim to nothing hold no History entry.
proof fn lemma_history_blank(x: Seq<Seq<char>>)
    requires
        forall|i: int| 0 <= i < x.len() ==> trim(#[trigger] x[i]).len() == 0,
    ensures
        history_items(x) =~= Seq::<Seq<char>>::empty(),
    decreases x.len(),
{
    if x.len() > 0 {
        assert(trim(x[x.len() - 1]).len() == 0);
        assert forall|i: int| 0 <= i < x.drop_last().len() implies trim(#[trigger] x.drop_last()[i]).len() == 0 by {
            assert(x.drop_last()[i] == x[i]);
        }
        lemma_history_blank(x.drop_last());
    }
}

/// What `str::lines` makes of raw lines put together: one line each, its
/// content; only a last raw line without a newline may stay as it is.
proof fn lemma_lines_of_raw(q: Seq<Seq<char>>)
    requires
        forall|i: int| 0 <= i < q.len() ==> (#[trigger] q[i]).len() > 0,
        forall|i: int| 0 <= i < q.len() - 1 ==> (#[trigger] q[i]).last() == '\n',
        forall|i: int, j: int| 0 <= i < q.len() && 0 <= j < q[i].len() - 1 ==> #[trigger] q[i][j] != '\n',
    ensures
        lines_of(concat(q)).len() == q.len(),
        forall|i: int|
            0 <= i < q.len() ==> #[trigger] lines_of(concat(q))[i] == content_of(q[i]) || (i == q.len() - 1
                && lines_of(concat(q))[i] == q[i] && q[i].last() != '\n' && forall|j: int|
                0 <= j < q[i].len() ==> q[i][j] != '\n'),
{
    if q.len() > 0 {
        let prev = q.drop_last();
        let l = q.last();
        assert forall|i: int| 0 <= i < prev.len() implies (#[trigger] prev[i]).len() > 0 && prev[i].last() == '\n' by {
            assert(prev[i] == q[i]);
        }
        assert forall|i: int, j: int| 0 <= i < prev.len() && 0 <= j < prev[i].len() - 1 implies #[trigger] prev[i][j] != '\n' by {
            assert(prev[i] == q[i]);
            assert(q[i][j] != '\n');
        }
        lemma_lines_of_concat(prev);
        assert(l == q[q.len() - 1]);
        assert(concat(q) == concat(prev) + l);
        assert forall|j: int| 0 <= j < l.len() - 1 implies l[j] != '\n' by {
            assert(q[q.len() - 1][j] != '\n');
        }
        let ll = if l.last() == '\n' {
            lemma_lines_of_line(l);
            seq![content_of(l)]
        } else {
            crate::strings::lemma_find(l, '\n');
            assert(find(l, '\n') == l.len()) by {
                if find(l, '\n') < l.len() {
                    assert(l[find(l, '\n')] == '\n');
                }
            }
            assert(lines_of(l) == seq![l]);
            seq![l]
        };
        assert(lines_of(l) == ll);
        if prev.len() > 0 {
            lemma_lines_concat(concat(prev), l);
        } else {
            assert(concat(prev) + l =~= l);
            assert(prev.map_values(|x: Seq<char>| content_of(x)) =~= Seq::<Seq<char>>::empty());
        }
        let all = lines_of(concat(q));
        assert(all =~= prev.map_values(|x: Seq<char>| content_of(x)) + ll);
        assert forall|i: int| 0 <= i < q.len() implies #[trigger] all[i] == content_of(q[i]) || (i
            == q.len() - 1 && all[i] == q[i] && q[i].last() != '\n' && forall|j: int|
            0 <= j < q[i].len() ==> q[i][j] != '\n') by {
            if i < prev.len() {
                assert(all[i] == content_of(prev[i]));
                assert(prev[i] == q[i]);
            } else {
                if l.last() != '\n' {
                    assert forall|j: int| 0 <= j < q[i].len() implies q[i][j] != '\n' by {
                        if j == l.len() - 1 {
                            assert(l[j] == l.last());
                        }
                    }
                }
            }
        }
    }
}

/// Where `find_line` stops it found `t`.
proof fn lemma_find_line_found(x: Seq<Seq<char>>, t: Seq<char>, i: int)
    requires
        0 <= i <= x.len(),
        find_line(x, t, i) < x.len(),
    ensures
        x[find_line(x, t, i)] == t,
        find_line(x, t, i) >= i,
    decreases x.len() - i,
{
    if x[i] != t {
        lemma_find_line_found(x, t, i + 1);
    }
}

/// `find_line` finds the first line equal to `t`.
proof fn lemma_find_line_at(x: Seq<Seq<char>>, t: Seq<char>, h: int)
    requires
        0 <= h < x.len(),
        x[h] == t,
        forall|j: int| 0 <= j < h ==> x[j] != t,
    ensures
        find_line(x, t, 0) == h,
{
    lemma_find_line_hit(x, t, 0, h);
    lemma_find_line_found(x, t, 0);
}

/// `find_heading` finds nothing in lines that start no section.
proof fn lemma_find_heading_miss(x: Seq<Seq<char>>, i: int)
    requires
        0 <= i <= x.len(),
        forall|j: int| i <= j < x.len() ==> !starts_with(#[trigger] x[j], heading_prefix()),
    ensures
        find_heading(x, i) == x.len(),
    decreases x.len() - i,
{
    if i < x.len() {
        lemma_find_heading_miss(x, i + 1);
    }
}

/// A line starting a section bounds where `find_heading` stops.
proof fn lemma_find_heading_hit(x: Seq<Seq<char>>, i: int, j: int)
    requires
        0 <= i <= j < x.len(),
        starts_with(x[j], heading_prefix()),
    ensures
        find_heading(x, i) <= j,
    decreases j - i,
{
    if !starts_with(x[i], heading_prefix()) {
        lemma_find_heading_hit(x, i + 1, j);
    }
}

/// No line before `find_section`'s answer starts a section.
proof fn lemma_before_section(ls: Seq<Seq<char>>, i: int, j: int)
    requires
        0 <= i <= j < find_section(ls, i),
    ensures
        !starts_with(content_of(ls[j]), heading_prefix()),
    decreases j - i,
{
    if i < j {
        lemma_before_section(ls, i + 1, j);
    }
}

/// A line that trims to nothing starts no section.
proof fn lemma_blank_no_section(l: Seq<char>)
    requires
        trim(l).len() == 0,
    ensures
        !starts_with(l, heading_prefix()),
{
    lemma_trim_empty(l);
    if starts_with(l, heading_prefix()) {
        assert(l[0] == l.subrange(0, 3)[0]);
        assert(is_space(l[0]));
    }
}

/// A raw line that trims to nothing has a content that trims to nothing,
/// and the other way round.
proof fn lemma_blank_raw(l: Seq<char>)
    ensures
        (trim(l).len() == 0) == (trim(content_of(l)).len() == 0),
{
    let c = content_of(l);
    lemma_trim_empty(l);
    lemma_trim_empty(c);
    let s1 = if l.len() > 0 && l.last() == '\n' { l.drop_last() } else { l };
    assert forall|j: int| 0 <= j < c.len() implies c[j] == l[j] by {
        assert(c[j] == s1[j]);
    }
    if forall|j: int| 0 <= j < c.len() ==> is_space(#[trigger] c[j]) {
        assert forall|j: int| 0 <= j < l.len() implies is_space(#[trigger] l[j]) by {
            if j >= c.len() {
                if j == l.len() - 1 && l.last() == '\n' {
                    assert(l[j] == '\n');
                } else {
                    assert(l[j] == s1[j]);
                    assert(s1.last() == '\r');
                    assert(j == s1.len() - 1);
                }
            } else {
                assert(c[j] == l[j]);
            }
        }
    }
    if forall|j: int| 0 <= j < l.len() ==> is_space(#[trigger] l[j]) {
        assert forall|j: int| 0 <= j < c.len() implies is_space(#[trigger] c[j]) by {
            assert(c[j] == l[j]);
        }
    }
}

/// Whether a rewrite of `o` would put the History entries right after a
/// last line that has no newline, where they would join that line.
pub open spec fn history_glued(o: Seq<char>) -> bool {
    let ls = raw_lines(o);
    let h = history_at(ls);
    h < ls.len() && insert_at(ls, h) == ls.len() && o.len() > 0 && o.last() != '\n'
}

/// The contents of lines `a..b`.
pub open spec fn contents(ls: Seq<Seq<char>>, a: int, b: int) -> Seq<Seq<char>> {
    ls.subrange(a, b).map_values(|l: Seq<char>| content_of(l))
}

/// Where `find_content` stops it found `t`.
proof fn lemma_find_content_found(ls: Seq<Seq<char>>, t: Seq<char>, i: int)
    requires
        0 <= i,
        find_content(ls, t, i) < ls.len(),
    ensures
        content_of(ls[find_content(ls, t, i)]) == t,
    decreases ls.len() - i,
{
    if content_of(ls[i]) != t {
        lemma_find_content_found(ls, t, i + 1);
    }
}

/// The lines after the last non-blank one before `k` are blank.
proof fn lemma_after_last_filled(ls: Seq<Seq<char>>, k: int, i: int)
    requires
        0 <= k <= ls.len(),
        last_filled(ls, k) < i < k,
    ensures
        crate::warmstart::blank(ls[i]),
    decreases k,
{
    if k > 0 && crate::warmstart::blank(ls[k - 1]) && i < k - 1 {
        lemma_after_last_filled(ls, k - 1, i);
    }
}

/// The facts of a rewrite into an existing History section: where the
/// section and its insertion point are, and that the lines up to the
/// insertion point all end with their newline.
proof fn lemma_kept_bounds(o: Seq<char>)
    requires
        crate::warmstart::rewrite_accepted(o),
        !history_glued(o),
        history_at(raw_lines(o)) < raw_lines(o).len(),
    ensures
        ({
            let ls = raw_lines(o);
            let h = history_at(ls);
            let ins = insert_at(ls, h);
            let end = find_section(ls, h + 1);
            &&& region_end(ls) <= h < ins <= end <= ls.len()
            &&& content_of(ls[h]) == crate::signoff_read::history_heading()
            &&& forall|j: int| 0 <= j < h ==> content_of(#[trigger] ls[j]) != crate::signoff_read::history_heading()
            &&& forall|j: int| 0 <= j < ins ==> (#[trigger] ls[j]).len() > 0 && ls[j].last() == '\n'
            &&& forall|i: int, j: int| 0 <= i < ls.len() && 0 <= j < ls[i].len() - 1 ==> #[trigger] ls[i][j] != '\n'
            &&& forall|j: int| 0 <= j < ls.len() ==> (#[trigger] ls[j]).len() > 0
            &&& forall|j: int| 0 <= j < ls.len() - 1 ==> (#[trigger] ls[j]).last() == '\n'
            &&& forall|j: int| h < j < end ==> !starts_with(content_of(#[trigger] ls[j]), heading_prefix())
            &&& forall|j: int| ins <= j < end ==> crate::warmstart::blank(#[trigger] ls[j])
            &&& end < ls.len() ==> starts_with(content_of(ls[end]), heading_prefix())
        }),
{
    let ls = raw_lines(o);
    let n = ls.len() as int;
    lemma_region_bounds(o);
    lemma_raw_lines(o);
    lemma_raw_line_ends(o);
    let hist = crate::signoff_read::history_heading();
    let h = history_at(ls);
    lemma_find_content_found(ls, hist, 0);
    assert forall|j: int| 0 <= j < h implies content_of(#[trigger] ls[j]) != hist by {
        lemma_before_content(ls, hist, 0, j);
    }
    let end = find_section(ls, h + 1);
    lemma_find_section(ls, h + 1);
    lemma_last_filled(ls, end);
    let ins = insert_at(ls, h);
    assert(h < ins <= end);
    assert(o.len() > 0) by {
        assert(ls[0].len() > 0);
        crate::warmstart::lemma_concat_split(ls, 1);
        assert(ls.subrange(0, 1).drop_last() =~= Seq::<Seq<char>>::empty());
    }
    assert(concat(ls) == concat(ls.drop_last()) + ls.last());
    assert(o.last() == ls.last().last());
    assert forall|j: int| 0 <= j < ins implies (#[trigger] ls[j]).len() > 0 && ls[j].last() == '\n' by {
        if j == n - 1 {
            assert(ls.last() == ls[n - 1]);
        }
    }
    assert forall|j: int| h < j < end implies !starts_with(content_of(#[trigger] ls[j]), heading_prefix()) by {
        lemma_before_section(ls, h + 1, j);
    }
    assert forall|j: int| ins <= j < end implies crate::warmstart::blank(#[trigger] ls[j]) by {
        lemma_after_last_filled(ls, end, j);
    }
}

/// The lines after the insertion point hold no History entry before the
/// next section.
proof fn lemma_tail_blank(o: Seq<char>)
    requires
        crate::warmstart::rewrite_accepted(o),
        !history_glued(o),
        history_at(raw_lines(o)) < raw_lines(o).len(),
    ensures
        ({
            let ls = raw_lines(o);
            let ins = insert_at(ls, history_at(ls));
            let lt = lines_of(o.subrange(offset(ls, ins), o.len() as int));
            &&& 0 <= find_heading(lt, 0) <= lt.len()
            &&& history_items(lt.subrange(0, find_heading(lt, 0))) =~= Seq::<Seq<char>>::empty()
            &&& o.subrange(offset(ls, ins), o.len() as int) == concat(ls.subrange(ins, ls.len() as int))
        }),
{
    let ls = raw_lines(o);
    let n = ls.len() as int;
    lemma_kept_bounds(o);
    lemma_region_bounds(o);
    let h = history_at(ls);
    let ins = insert_at(ls, h);
    let end = find_section(ls, h + 1);
    lemma_offsets(ls, ins, n);
    let q = ls.subrange(ins, n);
    assert forall|i: int| 0 <= i < q.len() implies (#[trigger] q[i]).len() > 0 by {
        assert(q[i] == ls[ins + i]);
    }
    assert forall|i: int| 0 <= i < q.len() - 1 implies (#[trigger] q[i]).last() == '\n' by {
        assert(q[i] == ls[ins + i]);
    }
    assert forall|i: int, j: int| 0 <= i < q.len() && 0 <= j < q[i].len() - 1 implies #[trigger] q[i][j] != '\n' by {
        assert(q[i] == ls[ins + i]);
        assert(ls[ins + i][j] != '\n');
    }
    lemma_lines_of_raw(q);
    let lt = lines_of(concat(q));
    lemma_find_heading_concat(lt, Seq::<Seq<char>>::empty(), 0);
    let ft = find_heading(lt, 0);
    if end < n {
        let k = end - ins;
        assert(q[k] == ls[end]);
        lemma_content_prefix(ls[end], heading_prefix());
        lemma_find_heading_hit(lt, 0, k);
    }
    assert(ft <= end - ins);
    let part = lt.subrange(0, ft);
    assert forall|i: int| 0 <= i < part.len() implies trim(#[trigger] part[i]).len() == 0 by {
        assert(part[i] == lt[i]);
        assert(q[i] == ls[ins + i]);
        assert(crate::warmstart::blank(ls[ins + i]));
        lemma_blank_raw(q[i]);
    }
    lemma_history_blank(part);
}

/// What `read_signoff` reads as the History of a file whose section
/// exists: the entries of its lines up to the insertion point.
proof fn lemma_kept_old(o: Seq<char>)
    requires
        crate::warmstart::rewrite_accepted(o),
        !history_glued(o),
        history_at(raw_lines(o)) < raw_lines(o).len(),
    ensures
        ({
            let ls = raw_lines(o);
            let h = history_at(ls);
            crate::signoff_read::history_of_file(lines_of(o)) == history_items(
                contents(ls, h + 1, insert_at(ls, h)),
            )
        }),
{
    let ls = raw_lines(o);
    let n = ls.len() as int;
    lemma_kept_bounds(o);
    lemma_region_bounds(o);
    lemma_tail_blank(o);
    let hist = crate::signoff_read::history_heading();
    let h = history_at(ls);
    let ins = insert_at(ls, h);
    let pl = ls.subrange(0, ins);
    assert forall|i: int| 0 <= i < pl.len() implies (#[trigger] pl[i]).len() > 0 && pl[i].last() == '\n' by {
        assert(pl[i] == ls[i]);
    }
    assert forall|i: int, j: int| 0 <= i < pl.len() && 0 <= j < pl[i].len() - 1 implies #[trigger] pl[i][j] != '\n' by {
        assert(pl[i] == ls[i]);
        assert(ls[i][j] != '\n');
    }
    lemma_lines_of_concat(pl);
    lemma_offsets(ls, 0, ins);
    let p_text = o.subrange(0, offset(ls, ins));
    let t_text = o.subrange(offset(ls, ins), o.len() as int);
    assert(p_text == concat(pl));
    assert(o =~= p_text + t_text);
    lemma_lines_concat(p_text, t_text);
    let lp = lines_of(p_text);
    let lt = lines_of(t_text);
    assert(lines_of(o) == lp + lt);
    assert(lp.len() == ins);
    assert forall|j: int| 0 <= j < ins implies lp[j] == content_of(#[trigger] ls[j]) by {
        assert(lp[j] == content_of(pl[j]));
    }
    assert forall|j: int| 0 <= j < h implies lp[j] != hist by {
        assert(lp[j] == content_of(ls[j]));
    }
    lemma_find_line_at(lp, hist, h);
    lemma_find_line_concat(lp, lt, hist, 0);
    assert forall|j: int| h + 1 <= j < lp.len() implies !starts_with(#[trigger] lp[j], heading_prefix()) by {
        assert(lp[j] == content_of(ls[j]));
    }
    lemma_find_heading_miss(lp, h + 1);
    lemma_find_heading_concat(lp, lt, h + 1);
    let ft = find_heading(lt, 0);
    let w = lp + lt;
    assert(w.subrange(h + 1, ins + ft) =~= lp.subrange(h + 1, ins) + lt.subrange(0, ft));
    lemma_history_concat(lp.subrange(h + 1, ins), lt.subrange(0, ft));
    assert(lp.subrange(h + 1, ins) =~= contents(ls, h + 1, ins));
    assert(history_items(lp.subrange(h + 1, ins)) + Seq::<Seq<char>>::empty() =~= history_items(
        lp.subrange(h + 1, ins),
    ));
}

/// The History `read_signoff` reads from lines made of pieces: none of
/// `a` and `cl` is the History heading, `m` has it first at `k` with no
/// section start after it, and every line of `b` starts with `- `.
proof fn lemma_read_history_pieces(
    a: Seq<Seq<char>>,
    cl: Seq<Seq<char>>,
    m: Seq<Seq<char>>,
    b: Seq<Seq<char>>,
    lt: Seq<Seq<char>>,
    k: int,
)
    requires
        0 <= k < m.len(),
        forall|j: int| 0 <= j < a.len() ==> a[j] != crate::signoff_read::history_heading(),
        forall|j: int| 0 <= j < cl.len() ==> cl[j] != crate::signoff_read::history_heading(),
        m[k] == crate::signoff_read::history_heading(),
        forall|j: int| 0 <= j < k ==> m[j] != crate::signoff_read::history_heading(),
        forall|j: int| k < j < m.len() ==> !starts_with(#[trigger] m[j], heading_prefix()),
        forall|j: int| 0 <= j < b.len() ==> starts_with(#[trigger] b[j], seq!['-', ' ']),
    ensures
        crate::signoff_read::history_of_file(a + (cl + (m + (b + lt)))) == history_items(
            m.subrange(k + 1, m.len() as int),
        ) + history_items(b) + history_items(lt.subrange(0, find_heading(lt, 0))),
{
    let hist = crate::signoff_read::history_heading();
    let rest2 = m + (b + lt);
    let rest1 = cl + rest2;
    let w = a + rest1;
    lemma_find_line_miss(a, hist, 0);
    lemma_find_line_miss(cl, hist, 0);
    lemma_find_line_at(m, hist, k);
    lemma_find_line_concat(m, b + lt, hist, 0);
    lemma_find_line_concat(cl, rest2, hist, 0);
    lemma_find_line_concat(a, rest1, hist, 0);
    let pos = a.len() + cl.len() + k;
    assert(find_line(w, hist, 0) == pos);
    lemma_find_heading_miss(m, k + 1);
    assert forall|j: int| 0 <= j < b.len() implies !starts_with(#[trigger] b[j], heading_prefix()) by {
        assert(b[j][0] == b[j].subrange(0, 2)[0]);
        if starts_with(b[j], heading_prefix()) {
            assert(b[j][0] == b[j].subrange(0, 3)[0]);
        }
    }
    lemma_find_heading_miss(b, 0);
    lemma_find_heading_concat(b, lt, 0);
    lemma_find_heading_concat(m, b + lt, k + 1);
    lemma_find_heading_shift(cl, rest2, k + 1);
    lemma_find_heading_shift(a, rest1, cl.len() + (k + 1));
    lemma_find_heading_concat(lt, Seq::<Seq<char>>::empty(), 0);
    let ft = find_heading(lt, 0);
    assert(find_heading(w, pos + 1) == a.len() + cl.len() + m.len() + b.len() + ft);
    let sect = w.subrange(pos + 1, a.len() + cl.len() + m.len() + b.len() + ft);
    assert(sect =~= m.subrange(k + 1, m.len() as int) + (b + lt.subrange(0, ft)));
    lemma_history_concat(b, lt.subrange(0, ft));
    lemma_history_concat(m.subrange(k + 1, m.len() as int), b + lt.subrange(0, ft));
    assert(history_items(m.subrange(k + 1, m.len() as int)) + (history_items(b) + history_items(
        lt.subrange(0, ft),
    )) =~= history_items(m.subrange(k + 1, m.len() as int)) + history_items(b) + history_items(
        lt.subrange(0, ft),
    ));
}

/// The lines of a rewrite into an existing History section, piece by
/// piece: the head's contents, the block's lines, the contents of the
/// kept middle up to the insertion point, the rendered entries, and the
/// lines of the rest of the old text.
proof fn lemma_kept_new_lines(o: Seq<char>, content: Seq<char>)
    requires
        crate::warmstart::rewrite_accepted(o),
        !history_glued(o),
        history_at(raw_lines(o)) < raw_lines(o).len(),
    ensures
        ({
            let ls = raw_lines(o);
            let h = history_at(ls);
            let ins = insert_at(ls, h);
            let s = region_start(ls);
            let e = region_end(ls);
            let block = block_of(ls.subrange(s, e));
            let lt = lines_of(o.subrange(offset(ls, ins), o.len() as int));
            lines_of(rewritten(o, content)) == contents(ls, 0, s) + (lines_of(normalized(content))
                + (contents(ls, e, ins) + (lines_of(block) + lt)))
        }),
{
    let ls = raw_lines(o);
    lemma_kept_bounds(o);
    lemma_region_bounds(o);
    lemma_tail(o, content);
    let s = region_start(ls);
    let e = region_end(ls);
    let h = history_at(ls);
    let ins = insert_at(ls, h);
    let head = head_of(o);
    let c = normalized(content);
    let mid = o.subrange(offset(ls, e), offset(ls, ins));
    let rl = ls.subrange(s, e);
    let block = block_of(rl);
    let t_text = o.subrange(offset(ls, ins), o.len() as int);
    assert(tail_of(o) =~= mid + (block + t_text));
    let hl = ls.subrange(0, s);
    assert forall|i: int| 0 <= i < hl.len() implies (#[trigger] hl[i]).len() > 0 && hl[i].last() == '\n' by {
        assert(hl[i] == ls[i]);
    }
    assert forall|i: int, j: int| 0 <= i < hl.len() && 0 <= j < hl[i].len() - 1 implies #[trigger] hl[i][j] != '\n' by {
        assert(hl[i] == ls[i]);
        assert(ls[i][j] != '\n');
    }
    lemma_lines_of_concat(hl);
    lemma_offsets(ls, 0, s);
    assert(head == concat(hl));
    let ml = ls.subrange(e, ins);
    assert forall|i: int| 0 <= i < ml.len() implies (#[trigger] ml[i]).len() > 0 && ml[i].last() == '\n' by {
        assert(ml[i] == ls[e + i]);
    }
    assert forall|i: int, j: int| 0 <= i < ml.len() && 0 <= j < ml[i].len() - 1 implies #[trigger] ml[i][j] != '\n' by {
        assert(ml[i] == ls[e + i]);
        assert(ls[e + i][j] != '\n');
    }
    lemma_lines_of_concat(ml);
    lemma_offsets(ls, e, ins);
    assert(mid == concat(ml));
    assert forall|i: int, j: int| 0 <= i < rl.len() && 0 <= j < rl[i].len() - 1 implies #[trigger] rl[i][j] != '\n' by {
        assert(rl[i] == ls[s + i]);
        assert(ls[s + i][j] != '\n');
    }
    lemma_block_read(rl);
    let a = lines_of(head);
    let cl = lines_of(c);
    let m = lines_of(mid);
    let b = lines_of(block);
    let lt = lines_of(t_text);
    if block.len() > 0 {
        lemma_lines_concat(block, t_text);
    } else {
        assert(block + t_text =~= t_text);
        assert(b =~= Seq::<Seq<char>>::empty());
        assert(b + lt =~= lt);
    }
    lemma_lines_concat(mid, block + t_text);
    lemma_lines_concat(c, tail_of(o));
    if head.len() > 0 {
        lemma_lines_concat(head, c + tail_of(o));
    } else {
        assert(head + (c + tail_of(o)) =~= c + tail_of(o));
        assert(a =~= Seq::<Seq<char>>::empty());
        assert(a + (cl + (m + (b + lt))) =~= cl + (m + (b + lt)));
    }
    assert(a =~= contents(ls, 0, s));
    assert(m =~= contents(ls, e, ins));
}

/// What `read_signoff` reads as the History after a rewrite into an
/// existing section: the entries up to the insertion point, then the
/// superseded region's.
proof fn lemma_kept_new(o: Seq<char>, content: Seq<char>)
    requires
        crate::warmstart::rewrite_accepted(o),
        !history_glued(o),
        history_at(raw_lines(o)) < raw_lines(o).len(),
        !lines_of(normalized(content)).contains(crate::signoff_read::history_heading()),
    ensures
        ({
            let ls = raw_lines(o);
            let h = history_at(ls);
            crate::signoff_read::history_of_file(lines_of(rewritten(o, content))) == history_items(
                contents(ls, h + 1, insert_at(ls, h)),
            ) + region_entries(ls.subrange(region_start(ls), region_end(ls)))
        }),
{
    let ls = raw_lines(o);
    lemma_kept_bounds(o);
    lemma_region_bounds(o);
    lemma_tail_blank(o);
    lemma_kept_new_lines(o, content);
    let hist = crate::signoff_read::history_heading();
    let s = region_start(ls);
    let e = region_end(ls);
    let h = history_at(ls);
    let ins = insert_at(ls, h);
    let rl = ls.subrange(s, e);
    assert forall|i: int, j: int| 0 <= i < rl.len() && 0 <= j < rl[i].len() - 1 implies #[trigger] rl[i][j] != '\n' by {
        assert(rl[i] == ls[s + i]);
        assert(ls[s + i][j] != '\n');
    }
    lemma_block_read(rl);
    let a = contents(ls, 0, s);
    let cl = lines_of(normalized(content));
    let m = contents(ls, e, ins);
    let b = lines_of(block_of(rl));
    let lt = lines_of(o.subrange(offset(ls, ins), o.len() as int));
    assert forall|j: int| 0 <= j < a.len() implies a[j] != hist by {
        assert(a[j] == content_of(ls[j]));
    }
    assert forall|j: int| 0 <= j < cl.len() implies cl[j] != hist by {
        if cl[j] == hist {
            assert(cl.contains(hist));
        }
    }
    assert forall|j: int| 0 <= j < h - e implies m[j] != hist by {
        assert(m[j] == content_of(ls[e + j]));
    }
    assert(m[h - e] == content_of(ls[h]));
    assert forall|j: int| h - e < j < m.len() implies !starts_with(#[trigger] m[j], heading_prefix()) by {
        assert(m[j] == content_of(ls[e + j]));
    }
    lemma_read_history_pieces(a, cl, m, b, lt, h - e);
    assert(m.subrange(h - e + 1, m.len() as int) =~= contents(ls, h + 1, ins));
    assert(history_items(contents(ls, h + 1, ins)) + region_entries(rl) + Seq::<Seq<char>>::empty()
        =~= history_items(contents(ls, h + 1, ins)) + region_entries(rl));
}

/// The History `read_signoff` reads from lines where a section is
/// created: none of `a`, `cl`, `mx` is the History heading, then the
/// heading, then lines that all start with `- `.
proof fn lemma_read_created(
    a: Seq<Seq<char>>,
    cl: Seq<Seq<char>>,
    mx: Seq<Seq<char>>,
    b: Seq<Seq<char>>,
)
    requires
        forall|j: int| 0 <= j < a.len() ==> a[j] != crate::signoff_read::history_heading(),
        forall|j: int| 0 <= j < cl.len() ==> cl[j] != crate::signoff_read::history_heading(),
        forall|j: int| 0 <= j < mx.len() ==> mx[j] != crate::signoff_read::history_heading(),
        forall|j: int| 0 <= j < b.len() ==> starts_with(#[trigger] b[j], seq!['-', ' ']),
    ensures
        crate::signoff_read::history_of_file(
            a + (cl + (mx + (seq![crate::signoff_read::history_heading()] + b))),
        ) == history_items(b),
{
    let hist = crate::signoff_read::history_heading();
    let m = mx + seq![hist];
    assert forall|j: int| 0 <= j < mx.len() implies m[j] != hist by {
        assert(m[j] == mx[j]);
    }
    assert(m[mx.len() as int] == hist);
    assert(mx + (seq![hist] + b) =~= m + (b + Seq::<Seq<char>>::empty()));
    lemma_read_history_pieces(a, cl, m, b, Seq::<Seq<char>>::empty(), mx.len() as int);
    assert(m.subrange(mx.len() as int + 1, m.len() as int) =~= Seq::<Seq<char>>::empty());
    let e0 = Seq::<Seq<char>>::empty();
    assert(find_heading(e0, 0) == 0);
    assert(e0.subrange(0, 0) =~= e0);
    assert(history_items(e0) =~= e0);
    assert(e0 + history_items(b) + e0 =~= history_items(b));
}

/// A file without a History section reads back no History.
proof fn lemma_created_old(o: Seq<char>)
    requires
        history_at(raw_lines(o)) >= raw_lines(o).len(),
    ensures
        crate::signoff_read::history_of_file(lines_of(o)) =~= Seq::<Seq<char>>::empty(),
{
    let ls = raw_lines(o);
    let hist = crate::signoff_read::history_heading();
    lemma_raw_lines(o);
    lemma_raw_line_ends(o);
    lemma_find_content_bound(ls, hist, 0);
    lemma_lines_of_raw(ls);
    let lo = lines_of(concat(ls));
    assert(lines_of(o) == lo);
    assert forall|j: int| 0 <= j < lo.len() implies lo[j] != hist by {
        lemma_before_content(ls, hist, 0, j);
        if lo[j] == hist && lo[j] != content_of(ls[j]) {
            assert(ls[j] == hist);
            assert(ls[j].last() == 'y');
            assert(content_of(ls[j]) == ls[j]);
        }
    }
    lemma_find_line_miss(lo, hist, 0);
}

/// The text between the block and a created History heading: the rest of
/// the old text, with a newline added when it does not end with one.
pub open spec fn gap_text(o: Seq<char>) -> Seq<char> {
    let ls = raw_lines(o);
    let x = o.subrange(offset(ls, region_end(ls)), o.len() as int);
    if o.len() > 0 && o.last() != '\n' {
        x + seq!['\n']
    } else {
        x
    }
}

/// The lines between the block and a created History heading: none is
/// the heading.
proof fn lemma_gap_lines(o: Seq<char>)
    requires
        crate::warmstart::rewrite_accepted(o),
        history_at(raw_lines(o)) >= raw_lines(o).len(),
    ensures
        gap_text(o).len() == 0 || gap_text(o).last() == '\n',
        forall|j: int|
            0 <= j < lines_of(gap_text(o)).len() ==> lines_of(gap_text(o))[j]
                != crate::signoff_read::history_heading(),
{
    let ls = raw_lines(o);
    let n = ls.len() as int;
    let hist = crate::signoff_read::history_heading();
    lemma_region_bounds(o);
    lemma_raw_lines(o);
    lemma_raw_line_ends(o);
    lemma_find_content_bound(ls, hist, 0);
    let e = region_end(ls);
    let x = o.subrange(offset(ls, e), o.len() as int);
    let g = gap_text(o);
    let cond = o.len() > 0 && o.last() != '\n';
    if e == n {
        assert(x =~= Seq::<char>::empty());
        if cond {
            assert(g =~= seq!['\n']);
            lemma_lines_of_line(g);
            assert(content_of(g) =~= Seq::<char>::empty());
        } else {
            assert(g =~= Seq::<char>::empty());
            assert(lines_of(g) =~= Seq::<Seq<char>>::empty());
        }
    } else {
        lemma_offsets(ls, e, n);
        let q = ls.subrange(e, n);
        assert(x == concat(q));
        assert(concat(ls) == concat(ls.drop_last()) + ls.last());
        let l = q.last();
        assert(l == ls[n - 1]);
        assert(o.last() == l.last());
        // The raw lines of the gap, the last one closed by the added newline.
        let q2 = if cond { q.drop_last().push(l + seq!['\n']) } else { q };
        assert(concat(q) == concat(q.drop_last()) + l);
        if cond {
            assert(q2.drop_last() =~= q.drop_last());
            assert(concat(q2) == concat(q2.drop_last()) + q2.last());
            assert(concat(q2) =~= x + seq!['\n']);
        }
        assert(concat(q2) == g);
        assert forall|i: int| 0 <= i < q2.len() implies (#[trigger] q2[i]).len() > 0 && q2[i].last() == '\n' by {
            if i < q.len() - 1 {
                assert(q2[i] == ls[e + i]);
            } else {
                assert(q.len() - 1 == i);
            }
        }
        assert forall|i: int, j: int| 0 <= i < q2.len() && 0 <= j < q2[i].len() - 1 implies #[trigger] q2[i][j] != '\n' by {
            if i < q.len() - 1 {
                assert(q2[i] == ls[e + i]);
                assert(ls[e + i][j] != '\n');
            } else if cond {
                assert(q2[i] == l + seq!['\n']);
                assert(q2[i][j] == l[j]);
                if j < l.len() - 1 {
                    assert(ls[n - 1][j] != '\n');
                } else {
                    assert(l[j] == l.last());
                }
            } else {
                assert(q2[i] == ls[n - 1]);
                assert(ls[n - 1][j] != '\n');
            }
        }
        lemma_lines_of_concat(q2);
        assert forall|j: int| 0 <= j < lines_of(g).len() implies lines_of(g)[j] != hist by {
            assert(lines_of(g)[j] == content_of(q2[j]));
            lemma_before_content(ls, hist, 0, e + j);
            if cond && j == q.len() - 1 {
                assert(q2[j] == l + seq!['\n']);
                assert((l + seq!['\n']).drop_last() =~= l);
                assert(content_of(q2[j]) == content_of(l));
            } else {
                assert(q2[j] == ls[e + j]);
            }
        }
    }
}

/// The lines of a rewrite that creates the History section: the head's
/// contents, the block's lines, the gap's lines, the created heading, and
/// the rendered entries.
proof fn lemma_created_new_lines(o: Seq<char>, content: Seq<char>)
    requires
        crate::warmstart::rewrite_accepted(o),
        history_at(raw_lines(o)) >= raw_lines(o).len(),
    ensures
        ({
            let ls = raw_lines(o);
            let block = block_of(ls.subrange(region_start(ls), region_end(ls)));
            lines_of(rewritten(o, content)) == contents(ls, 0, region_start(ls)) + (lines_of(
                normalized(content),
            ) + (lines_of(gap_text(o)) + (seq![crate::signoff_read::history_heading()]
                + lines_of(block))))
        }),
{
    let ls = raw_lines(o);
    lemma_region_bounds(o);
    lemma_raw_lines(o);
    lemma_raw_line_ends(o);
    lemma_tail(o, content);
    lemma_gap_lines(o);
    let s = region_start(ls);
    let e = region_end(ls);
    let head = head_of(o);
    let c = normalized(content);
    let rl = ls.subrange(s, e);
    let block = block_of(rl);
    let g = gap_text(o);
    let hh = seq!['#', '#', ' ', 'H', 'i', 's', 't', 'o', 'r', 'y', '\n'];
    assert(tail_of(o) =~= g + (hh + block));
    let hl = ls.subrange(0, s);
    assert forall|i: int| 0 <= i < hl.len() implies (#[trigger] hl[i]).len() > 0 && hl[i].last() == '\n' by {
        assert(hl[i] == ls[i]);
    }
    assert forall|i: int, j: int| 0 <= i < hl.len() && 0 <= j < hl[i].len() - 1 implies #[trigger] hl[i][j] != '\n' by {
        assert(hl[i] == ls[i]);
        assert(ls[i][j] != '\n');
    }
    lemma_lines_of_concat(hl);
    lemma_offsets(ls, 0, s);
    assert(head == concat(hl));
    assert forall|i: int, j: int| 0 <= i < rl.len() && 0 <= j < rl[i].len() - 1 implies #[trigger] rl[i][j] != '\n' by {
        assert(rl[i] == ls[s + i]);
        assert(ls[s + i][j] != '\n');
    }
    lemma_block_read(rl);
    assert forall|j: int| 0 <= j < hh.len() - 1 implies hh[j] != '\n' by {}
    lemma_lines_of_line(hh);
    assert(content_of(hh) =~= crate::signoff_read::history_heading());
    lemma_lines_concat(hh, block);
    let a = lines_of(head);
    let cl = lines_of(c);
    let mx = lines_of(g);
    let b = lines_of(block);
    let hl2 = seq![crate::signoff_read::history_heading()];
    if g.len() > 0 {
        lemma_lines_concat(g, hh + block);
    } else {
        assert(g + (hh + block) =~= hh + block);
        assert(mx =~= Seq::<Seq<char>>::empty());
        assert(mx + (hl2 + b) =~= hl2 + b);
    }
    lemma_lines_concat(c, tail_of(o));
    if head.len() > 0 {
        lemma_lines_concat(head, c + tail_of(o));
    } else {
        assert(head + (c + tail_of(o)) =~= c + tail_of(o));
        assert(a =~= Seq::<Seq<char>>::empty());
        assert(a + (cl + (mx + (hl2 + b))) =~= cl + (mx + (hl2 + b)));
    }
    assert(a =~= contents(ls, 0, s));
}

/// What `read_signoff` reads as the History after `write_warm_start`
/// rewrote `signoff.md`: the History it read before, followed by the
/// superseded region's non-blank lines, each trimmed (newest last; the
/// section is created at the end of a file that had none). This holds
/// whenever the new block has no `## History` line of its own, unless the
/// entries would go right after a last line without a newline, which they
/// then join.
pub proof fn lemma_warm_start_history(o: Seq<char>, content: Seq<char>)
    requires
        crate::warmstart::rewrite_accepted(o),
        !history_glued(o),
        !lines_of(normalized(content)).contains(crate::signoff_read::history_heading()),
    ensures
        crate::signoff_read::history_of_file(lines_of(rewritten(o, content)))
            == crate::signoff_read::history_of_file(lines_of(o)) + region_entries(
            raw_lines(o).subrange(region_start(raw_lines(o)), region_end(raw_lines(o))),
        ),
{
    let ls = raw_lines(o);
    let hist = crate::signoff_read::history_heading();
    if history_at(ls) < ls.len() {
        lemma_kept_old(o);
        lemma_kept_new(o, content);
    } else {
        lemma_created_old(o);
        lemma_created_new_lines(o, content);
        lemma_gap_lines(o);
        lemma_region_bounds(o);
        lemma_raw_lines(o);
        lemma_raw_line_ends(o);
        lemma_find_content_bound(ls, hist, 0);
        let s = region_start(ls);
        let e = region_end(ls);
        let rl = ls.subrange(s, e);
        assert forall|i: int, j: int| 0 <= i < rl.len() && 0 <= j < rl[i].len() - 1 implies #[trigger] rl[i][j] != '\n' by {
            assert(rl[i] == ls[s + i]);
            assert(ls[s + i][j] != '\n');
        }
        lemma_block_read(rl);
        let a = contents(ls, 0, s);
        let cl = lines_of(normalized(content));
        assert forall|j: int| 0 <= j < a.len() implies a[j] != hist by {
            assert(a[j] == content_of(ls[j]));
            lemma_before_content(ls, hist, 0, j);
        }
        assert forall|j: int| 0 <= j < cl.len() implies cl[j] != hist by {
            if cl[j] == hist {
                assert(cl.contains(hist));
            }
        }
        lemma_read_created(a, cl, lines_of(gap_text(o)), lines_of(block_of(rl)));
        assert(Seq::<Seq<char>>::empty() + region_entries(rl) =~= region_entries(rl));
    }
}

} // verus!
