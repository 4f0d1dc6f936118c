//! `write_warm_start`'s region surgery on `signoff.md`: the warm-start
//! region (its heading, with the `Last updated:` line before it, up to the
//! next section) is replaced by the caller's block, and the superseded
//! region moves into the `## History` section. Every character outside the
//! region is kept as it was.
use vstd::prelude::*;

use crate::signoff_read::{heading_prefix, history_heading, last_updated, warm_heading};
use crate::strings::{find, starts_with, trim};
use crate::text::{chars_of, string_of};
use crate::args::{
    args_view, get_arg, kind_of, lookup, unknown_fields, unknown_keys, unknown_list_refusal,
    unknown_list_text, value_kind, ArgValue,
};
use crate::claims::{token_valid, ClaimRead};
use crate::signoff::str_arg;

verus! {

/// The lines of `t`, each keeping its `\n` (the last may lack one):
/// concatenated they give `t` back.
pub open spec fn raw_lines(t: Seq<char>) -> Seq<Seq<char>>
    decreases t.len(),
{
    if t.len() == 0 {
        Seq::empty()
    } else {
        let k = find(t, '\n');
        if k < 0 || k >= t.len() {
            seq![t]
        } else {
            seq![t.subrange(0, k + 1)] + raw_lines(t.subrange(k + 1, t.len() as int))
        }
    }
}

/// The lines `ls`, concatenated.
pub open spec fn concat(ls: Seq<Seq<char>>) -> Seq<char>
    decreases ls.len(),
{
    if ls.len() == 0 {
        Seq::empty()
    } else {
        concat(ls.drop_last()) + ls.last()
    }
}

/// A raw line without its `\n` and a `\r` before it.
pub open spec fn content_of(l: Seq<char>) -> Seq<char> {
    let s = if l.len() > 0 && l.last() == '\n' { l.drop_last() } else { l };
    if s.len() > 0 && s.last() == '\r' {
        s.drop_last()
    } else {
        s
    }
}

/// Whether a raw line is blank.
pub open spec fn blank(l: Seq<char>) -> bool {
    trim(content_of(l)).len() == 0
}

/// The first line at or after `i` whose content is `target`, or the count.
pub open spec fn find_content(ls: Seq<Seq<char>>, target: Seq<char>, i: int) -> int
    decreases ls.len() - i,
{
    if i < 0 || i >= ls.len() {
        ls.len() as int
    } else if content_of(ls[i]) == target {
        i
    } else {
        find_content(ls, target, i + 1)
    }
}

/// The first line at or after `i` whose content starts a section, or the
/// count.
pub open spec fn find_section(ls: Seq<Seq<char>>, i: int) -> int
    decreases ls.len() - i,
{
    if i < 0 || i >= ls.len() {
        ls.len() as int
    } else if starts_with(content_of(ls[i]), heading_prefix()) {
        i
    } else {
        find_section(ls, i + 1)
    }
}

/// The last non-blank line before `h`, or `-1`.
pub open spec fn last_filled(ls: Seq<Seq<char>>, h: int) -> int
    decreases h,
{
    if h <= 0 || h > ls.len() {
        -1
    } else if !blank(ls[h - 1]) {
        h - 1
    } else {
        last_filled(ls, h - 1)
    }
}

/// The warm-start region as a line range `[start, end)`: from the heading
/// (or the `Last updated:` line that is the nearest non-blank line before
/// it) to the next section; `None` without a heading.
pub open spec fn region_of(ls: Seq<Seq<char>>) -> Option<(int, int)> {
    let h = find_content(ls, warm_heading(), 0);
    if h >= ls.len() {
        None
    } else {
        let end = find_section(ls, h + 1);
        let j = last_filled(ls, h);
        let start = if j >= 0 && starts_with(content_of(ls[j]), last_updated()) {
            j
        } else {
            h
        };
        Some((start, end))
    }
}

/// The `## History` heading line, or the count when there is none.
pub open spec fn history_at(ls: Seq<Seq<char>>) -> int {
    find_content(ls, history_heading(), 0)
}

/// Where the superseded block goes in the History section at `h`: after
/// the section's last non-blank line.
pub open spec fn insert_at(ls: Seq<Seq<char>>, h: int) -> int {
    let end = find_section(ls, h + 1);
    let j = last_filled(ls, end);
    if j > h {
        j + 1
    } else {
        h + 1
    }
}

/// The superseded region as History entries: one `- ` line per non-blank
/// line, trimmed.
pub open spec fn block_of(region: Seq<Seq<char>>) -> Seq<char>
    decreases region.len(),
{
    if region.len() == 0 {
        Seq::empty()
    } else {
        let prev = block_of(region.drop_last());
        let l = region.last();
        if blank(l) {
            prev
        } else {
            prev + seq!['-', ' '] + trim(content_of(l)) + seq!['\n']
        }
    }
}

/// The caller's block, ending with a newline.
pub open spec fn normalized(c: Seq<char>) -> Seq<char> {
    if c.len() > 0 && c.last() == '\n' {
        c
    } else {
        c.push('\n')
    }
}

/// The History section a rewrite creates at the end of a file without one
/// (after a newline when the file does not end with one).
pub open spec fn new_history(o: Seq<char>) -> Seq<char> {
    let h = seq!['#', '#', ' ', 'H', 'i', 's', 't', 'o', 'r', 'y', '\n'];
    if o.len() > 0 && o.last() != '\n' {
        seq!['\n'] + h
    } else {
        h
    }
}

/// Whether `write_warm_start` rewrites `o` at all: its region is found,
/// and its History section, if any, is not before the region's end.
pub open spec fn rewrite_accepted(o: Seq<char>) -> bool {
    let ls = raw_lines(o);
    match region_of(ls) {
        None => false,
        Some((s, e)) => !(history_at(ls) < ls.len() && history_at(ls) < e),
    }
}

/// The text a successful rewrite of `o` with the block `content` composes:
/// the original up to the region, the block (ending with a newline), the
/// original from the region's end up to where the superseded region goes,
/// the region as History entries, and the rest of the original; a file
/// without a History section gets one at its end. (A file without a region
/// is not rewritten: it stays `o`.)
pub open spec fn rewritten(o: Seq<char>, content: Seq<char>) -> Seq<char> {
    let ls = raw_lines(o);
    match region_of(ls) {
        None => o,
        Some((s, e)) => {
            let h = history_at(ls);
            let block = block_of(ls.subrange(s, e));
            let head = o.subrange(0, offset(ls, s));
            if h < ls.len() {
                let ins = offset(ls, insert_at(ls, h));
                head + normalized(content) + o.subrange(offset(ls, e), ins) + block + o.subrange(
                    ins,
                    o.len() as int,
                )
            } else {
                head + normalized(content) + o.subrange(offset(ls, e), o.len() as int)
                    + new_history(o) + block
            }
        },
    }
}

/// The number of characters of the first `k` lines.
pub open spec fn offset(ls: Seq<Seq<char>>, k: int) -> int {
    concat(ls.subrange(0, k)).len() as int
}

/// Concatenating the raw lines gives the text back.
pub proof fn lemma_raw_lines(t: Seq<char>)
    ensures
        concat(raw_lines(t)) == t,
        forall|i: int| 0 <= i < raw_lines(t).len() ==> (#[trigger] raw_lines(t)[i]).len() > 0,
    decreases t.len(),
{
    if t.len() > 0 {
        let k = find(t, '\n');
        crate::strings::lemma_find(t, '\n');
        if k < t.len() {
            let rest = t.subrange(k + 1, t.len() as int);
            lemma_raw_lines(rest);
            assert(raw_lines(t) == seq![t.subrange(0, k + 1)] + raw_lines(rest));
            lemma_concat_cons(t.subrange(0, k + 1), raw_lines(rest));
            assert(t.subrange(0, k + 1) + rest =~= t);
            assert forall|i: int| 0 <= i < raw_lines(t).len() implies (#[trigger] raw_lines(t)[i]).len()
                > 0 by {
                if i > 0 {
                    assert(raw_lines(t)[i] == raw_lines(rest)[i - 1]);
                }
            }
        } else {
            assert(raw_lines(t) == seq![t]);
            assert(seq![t].drop_last() =~= Seq::<Seq<char>>::empty());
            assert(concat(seq![t]) == concat(seq![t].drop_last()) + t);
            assert(Seq::<char>::empty() + t =~= t);
        }
    }
}

/// `concat` of a line followed by more lines.
pub proof fn lemma_concat_cons(a: Seq<char>, ls: Seq<Seq<char>>)
    ensures
        concat(seq![a] + ls) == a + concat(ls),
    decreases ls.len(),
{
    if ls.len() == 0 {
        assert(seq![a] + ls =~= seq![a]);
        assert(seq![a].drop_last() =~= Seq::<Seq<char>>::empty());
        assert(concat(seq![a]) == concat(seq![a].drop_last()) + seq![a].last());
        assert(Seq::<char>::empty() + a =~= a);
        assert(a + Seq::<char>::empty() =~= a);
    } else {
        let s = seq![a] + ls;
        assert(s.drop_last() =~= seq![a] + ls.drop_last());
        assert(s.last() == ls.last());
        assert(concat(s) == concat(s.drop_last()) + s.last());
        lemma_concat_cons(a, ls.drop_last());
        assert(concat(ls) == concat(ls.drop_last()) + ls.last());
        assert(a + concat(ls.drop_last()) + ls.last() =~= a + (concat(ls.drop_last()) + ls.last()));
    }
}

/// `concat` distributes over splitting the lines.
pub proof fn lemma_concat_split(ls: Seq<Seq<char>>, k: int)
    requires
        0 <= k <= ls.len(),
    ensures
        concat(ls) == concat(ls.subrange(0, k)) + concat(ls.subrange(k, ls.len() as int)),
    decreases ls.len() - k,
{
    if k == ls.len() {
        assert(ls.subrange(0, k) =~= ls);
        assert(ls.subrange(k, ls.len() as int) =~= Seq::<Seq<char>>::empty());
        assert(concat(ls) + Seq::<char>::empty() =~= concat(ls));
    } else {
        lemma_concat_split(ls, k + 1);
        let tail = ls.subrange(k, ls.len() as int);
        assert(tail =~= seq![ls[k]] + ls.subrange(k + 1, ls.len() as int));
        lemma_concat_cons(ls[k], ls.subrange(k + 1, ls.len() as int));
        assert(ls.subrange(0, k + 1).drop_last() =~= ls.subrange(0, k));
        assert(concat(ls.subrange(0, k + 1)) == concat(ls.subrange(0, k)) + ls[k]);
        assert(concat(ls.subrange(0, k)) + ls[k] + concat(ls.subrange(k + 1, ls.len() as int))
            =~= concat(ls.subrange(0, k)) + (ls[k] + concat(ls.subrange(k + 1, ls.len() as int))));
    }
}

/// The views of character lines.
pub open spec fn lines_view(v: Seq<Vec<char>>) -> Seq<Seq<char>> {
    v.map_values(|l: Vec<char>| l@)
}

/// The characters of lines `a..b` sit in the text between the offsets of
/// `a` and `b`.
pub proof fn lemma_offsets(ls: Seq<Seq<char>>, a: int, b: int)
    requires
        0 <= a <= b <= ls.len(),
    ensures
        0 <= offset(ls, a) <= offset(ls, b) <= concat(ls).len(),
        concat(ls).subrange(offset(ls, a), offset(ls, b)) == concat(ls.subrange(a, b)),
{
    lemma_concat_split(ls, b);
    lemma_concat_split(ls.subrange(0, b), a);
    assert(ls.subrange(0, b).subrange(0, a) =~= ls.subrange(0, a));
    assert(ls.subrange(0, b).subrange(a, b) =~= ls.subrange(a, b));
    let pa = concat(ls.subrange(0, a));
    let mid = concat(ls.subrange(a, b));
    let rest = concat(ls.subrange(b, ls.len() as int));
    assert(concat(ls) == pa + mid + rest);
    assert((pa + mid + rest).subrange(pa.len() as int, (pa.len() + mid.len()) as int) =~= mid);
}

/// The raw lines of `t` (see [`raw_lines`]).
pub fn raw_lines_exec(t: &Vec<char>) -> (r: Vec<Vec<char>>)
    ensures
        lines_view(r@) == raw_lines(t@),
{
    let n = t.len();
    let mut out: Vec<Vec<char>> = Vec::new();
    let mut pos: usize = 0;
    assert(t@.subrange(0, n as int) =~= t@);
    while pos < n
        invariant
            n == t@.len(),
            pos <= n,
            lines_view(out@) + raw_lines(t@.subrange(pos as int, n as int)) == raw_lines(t@),
        decreases n - pos,
    {
        let ghost s = t@.subrange(pos as int, n as int);
        let k = crate::strings::find_at(t, pos, n, '\n');
        proof {
            crate::strings::lemma_find(s, '\n');
        }
        let next = if pos + k < n {
            pos + k + 1
        } else {
            n
        };
        let piece = crate::strings::copy_range(t, pos, next);
        proof {
            if pos + k < n {
                assert(s.subrange(0, k + 1) =~= piece@);
                assert(s.subrange(k + 1, s.len() as int) =~= t@.subrange(next as int, n as int));
            } else {
                assert(s =~= piece@);
                assert(t@.subrange(next as int, n as int) =~= Seq::<char>::empty());
            }
            assert(raw_lines(s) == seq![piece@] + raw_lines(t@.subrange(next as int, n as int)));
        }
        let ghost before = out@;
        out.push(piece);
        proof {
            assert(lines_view(out@) =~= lines_view(before).push(out@.last()@));
            assert(lines_view(out@) + raw_lines(t@.subrange(next as int, n as int)) =~= lines_view(
                before,
            ) + (seq![out@.last()@] + raw_lines(t@.subrange(next as int, n as int))));
        }
        pos = next;
    }
    proof {
        assert(t@.subrange(n as int, n as int) =~= Seq::<char>::empty());
        assert(lines_view(out@) + Seq::<Seq<char>>::empty() =~= lines_view(out@));
    }
    out
}

/// The end of a raw line's content (see [`content_of`]).
fn content_end(l: &Vec<char>) -> (r: usize)
    ensures
        r <= l@.len(),
        l@.subrange(0, r as int) == content_of(l@),
{
    let mut e = l.len();
    if e > 0 && l[e - 1] == '\n' {
        e = e - 1;
    }
    if e > 0 && l[e - 1] == '\r' {
        e = e - 1;
    }
    proof {
        let s = if l@.len() > 0 && l@.last() == '\n' { l@.drop_last() } else { l@ };
        assert(s =~= l@.subrange(0, if l@.len() > 0 && l@.last() == '\n' { l@.len() - 1 } else { l@.len() as int }));
    }
    assert(l@.subrange(0, e as int) =~= content_of(l@));
    e
}

/// Whether a raw line's content is `target`.
fn content_is(l: &Vec<char>, target: &Vec<char>) -> (r: bool)
    ensures
        r == (content_of(l@) == target@),
{
    let e = content_end(l);
    if e != target.len() {
        return false;
    }
    let r = crate::strings::starts_with_at(l, 0, e, target);
    assert(l@.subrange(0, e as int).subrange(0, target@.len() as int) =~= l@.subrange(0, e as int));
    r
}

/// Whether a raw line's content starts with `p`.
fn content_starts(l: &Vec<char>, p: &Vec<char>) -> (r: bool)
    ensures
        r == starts_with(content_of(l@), p@),
{
    let e = content_end(l);
    crate::strings::starts_with_at(l, 0, e, p)
}

/// Whether a raw line is blank.
fn is_blank(l: &Vec<char>) -> (r: bool)
    ensures
        r == blank(l@),
{
    let e = content_end(l);
    let (a, b) = crate::strings::trim_bounds(l, 0, e);
    a == b
}

/// The first line at or after `i` whose content is `target`.
fn find_content_exec(ls: &Vec<Vec<char>>, target: &Vec<char>, i: usize) -> (r: usize)
    requires
        i <= ls@.len(),
    ensures
        r as int == find_content(lines_view(ls@), target@, i as int),
        i <= r <= ls@.len(),
{
    let mut j = i;
    while j < ls.len()
        invariant
            i <= j <= ls@.len(),
            find_content(lines_view(ls@), target@, i as int) == find_content(
                lines_view(ls@),
                target@,
                j as int,
            ),
        decreases ls.len() - j,
    {
        if content_is(&ls[j], target) {
            return j;
        }
        j += 1;
    }
    j
}

/// The first section line at or after `i`.
fn find_section_exec(ls: &Vec<Vec<char>>, i: usize) -> (r: usize)
    requires
        i <= ls@.len(),
    ensures
        r as int == find_section(lines_view(ls@), i as int),
        i <= r <= ls@.len(),
{
    let pre = vec!['#', '#', ' '];
    let mut j = i;
    while j < ls.len()
        invariant
            i <= j <= ls@.len(),
            pre@ == heading_prefix(),
            find_section(lines_view(ls@), i as int) == find_section(lines_view(ls@), j as int),
        decreases ls.len() - j,
    {
        if content_starts(&ls[j], &pre) {
            return j;
        }
        j += 1;
    }
    j
}

/// The last non-blank line before `h`.
fn last_filled_exec(ls: &Vec<Vec<char>>, h: usize) -> (r: Option<usize>)
    requires
        h <= ls@.len(),
    ensures
        match r {
            Some(j) => j < h && last_filled(lines_view(ls@), h as int) == j,
            None => last_filled(lines_view(ls@), h as int) == -1,
        },
{
    let mut j = h;
    while j > 0
        invariant
            j <= h <= ls@.len(),
            last_filled(lines_view(ls@), h as int) == last_filled(lines_view(ls@), j as int),
        decreases j,
    {
        if !is_blank(&ls[j - 1]) {
            return Some(j - 1);
        }
        j -= 1;
    }
    None
}

/// The warm-start region of the lines (see [`region_of`]).
pub fn locate_region(ls: &Vec<Vec<char>>) -> (r: Option<(usize, usize)>)
    ensures
        match r {
            Some((s, e)) => region_of(lines_view(ls@)) == Some((s as int, e as int)) && s <= e
                <= ls@.len(),
            None => region_of(lines_view(ls@)) is None,
        },
{
    let wh = vec![
        '#', '#', ' ', 'I', 'f', ' ', 'y', 'o', 'u', ' ', 'r', 'e', 'a', 'd', ' ', 'n', 'o', 't',
        'h', 'i', 'n', 'g', ' ', 'e', 'l', 's', 'e',
    ];
    let lu = vec!['L', 'a', 's', 't', ' ', 'u', 'p', 'd', 'a', 't', 'e', 'd', ':'];
    let h = find_content_exec(ls, &wh, 0);
    if h >= ls.len() {
        return None;
    }
    let end = find_section_exec(ls, h + 1);
    let start = match last_filled_exec(ls, h) {
        Some(j) => if content_starts(&ls[j], &lu) {
            j
        } else {
            h
        },
        None => h,
    };
    Some((start, end))
}

/// The superseded region rendered as History entries (see [`block_of`]).
fn render_history_block(ls: &Vec<Vec<char>>, a: usize, b: usize) -> (r: Vec<char>)
    requires
        a <= b <= ls@.len(),
    ensures
        r@ == block_of(lines_view(ls@).subrange(a as int, b as int)),
{
    let mut out: Vec<char> = Vec::new();
    let mut k = a;
    while k < b
        invariant
            a <= k <= b <= ls@.len(),
            out@ == block_of(lines_view(ls@).subrange(a as int, k as int)),
        decreases b - k,
    {
        let l = &ls[k];
        proof {
            let r = lines_view(ls@).subrange(a as int, k + 1);
            assert(r.drop_last() =~= lines_view(ls@).subrange(a as int, k as int));
            assert(r.last() == l@);
        }
        if !is_blank(l) {
            let e = content_end(l);
            let (x, y) = crate::strings::trim_bounds(l, 0, e);
            let ghost before = out@;
            out.push('-');
            out.push(' ');
            let t = crate::strings::copy_range(l, x, y);
            crate::text::push_all(&mut out, t.as_slice());
            out.push('\n');
            proof {
                assert(out@ =~= before + seq!['-', ' '] + trim(content_of(l@)) + seq!['\n']);
            }
        }
        k += 1;
    }
    out
}

/// Append lines `a..b` to `out`.
fn push_lines(out: &mut Vec<char>, ls: &Vec<Vec<char>>, a: usize, b: usize)
    requires
        a <= b <= ls@.len(),
    ensures
        final(out)@ == old(out)@ + concat(lines_view(ls@).subrange(a as int, b as int)),
{
    let ghost start = out@;
    let mut k = a;
    assert(lines_view(ls@).subrange(a as int, a as int) =~= Seq::<Seq<char>>::empty());
    assert(start + Seq::<char>::empty() =~= start);
    while k < b
        invariant
            a <= k <= b <= ls@.len(),
            out@ == start + concat(lines_view(ls@).subrange(a as int, k as int)),
        decreases b - k,
    {
        crate::text::push_all(out, ls[k].as_slice());
        proof {
            let r = lines_view(ls@).subrange(a as int, k + 1);
            assert(r.drop_last() =~= lines_view(ls@).subrange(a as int, k as int));
            assert(r.last() == ls@[k as int]@);
            assert(out@ =~= start + (concat(r.drop_last()) + r.last()));
        }
        k += 1;
    }
}

/// The History section of the lines, located after a region ending at
/// `region_end`: `Ok(None)` without a section, `Ok(Some((h, insert)))`
/// with its heading line and insertion line, `Err` when the section is not
/// entirely after the region (moving the block there would rewrite kept
/// lines).
pub fn locate_history(ls: &Vec<Vec<char>>, region_end: usize) -> (r: Result<
    Option<(usize, usize)>,
    String,
>)
    requires
        region_end <= ls@.len(),
    ensures
        ({
            let v = lines_view(ls@);
            let h = history_at(v);
            match r {
                Ok(None) => h >= v.len(),
                Ok(Some((hh, ins))) => hh == h && region_end <= h < v.len() && ins == insert_at(v, h)
                    && h < ins <= v.len(),
                Err(m) => h < v.len() && h < region_end && m@ == history_misplaced_text(),
            }
        }),
{
    let hh = vec!['#', '#', ' ', 'H', 'i', 's', 't', 'o', 'r', 'y'];
    let h = find_content_exec(ls, &hh, 0);
    if h >= ls.len() {
        return Ok(None);
    }
    if h < region_end {
        return Err(
            String::from_str(
                "write_warm_start refused: the '## History' section is not located after the warm-start region (inside or before it) — moving the superseded block there would rewrite pinned bytes — nothing written",
            ),
        );
    }
    let end = find_section_exec(ls, h + 1);
    let ins = match last_filled_exec(ls, end) {
        Some(j) => if j > h {
            j + 1
        } else {
            h + 1
        },
        None => h + 1,
    };
    Ok(Some((h, ins)))
}

/// The refusal when the History section is not after the region.
pub open spec fn history_misplaced_text() -> Seq<char> {
    "write_warm_start refused: the '## History' section is not located after the warm-start region (inside or before it) — moving the superseded block there would rewrite pinned bytes — nothing written"@
}

/// The refusal when the region cannot be found.
pub open spec fn region_missing_text() -> Seq<char> {
    "write_warm_start refused: cannot locate the '## If you read nothing else' warm-start region (with its 'Last updated:' header line, when present) in signoff.md — nothing written"@
}

/// A composed rewrite: the new file and where its pieces came from.
pub struct Rewrite {
    /// the new text of `signoff.md`.
    pub intended: String,
    /// the number of lines of the new warm-start block.
    pub warm_start_lines: usize,
    /// the original's kept head ends here (the region starts here).
    pub head_end: usize,
    /// the original's region ends here (the kept middle starts here).
    pub region_end: usize,
    /// where in the original the superseded block is inserted (the end of
    /// the original when a History section is created).
    pub insert_pos: usize,
}

/// Compose the rewritten `signoff.md` from the original's own pieces:
/// the kept head, the caller's block (ending with a newline), the kept
/// middle and History section up to its insertion point, the superseded
/// region rendered as History entries, and the kept rest; a file without a
/// History section gets one at the end. Refused when the region is
/// missing, or the History section is not after it.
///
/// Every character of the original outside the region reappears, in
/// order: the new text is the original up to `head_end`, then the block,
/// then the original from `region_end` up to `insert_pos`, then the
/// rendered region, then the original from `insert_pos` on (after a new
/// History heading when the file had none).
pub fn compose_rewrite(original: &str, content: &str) -> (r: Result<Rewrite, String>)
    ensures
        ({
            let o = original@;
            let ls = raw_lines(o);
            match region_of(ls) {
                None => r matches Err(m) && m@ == region_missing_text(),
                Some((s, e)) => {
                    let h = history_at(ls);
                    if h < ls.len() && h < e {
                        r matches Err(m) && m@ == history_misplaced_text()
                    } else {
                        r matches Ok(rw) && rw.head_end == offset(ls, s) && rw.region_end == offset(
                            ls,
                            e,
                        ) && rw.head_end <= rw.region_end <= rw.insert_pos <= o.len()
                            && rw.warm_start_lines == raw_lines(normalized(content@)).len() && ({
                            let block = block_of(ls.subrange(s, e));
                            if h < ls.len() {
                                rw.insert_pos == offset(ls, insert_at(ls, h)) && rw.intended@
                                    == o.subrange(0, rw.head_end as int) + normalized(content@)
                                    + o.subrange(rw.region_end as int, rw.insert_pos as int) + block
                                    + o.subrange(rw.insert_pos as int, o.len() as int)
                            } else {
                                rw.insert_pos == o.len() && rw.intended@ == o.subrange(
                                    0,
                                    rw.head_end as int,
                                ) + normalized(content@) + o.subrange(
                                    rw.region_end as int,
                                    o.len() as int,
                                ) + new_history(o) + block
                            }
                        }) && rw.intended@ == rewritten(o, content@)
                    }
                },
            }
        }),
{
    let o = chars_of(original);
    let ls = raw_lines_exec(&o);
    let ghost lv = lines_view(ls@);
    proof {
        lemma_raw_lines(o@);
    }
    let (s, e) = match locate_region(&ls) {
        Some(r) => r,
        None => {
            return Err(
                String::from_str(
                    "write_warm_start refused: cannot locate the '## If you read nothing else' warm-start region (with its 'Last updated:' header line, when present) in signoff.md — nothing written",
                ),
            );
        },
    };
    let hist = match locate_history(&ls, e) {
        Ok(h) => h,
        Err(m) => return Err(m),
    };
    let c = chars_of(content);
    let mut norm = c.clone();
    if !(c.len() > 0 && c[c.len() - 1] == '\n') {
        norm.push('\n');
    }
    proof {
        assert(norm@ =~= normalized(c@));
    }
    let new_region = raw_lines_exec(&norm);
    let block = render_history_block(&ls, s, e);
    let mut out: Vec<char> = Vec::new();
    push_lines(&mut out, &ls, 0, s);
    let head_len = out.len();
    crate::text::push_all(&mut out, norm.as_slice());
    let mut body_mark = out.len();
    proof {
        lemma_offsets(lv, 0, s as int);
        lemma_offsets(lv, s as int, e as int);
        assert(lv.subrange(0, s as int) =~= lv.subrange(0, s as int));
        assert(concat(lv.subrange(0, 0)) =~= Seq::<char>::empty()) by {
            assert(lv.subrange(0, 0) =~= Seq::<Seq<char>>::empty());
        }
    }
    let total_len = o.len();
    assert(concat(lv) == o@);
    assert(concat(lines_view(ls@)).len() == total_len);
    let region_end = concat_len(&ls, e);
    let head_end = concat_len(&ls, s);
    match hist {
        Some((h, ins)) => {
            push_lines(&mut out, &ls, e, ins);
            crate::text::push_all(&mut out, block.as_slice());
            push_lines(&mut out, &ls, ins, ls.len());
            let insert_pos = concat_len(&ls, ins);
            proof {
                lemma_offsets(lv, e as int, ins as int);
                lemma_offsets(lv, ins as int, lv.len() as int);
                lemma_offsets(lv, 0, lv.len() as int);
                assert(lv.subrange(0, lv.len() as int) =~= lv);
                assert(out@ =~= o@.subrange(0, head_end as int) + normalized(c@) + o@.subrange(
                    region_end as int,
                    insert_pos as int,
                ) + block@ + o@.subrange(insert_pos as int, o@.len() as int));
            }
            Ok(Rewrite {
                intended: string_of(out.as_slice()),
                warm_start_lines: new_region.len(),
                head_end,
                region_end,
                insert_pos,
            })
        },
        None => {
            push_lines(&mut out, &ls, e, ls.len());
            let o_len = o.len();
            let ghost mid = out@;
            if o_len > 0 && o[o_len - 1] != '\n' {
                out.push('\n');
            }
            let hh = vec!['#', '#', ' ', 'H', 'i', 's', 't', 'o', 'r', 'y', '\n'];
            crate::text::push_all(&mut out, hh.as_slice());
            crate::text::push_all(&mut out, block.as_slice());
            proof {
                lemma_offsets(lv, e as int, lv.len() as int);
                lemma_offsets(lv, 0, lv.len() as int);
                assert(lv.subrange(0, lv.len() as int) =~= lv);
                assert(offset(lv, lv.len() as int) == o@.len());
                assert(out@ =~= o@.subrange(0, head_end as int) + normalized(c@) + o@.subrange(
                    region_end as int,
                    o@.len() as int,
                ) + new_history(o@) + block@);
            }
            Ok(Rewrite {
                intended: string_of(out.as_slice()),
                warm_start_lines: new_region.len(),
                head_end,
                region_end,
                insert_pos: o_len,
            })
        },
    }
}

/// The number of characters of the first `k` lines.
fn concat_len(ls: &Vec<Vec<char>>, k: usize) -> (r: usize)
    requires
        k <= ls@.len(),
        concat(lines_view(ls@)).len() <= usize::MAX,
    ensures
        r as int == offset(lines_view(ls@), k as int),
{
    let mut total: usize = 0;
    let mut i: usize = 0;
    assert(lines_view(ls@).subrange(0, 0) =~= Seq::<Seq<char>>::empty());
    while i < k
        invariant
            i <= k <= ls@.len(),
            concat(lines_view(ls@)).len() <= usize::MAX,
            total as int == offset(lines_view(ls@), i as int),
        decreases k - i,
    {
        proof {
            let v = lines_view(ls@);
            assert(v.subrange(0, i + 1).drop_last() =~= v.subrange(0, i as int));
            assert(v.subrange(0, i + 1).last() == ls@[i as int]@);
            lemma_offsets(v, i + 1, v.len() as int);
        }
        total = total + ls[i].len();
        i += 1;
    }
    total
}

/// The arguments `write_warm_start` accepts: a JSON object with no field
/// but `content` and `orchestrator_token`, both strings, the content
/// holding something besides whitespace.
pub open spec fn warm_args_ok(fields: Seq<(String, ArgValue)>) -> bool {
    &&& unknown_keys(fields, seq!["content"@, "orchestrator_token"@], fields.len() as int).len()
        == 0
    &&& str_arg(lookup(fields, "content"@)) matches Some(c) && trim(c).len() > 0
    &&& str_arg(lookup(fields, "orchestrator_token"@)) is Some
}

/// `write_warm_start`'s refusal of its field `key` when that is missing
/// or not a string.
pub open spec fn warm_field_refusal(f: Seq<(String, ArgValue)>, key: Seq<char>) -> Seq<char> {
    match lookup(f, key) {
        None => "write_warm_start refused: missing required field '"@ + key + "'"@,
        Some(v) => "write_warm_start refused: field '"@ + key + "' must be a string (got "@
            + kind_of(v) + ")"@,
    }
}

/// What `write_warm_start` answers arguments it refuses: not an object
/// (named by `kind`); the unknown fields; the content missing, not a
/// string, or blank; the token missing or not a string.
pub open spec fn warm_refusal(args: Option<Seq<(String, ArgValue)>>, kind: Seq<char>) -> Seq<char> {
    match args {
        None => "write_warm_start refused: arguments must be a JSON object (got "@ + kind + ")"@,
        Some(f) => {
            let u = unknown_keys(f, seq!["content"@, "orchestrator_token"@], f.len() as int);
            if u.len() > 0 {
                unknown_list_text("write_warm_start"@, u, "content, orchestrator_token"@)
            } else {
                match str_arg(lookup(f, "content"@)) {
                    None => warm_field_refusal(f, "content"@),
                    Some(c) => if trim(c).len() == 0 {
                        "write_warm_start refused: 'content' is empty — an empty warm-start block would destroy the region — nothing written"@
                    } else {
                        warm_field_refusal(f, "orchestrator_token"@)
                    },
                }
            }
        },
    }
}

/// A required string field of `write_warm_start`, or its refusal.
fn warm_string(fields: &Vec<(String, ArgValue)>, key: &str) -> (r: Result<String, String>)
    ensures
        match r {
            Ok(s) => str_arg(lookup(fields@, key@)) == Some(s@),
            Err(m) => str_arg(lookup(fields@, key@)) is None && m@ == warm_field_refusal(
                fields@,
                key@,
            ),
        },
{
    match get_arg(fields, key) {
        None => {
            let mut m = String::from_str("write_warm_start refused: missing required field '");
            m.append(key);
            m.append("'");
            Err(m)
        },
        Some(ArgValue::Str(s)) => Ok(s.clone()),
        Some(other) => {
            let mut m = String::from_str("write_warm_start refused: field '");
            m.append(key);
            m.append("' must be a string (got ");
            m.append(value_kind(other));
            m.append(")");
            Err(m)
        },
    }
}

/// Validate `write_warm_start`'s arguments: the block and the presented
/// token. `kind` names what the arguments were when they are no object.
pub fn parse_warm_start_args(args: &Option<Vec<(String, ArgValue)>>, kind: &str) -> (r: Result<
    (String, String),
    String,
>)
    ensures
        (r is Ok) == (args matches Some(f) && warm_args_ok(f@)),
        r matches Ok((c, t)) ==> args matches Some(f) && str_arg(lookup(f@, "content"@)) == Some(
            c@,
        ) && str_arg(lookup(f@, "orchestrator_token"@)) == Some(t@),
        r matches Err(m) ==> m@ == warm_refusal(args_view(*args), kind@),
{
    let fields = match args {
        Some(f) => f,
        None => {
            let mut m = String::from_str(
                "write_warm_start refused: arguments must be a JSON object (got ",
            );
            m.append(kind);
            m.append(")");
            return Err(m);
        },
    };
    proof {
        reveal_strlit("content");
        reveal_strlit("orchestrator_token");
    }
    let allowed = vec![String::from_str("content"), String::from_str("orchestrator_token")];
    let unknown = unknown_fields(fields, &allowed);
    proof {
        assert(allowed@.map_values(|s: String| s@) =~= seq!["content"@, "orchestrator_token"@]);
    }
    if unknown.len() > 0 {
        return Err(
            unknown_list_refusal("write_warm_start", &unknown, "content, orchestrator_token"),
        );
    }
    let content = match warm_string(fields, "content") {
        Ok(c) => c,
        Err(e) => return Err(e),
    };
    let t = crate::strings::trimmed(content.as_str());
    if t.as_str().is_empty() {
        return Err(
            String::from_str(
                "write_warm_start refused: 'content' is empty — an empty warm-start block would destroy the region — nothing written",
            ),
        );
    }
    let token = match warm_string(fields, "orchestrator_token") {
        Ok(t) => t,
        Err(e) => return Err(e),
    };
    Ok((content, token))
}

/// `write_warm_start`'s claim gate, decided before any lock is taken: the
/// presented token must be the claim file's for today and the caller's
/// session's own (see [`token_valid`]).
pub fn warm_start_gate(
    file: &ClaimRead,
    per_session: &Option<String>,
    presented: &String,
    today: &str,
) -> (r: Result<(), String>)
    ensures
        (r is Ok) == token_valid(
            *file,
            match per_session {
                Some(s) => Some(s@),
                None => None,
            },
            presented@,
        ),
        r matches Err(m) ==> m@ == "write_warm_start refused: no valid orchestrator_"@ + today@
            + " claim — single-writer warm-start (the claim file's token, the session's stored token, and the presented orchestrator_token must all agree) — nothing written"@,
{
    match crate::claims::dayfile_gate(file, per_session, presented, today) {
        Ok(()) => Ok(()),
        Err(_) => {
            let mut m = String::from_str("write_warm_start refused: no valid orchestrator_");
            m.append(today);
            m.append(
                " claim — single-writer warm-start (the claim file's token, the session's stored token, and the presented orchestrator_token must all agree) — nothing written",
            );
            Err(m)
        },
    }
}

/// The heading line the reader ranks the block under.
pub open spec fn warm_heading_line() -> Seq<char> {
    warm_heading()
}

/// Whether the block carries its own heading line (one of its lines is
/// exactly [`warm_heading_line`]).
pub fn has_warm_heading(content: &str) -> (r: bool)
    ensures
        r == crate::file_parser::lines_of(content@).contains(warm_heading_line()),
{
    let lines = crate::file_parser::text_lines(content);
    let h = String::from_str("## If you read nothing else");
    proof {
        reveal_strlit("## If you read nothing else");
        assert(h@ =~= warm_heading());
    }
    let ghost ls = crate::text::texts(lines@);
    let mut i: usize = 0;
    while i < lines.len()
        invariant
            i <= lines@.len(),
            ls == crate::text::texts(lines@),
            ls == crate::file_parser::lines_of(content@),
            h@ == warm_heading_line(),
            forall|j: int| 0 <= j < i ==> ls[j] != warm_heading_line(),
        decreases lines.len() - i,
    {
        assert(ls[i as int] == lines@[i as int]@);
        if crate::text::same_text(&lines[i], &h) {
            assert(ls.contains(warm_heading_line()));
            return true;
        }
        i += 1;
    }
    proof {
        if ls.contains(warm_heading_line()) {
            let j = ls.index_of(warm_heading_line());
            assert(ls[j] == warm_heading_line());
        }
    }
    false
}

/// The refusal of a block without its heading line.
pub fn missing_heading_refusal() -> (m: String)
    ensures
        m@ == "write_warm_start refused: content must include its own '## If you read nothing else' heading line — the server stores content verbatim and read_signoff ranks only the numbered lines UNDER that heading, so heading-less content lands as a dead block (read_signoff would answer ranked: []) — nothing written"@,
{
    String::from_str(
        "write_warm_start refused: content must include its own '## If you read nothing else' heading line — the server stores content verbatim and read_signoff ranks only the numbered lines UNDER that heading, so heading-less content lands as a dead block (read_signoff would answer ranked: []) — nothing written",
    )
}

/// The tools this module answers for.
pub open spec fn handler_names() -> Seq<Seq<char>> {
    seq!["write_warm_start"@]
}

/// The names of the tools this module registers: write_warm_start.
pub fn handlers() -> (r: Vec<&'static str>)
    ensures
        r@.len() == 1 && r@[0]@ == "write_warm_start"@,
        r@.map_values(|h: &'static str| h@) == handler_names(),
{
    proof {
        reveal_strlit("write_warm_start");
    }
    let r = vec!["write_warm_start"];
    assert(r@.map_values(|h: &'static str| h@) =~= handler_names());
    r
}

} // verus!
