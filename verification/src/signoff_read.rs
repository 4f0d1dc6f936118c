//! What `read_signoff` hands every session: the warm-start block (its
//! `Last updated:` header and ranked list), the history, and the worker
//! signoffs, parsed tolerantly out of `signoff.md`.
use vstd::prelude::*;

use crate::file_parser::{lines_of, text_lines};
use crate::signoff::{p_worker, parse_worker, parse_worker_line, worker_view, WorkerSignoff};
use crate::strings::{is_space, starts_with, trim, trim_bounds};
use crate::text::{chars_of, digits_value, is_digit, string_of, texts};

verus! {

/// `## If you read nothing else`.
pub open spec fn warm_heading() -> Seq<char> {
    seq![
        '#', '#', ' ', 'I', 'f', ' ', 'y', 'o', 'u', ' ', 'r', 'e', 'a', 'd', ' ', 'n', 'o', 't',
        'h', 'i', 'n', 'g', ' ', 'e', 'l', 's', 'e',
    ]
}

/// `## History`.
pub open spec fn history_heading() -> Seq<char> {
    seq!['#', '#', ' ', 'H', 'i', 's', 't', 'o', 'r', 'y']
}

/// `## `.
pub open spec fn heading_prefix() -> Seq<char> {
    seq!['#', '#', ' ']
}

/// `Last updated:`.
pub open spec fn last_updated() -> Seq<char> {
    seq!['L', 'a', 's', 't', ' ', 'u', 'p', 'd', 'a', 't', 'e', 'd', ':']
}

/// The first line at or after `i` equal to `target`, or the line count.
pub open spec fn find_line(lines: Seq<Seq<char>>, target: Seq<char>, i: int) -> int
    decreases lines.len() - i,
{
    if i < 0 || i >= lines.len() {
        lines.len() as int
    } else if lines[i] == target {
        i
    } else {
        find_line(lines, target, i + 1)
    }
}

/// The first line at or after `i` that starts a section (`## `), or the
/// line count.
pub open spec fn find_heading(lines: Seq<Seq<char>>, i: int) -> int
    decreases lines.len() - i,
{
    if i < 0 || i >= lines.len() {
        lines.len() as int
    } else if starts_with(lines[i], heading_prefix()) {
        i
    } else {
        find_heading(lines, i + 1)
    }
}

/// The last line before `h` with something besides whitespace, or `-1`.
pub open spec fn last_nonblank(lines: Seq<Seq<char>>, h: int) -> int
    decreases h,
{
    if h <= 0 || h > lines.len() {
        -1
    } else if trim(lines[h - 1]).len() > 0 {
        h - 1
    } else {
        last_nonblank(lines, h - 1)
    }
}

/// The number of leading ASCII digits of `s`.
pub open spec fn digit_run(s: Seq<char>) -> int
    decreases s.len(),
{
    if s.len() > 0 && is_digit(s[0]) {
        1 + digit_run(s.drop_first())
    } else {
        0
    }
}

/// A ranked line `N. text`: the rank `N` (saturating at `u64::MAX`) and the
/// trimmed text after `N. `; `None` for any other line.
pub open spec fn ranked_of(line: Seq<char>) -> Option<(u64, Seq<char>)> {
    let d = digit_run(line);
    if d == 0 || d + 1 >= line.len() || line[d] != '.' || !is_space(line[d + 1]) {
        None
    } else {
        let v = digits_value(line.subrange(0, d));
        let rank: u64 = if v > u64::MAX {
            u64::MAX
        } else {
            v as u64
        };
        Some((rank, trim(line.subrange(d + 2, line.len() as int))))
    }
}

/// The ranked items among `ls`, in order.
pub open spec fn ranked_items(ls: Seq<Seq<char>>) -> Seq<(u64, Seq<char>)>
    decreases ls.len(),
{
    if ls.len() == 0 {
        Seq::empty()
    } else {
        let prev = ranked_items(ls.drop_last());
        match ranked_of(ls.last()) {
            Some(item) => prev.push(item),
            None => prev,
        }
    }
}

/// The history entries among `ls`: each non-blank line, without a leading
/// `- `, trimmed; empty entries skipped.
pub open spec fn history_items(ls: Seq<Seq<char>>) -> Seq<Seq<char>>
    decreases ls.len(),
{
    if ls.len() == 0 {
        Seq::empty()
    } else {
        let prev = history_items(ls.drop_last());
        let l = ls.last();
        let entry = if starts_with(l, seq!['-', ' ']) {
            trim(l.subrange(2, l.len() as int))
        } else {
            trim(l)
        };
        if trim(l).len() == 0 || entry.len() == 0 {
            prev
        } else {
            prev.push(entry)
        }
    }
}

/// The worker signoffs among `ls`, in order; malformed ones skipped.
pub open spec fn worker_items(ls: Seq<Seq<char>>) -> Seq<(Seq<char>, Seq<Option<Seq<char>>>)>
    decreases ls.len(),
{
    if ls.len() == 0 {
        Seq::empty()
    } else {
        let prev = worker_items(ls.drop_last());
        let l = ls.last();
        if starts_with(l, p_worker()) {
            match parse_worker(l) {
                Some(w) => prev.push(w),
                None => prev,
            }
        } else {
            prev
        }
    }
}

/// The warm-start header: the nearest non-blank line before the heading,
/// trimmed, when it is a `Last updated:` line; else empty.
pub open spec fn header_of(lines: Seq<Seq<char>>) -> Seq<char> {
    let h = find_line(lines, warm_heading(), 0);
    if h >= lines.len() {
        Seq::empty()
    } else {
        let j = last_nonblank(lines, h);
        if j >= 0 && starts_with(lines[j], last_updated()) {
            trim(lines[j])
        } else {
            Seq::empty()
        }
    }
}

/// The ranked list: the ranked lines between the warm-start heading and the
/// next section.
pub open spec fn ranked_of_file(lines: Seq<Seq<char>>) -> Seq<(u64, Seq<char>)> {
    let h = find_line(lines, warm_heading(), 0);
    if h >= lines.len() {
        Seq::empty()
    } else {
        ranked_items(lines.subrange(h + 1, find_heading(lines, h + 1)))
    }
}

/// The history: the entries between `## History` and the next section.
pub open spec fn history_of_file(lines: Seq<Seq<char>>) -> Seq<Seq<char>> {
    let h = find_line(lines, history_heading(), 0);
    if h >= lines.len() {
        Seq::empty()
    } else {
        history_items(lines.subrange(h + 1, find_heading(lines, h + 1)))
    }
}

/// `signoff.md`, parsed.
pub struct ParsedSignoff {
    pub header: String,
    pub ranked: Vec<(u64, String)>,
    pub history: Vec<String>,
    pub worker_signoffs: Vec<WorkerSignoff>,
}

/// The ranked items as ranks and texts.
pub open spec fn ranked_view(v: Seq<(u64, String)>) -> Seq<(u64, Seq<char>)> {
    v.map_values(|p: (u64, String)| (p.0, p.1@))
}

/// The first line at or after `i` equal to `target` (see [`find_line`]).
fn find_line_exec(lines: &Vec<String>, target: &Vec<char>, i: usize) -> (r: usize)
    requires
        i <= lines@.len(),
    ensures
        r as int == find_line(texts(lines@), target@, i as int),
        r <= lines@.len(),
{
    let mut j = i;
    while j < lines.len()
        invariant
            i <= j <= lines@.len(),
            find_line(texts(lines@), target@, i as int) == find_line(texts(lines@), target@, j as int),
        decreases lines.len() - j,
    {
        let l = chars_of(lines[j].as_str());
        if crate::text::same_chars(&l, target) {
            return j;
        }
        j += 1;
    }
    j
}

/// The first section heading at or after `i` (see [`find_heading`]).
fn find_heading_exec(lines: &Vec<String>, i: usize) -> (r: usize)
    requires
        i <= lines@.len(),
    ensures
        r as int == find_heading(texts(lines@), i as int),
        i <= r <= lines@.len(),
{
    let pre = vec!['#', '#', ' '];
    let mut j = i;
    while j < lines.len()
        invariant
            i <= j <= lines@.len(),
            pre@ == heading_prefix(),
            find_heading(texts(lines@), i as int) == find_heading(texts(lines@), j as int),
        decreases lines.len() - j,
    {
        let l = chars_of(lines[j].as_str());
        assert(l@.subrange(0, l@.len() as int) =~= l@);
        if crate::strings::starts_with_at(&l, 0, l.len(), &pre) {
            return j;
        }
        j += 1;
    }
    j
}

/// A ranked line, parsed (see [`ranked_of`]).
pub fn parse_ranked_line(line: &str) -> (r: Option<(u64, String)>)
    ensures
        match r {
            Some((n, t)) => ranked_of(line@) == Some((n, t@)),
            None => ranked_of(line@) is None,
        },
{
    let v = chars_of(line);
    let n = v.len();
    let mut d: usize = 0;
    let mut rank: u64 = 0;
    assert(v@.subrange(0, n as int) =~= v@);
    while d < n && '0' <= v[d] && v[d] <= '9'
        invariant
            d <= n,
            n == v@.len(),
            digit_run(v@) == d + digit_run(v@.subrange(d as int, n as int)),
            forall|j: int| 0 <= j < d ==> is_digit(#[trigger] v@[j]),
            rank as int == (if digits_value(v@.subrange(0, d as int)) > u64::MAX {
                u64::MAX as int
            } else {
                digits_value(v@.subrange(0, d as int))
            }),
        decreases n - d,
    {
        proof {
            let w = v@.subrange(d as int, n as int);
            assert(w.drop_first() =~= v@.subrange(d + 1, n as int));
            let pre = v@.subrange(0, d as int);
            let nxt = v@.subrange(0, d + 1);
            assert(nxt.drop_last() =~= pre);
            assert(nxt.last() == v@[d as int]);
            assert(crate::text::all_digits(pre)) by {
                assert forall|j: int| 0 <= j < pre.len() implies is_digit(#[trigger] pre[j]) by {
                    assert(pre[j] == v@[j]);
                }
            }
            crate::text::lemma_digits_value_bound(pre);
        }
        let digit = (v[d] as u32 - 48) as u128;
        let wide: u128 = rank as u128 * 10 + digit;
        rank = if wide > 0xFFFF_FFFF_FFFF_FFFFu128 {
            0xFFFF_FFFF_FFFF_FFFFu64
        } else {
            wide as u64
        };
        d += 1;
    }
    proof {
        assert(v@.subrange(0, n as int) =~= v@);
        if d < n {
            assert(v@.subrange(d as int, n as int)[0] == v@[d as int]);
        }
    }
    if d == 0 || n - d < 2 || v[d] != '.' || !crate::strings::char_is_whitespace(v[d + 1]) {
        return None;
    }
    let (a, b) = trim_bounds(&v, d + 2, n);
    let text = crate::strings::copy_range(&v, a, b);
    Some((rank, string_of(text.as_slice())))
}

/// The last non-blank line before `h` (see [`last_nonblank`]).
fn last_nonblank_exec(lines: &Vec<String>, h: usize) -> (r: Option<usize>)
    requires
        h <= lines@.len(),
    ensures
        match r {
            Some(j) => j < h && last_nonblank(texts(lines@), h as int) == j,
            None => last_nonblank(texts(lines@), h as int) == -1,
        },
{
    let mut j = h;
    while j > 0
        invariant
            j <= h <= lines@.len(),
            last_nonblank(texts(lines@), h as int) == last_nonblank(texts(lines@), j as int),
        decreases j,
    {
        let l = chars_of(lines[j - 1].as_str());
        assert(l@.subrange(0, l@.len() as int) =~= l@);
        let (a, b) = trim_bounds(&l, 0, l.len());
        if a < b {
            return Some(j - 1);
        }
        j -= 1;
    }
    None
}

/// The history entry of one line, if it has one (see [`history_items`]).
fn history_entry(line: &String) -> (r: Option<String>)
    ensures
        ({
            let l = line@;
            let entry = if starts_with(l, seq!['-', ' ']) {
                trim(l.subrange(2, l.len() as int))
            } else {
                trim(l)
            };
            match r {
                Some(e) => trim(l).len() > 0 && entry.len() > 0 && e@ == entry,
                None => trim(l).len() == 0 || entry.len() == 0,
            }
        }),
{
    let v = chars_of(line.as_str());
    let n = v.len();
    assert(v@.subrange(0, n as int) =~= v@);
    let (a, b) = trim_bounds(&v, 0, n);
    if a == b {
        return None;
    }
    let dash = vec!['-', ' '];
    let (ea, eb) = if crate::strings::starts_with_at(&v, 0, n, &dash) {
        trim_bounds(&v, 2, n)
    } else {
        (a, b)
    };
    if ea == eb {
        return None;
    }
    let e = crate::strings::copy_range(&v, ea, eb);
    Some(string_of(e.as_slice()))
}

/// `signoff.md` parsed: the warm-start header and ranked list, the
/// history, and the worker signoffs (malformed ones skipped). A file
/// without some section parses that section to empty; nothing in the file
/// is an error.
pub fn parse_signoff(text: &str) -> (r: ParsedSignoff)
    ensures
        r.header@ == header_of(lines_of(text@)),
        ranked_view(r.ranked@) == ranked_of_file(lines_of(text@)),
        texts(r.history@) == history_of_file(lines_of(text@)),
        r.worker_signoffs@.map_values(|w: WorkerSignoff| worker_view(w)) == worker_items(
            lines_of(text@),
        ),
{
    let lines = text_lines(text);
    let ghost ls = texts(lines@);
    assert(ls == lines_of(text@));
    let wh = vec![
        '#', '#', ' ', 'I', 'f', ' ', 'y', 'o', 'u', ' ', 'r', 'e', 'a', 'd', ' ', 'n', 'o', 't',
        'h', 'i', 'n', 'g', ' ', 'e', 'l', 's', 'e',
    ];
    let hh = vec!['#', '#', ' ', 'H', 'i', 's', 't', 'o', 'r', 'y'];
    let lu = vec!['L', 'a', 's', 't', ' ', 'u', 'p', 'd', 'a', 't', 'e', 'd', ':'];
    // The warm-start block.
    let mut header = String::new();
    let mut ranked: Vec<(u64, String)> = Vec::new();
    let h = find_line_exec(&lines, &wh, 0);
    if h < lines.len() {
        match last_nonblank_exec(&lines, h) {
            Some(j) => {
                let l = chars_of(lines[j].as_str());
                assert(l@.subrange(0, l@.len() as int) =~= l@);
                if crate::strings::starts_with_at(&l, 0, l.len(), &lu) {
                    let (a, b) = trim_bounds(&l, 0, l.len());
                    let t = crate::strings::copy_range(&l, a, b);
                    header = string_of(t.as_slice());
                }
            },
            None => {},
        }
        let end = find_heading_exec(&lines, h + 1);
        let mut k = h + 1;
        while k < end
            invariant
                h + 1 <= k <= end <= lines@.len(),
                ls == texts(lines@),
                ranked_view(ranked@) == ranked_items(ls.subrange(h + 1, k as int)),
            decreases end - k,
        {
            let item = parse_ranked_line(lines[k].as_str());
            let ghost before = ranked@;
            proof {
                assert(ls.subrange(h + 1, k + 1).drop_last() =~= ls.subrange(h + 1, k as int));
                assert(ls.subrange(h + 1, k + 1).last() == lines@[k as int]@);
            }
            match item {
                Some(p) => {
                    ranked.push(p);
                    proof {
                        assert(ranked_view(ranked@) =~= ranked_view(before).push(
                            (ranked@.last().0, ranked@.last().1@),
                        ));
                    }
                },
                None => {},
            }
            k += 1;
        }
    }
    // The history.
    let mut history: Vec<String> = Vec::new();
    let hs = find_line_exec(&lines, &hh, 0);
    if hs < lines.len() {
        let end = find_heading_exec(&lines, hs + 1);
        let mut k = hs + 1;
        while k < end
            invariant
                hs + 1 <= k <= end <= lines@.len(),
                ls == texts(lines@),
                texts(history@) == history_items(ls.subrange(hs + 1, k as int)),
            decreases end - k,
        {
            let entry = history_entry(&lines[k]);
            let ghost before = history@;
            proof {
                assert(ls.subrange(hs + 1, k + 1).drop_last() =~= ls.subrange(hs + 1, k as int));
                assert(ls.subrange(hs + 1, k + 1).last() == lines@[k as int]@);
            }
            match entry {
                Some(e) => {
                    history.push(e);
                    proof {
                        assert(texts(history@) =~= texts(before).push(history@.last()@));
                    }
                },
                None => {},
            }
            k += 1;
        }
    }
    // The worker signoffs.
    let mut workers: Vec<WorkerSignoff> = Vec::new();
    let pw = vec!['W', 'o', 'r', 'k', 'e', 'r', ' ', 's', 'i', 'g', 'n', 'o', 'f', 'f', ' ', '('];
    let mut k: usize = 0;
    while k < lines.len()
        invariant
            k <= lines@.len(),
            ls == texts(lines@),
            pw@ == p_worker(),
            workers@.map_values(|w: WorkerSignoff| worker_view(w)) == worker_items(
                ls.subrange(0, k as int),
            ),
        decreases lines.len() - k,
    {
        let l = chars_of(lines[k].as_str());
        assert(l@.subrange(0, l@.len() as int) =~= l@);
        let ghost before = workers@;
        proof {
            assert(ls.subrange(0, k + 1).drop_last() =~= ls.subrange(0, k as int));
            assert(ls.subrange(0, k + 1).last() == lines@[k as int]@);
        }
        if crate::strings::starts_with_at(&l, 0, l.len(), &pw) {
            match parse_worker_line(lines[k].as_str()) {
                Some(w) => {
                    workers.push(w);
                    proof {
                        assert(workers@.map_values(|w: WorkerSignoff| worker_view(w))
                            =~= before.map_values(|w: WorkerSignoff| worker_view(w)).push(
                            worker_view(workers@.last()),
                        ));
                    }
                },
                None => {},
            }
        }
        k += 1;
    }
    assert(ls.subrange(0, lines@.len() as int) =~= ls);
    ParsedSignoff { header, ranked, history, worker_signoffs: workers }
}

/// The tools this module answers for.
pub open spec fn handler_names() -> Seq<Seq<char>> {
    seq!["read_signoff"@]
}

/// The tools this module answers for, by name.
pub fn handlers() -> (r: Vec<&'static str>)
    ensures
        r@.len() == 1 && r@[0]@ == "read_signoff"@,
        r@.map_values(|h: &'static str| h@) == handler_names(),
{
    proof {
        reveal_strlit("read_signoff");
    }
    let r = vec!["read_signoff"];
    assert(r@.map_values(|h: &'static str| h@) =~= handler_names());
    r
}

} // verus!
