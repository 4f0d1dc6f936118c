//! Observations out of a daily note's markdown: `## HH:MM` headings set
//! the timestamp, other `## ` headings set the section, and every
//! `- [category] text #tag` line becomes one observation.
use vstd::prelude::*;

use crate::models::Observation;
use crate::strings::{
    copy_range, find, find_at, remove_char, split_on, starts_with, starts_with_at, strip_all,
    strip_all_at, trim, trim_bounds, trim_end, trim_end_bound, trim_start,
};
use crate::text::{is_digit, string_of};

verus! {

/// What `char::is_alphanumeric` says of `c`.
pub uninterp spec fn is_alnum(c: char) -> bool;

/// `char::is_alphanumeric`.
#[verifier::external_body]
fn char_is_alphanumeric(c: char) -> (r: bool)
    ensures
        r == is_alnum(c),
{
    c.is_alphanumeric()
}

/// `uuid::Uuid::new_v4().to_string()`: a fresh random identifier. Nothing
/// is stated of its text: it comes from the random number generator.
#[verifier::external_body]
fn fresh_id() -> String {
    uuid::Uuid::new_v4().to_string()
}

/// `str::lines`: the lines of `s`, split at `\n`, each without its `\n` or
/// `\r\n`; a final terminator does not start another line.
pub open spec fn lines_of(s: Seq<char>) -> Seq<Seq<char>>
    decreases s.len(),
{
    if s.len() == 0 {
        Seq::empty()
    } else {
        let k = find(s, '\n');
        if k < 0 || k >= s.len() {
            seq![s]
        } else {
            let l = s.subrange(0, k);
            let l2 = if k > 0 && l.last() == '\r' { l.drop_last() } else { l };
            seq![l2] + lines_of(s.subrange(k + 1, s.len() as int))
        }
    }
}

/// A heading title of the form `digits:digits` (either side may be empty).
pub open spec fn is_timestamp(s: Seq<char>) -> bool {
    exists|k: int|
        0 <= k < s.len() && s[k] == ':' && forall|j: int|
            0 <= j < s.len() && j != k ==> #[trigger] is_digit(s[j])
}

/// The length of the leading run of alphanumeric characters and `-`.
pub open spec fn word_end(s: Seq<char>) -> int
    decreases s.len(),
{
    if s.len() > 0 && (is_alnum(s[0]) || s[0] == '-') {
        1 + word_end(s.drop_first())
    } else {
        0
    }
}

/// The tags of an observation: the leading word of each trimmed `#`-piece,
/// where it is not empty.
pub open spec fn tags_of(toks: Seq<Seq<char>>) -> Seq<Seq<char>>
    decreases toks.len(),
{
    if toks.len() == 0 {
        Seq::empty()
    } else {
        let t = trim(toks[0]);
        let w = t.subrange(0, word_end(t));
        let rest = tags_of(toks.drop_first());
        if w.len() > 0 {
            seq![w] + rest
        } else {
            rest
        }
    }
}

/// `cur` with each trimmed piece stripped off its front, piece by piece.
pub open spec fn clean_of(cur: Seq<char>, toks: Seq<Seq<char>>) -> Seq<char>
    decreases toks.len(),
{
    if toks.len() == 0 {
        cur
    } else {
        clean_of(strip_all(cur, trim(toks[0])), toks.drop_first())
    }
}

/// What follows the first `]` of an observation line, as the parser cuts
/// it: `None` when there is no `]`.
pub open spec fn obs_content(t: Seq<char>) -> Seq<char> {
    strip_all(trim_start(t), seq!['-', ' '])
}

/// The observation a trimmed `- [` line gives under the current heading
/// context: `(timestamp, section, category, content, full_context, tags)`.
pub open spec fn obs_line(t: Seq<char>, ts: Seq<char>, sec: Option<Seq<char>>) -> Option<
    (Seq<char>, Option<Seq<char>>, Seq<char>, Seq<char>, Seq<char>, Seq<Seq<char>>),
> {
    let content = obs_content(t);
    let eb = find(content, ']');
    if eb >= content.len() {
        None
    } else {
        let text = content.subrange(eb + 2, content.len() as int);
        let toks = split_on(text, '#');
        let body = trim(remove_char(trim(clean_of(text, toks)), '#'));
        Some((ts, sec, content.subrange(1, eb), body, trim_end(t), tags_of(toks)))
    }
}

/// The lines the parser can cut without slicing off the end or into the
/// middle of a character: after the first `]` there is one more character,
/// and it is ASCII.
pub open spec fn obs_line_ok(t: Seq<char>) -> bool {
    let content = obs_content(t);
    let eb = find(content, ']');
    eb < content.len() ==> (1 <= eb && eb + 1 < content.len() && (content[eb + 1] as u32) < 128)
}

/// Every observation line of `s` can be cut.
pub open spec fn note_ok(s: Seq<char>) -> bool {
    forall|i: int|
        0 <= i < lines_of(s).len() && starts_with(trim(#[trigger] lines_of(s)[i]), seq!['-', ' ', '['])
            ==> obs_line_ok(trim(lines_of(s)[i]))
}

/// The observations of `lines` under the heading context `(ts, sec)`.
pub open spec fn scan(lines: Seq<Seq<char>>, ts: Seq<char>, sec: Option<Seq<char>>) -> Seq<
    (Seq<char>, Option<Seq<char>>, Seq<char>, Seq<char>, Seq<char>, Seq<Seq<char>>),
>
    decreases lines.len(),
{
    if lines.len() == 0 {
        Seq::empty()
    } else {
        let t = trim(lines[0]);
        let rest = lines.drop_first();
        if starts_with(t, seq!['-', '-', '-']) {
            scan(rest, ts, sec)
        } else if starts_with(t, seq!['#', '#', ' ']) {
            let title = t.subrange(3, t.len() as int);
            if is_timestamp(title) {
                scan(rest, title, sec)
            } else {
                scan(rest, ts, Some(title))
            }
        } else if starts_with(t, seq!['-', ' ', '[']) {
            match obs_line(t, ts, sec) {
                Some(o) => seq![o] + scan(rest, ts, sec),
                None => scan(rest, ts, sec),
            }
        } else {
            scan(rest, ts, sec)
        }
    }
}

/// The title of `line` when it is a `## ` heading.
pub open spec fn heading_title(line: Seq<char>) -> Option<Seq<char>> {
    let t = trim(line);
    if starts_with(t, seq!['#', '#', ' ']) {
        Some(t.subrange(3, t.len() as int))
    } else {
        None
    }
}

/// The title of the last timestamp heading among `lines`, or `ts` when
/// there is none.
pub open spec fn last_timestamp(lines: Seq<Seq<char>>, ts: Seq<char>) -> Seq<char>
    decreases lines.len(),
{
    if lines.len() == 0 {
        ts
    } else {
        match heading_title(lines.last()) {
            Some(h) => if is_timestamp(h) {
                h
            } else {
                last_timestamp(lines.drop_last(), ts)
            },
            None => last_timestamp(lines.drop_last(), ts),
        }
    }
}

/// The title of the last heading among `lines` that is not a timestamp,
/// or `sec` when there is none.
pub open spec fn last_section(lines: Seq<Seq<char>>, sec: Option<Seq<char>>) -> Option<Seq<char>>
    decreases lines.len(),
{
    if lines.len() == 0 {
        sec
    } else {
        match heading_title(lines.last()) {
            Some(h) => if !is_timestamp(h) {
                Some(h)
            } else {
                last_section(lines.drop_last(), sec)
            },
            None => last_section(lines.drop_last(), sec),
        }
    }
}

/// Reading the first line, then the rest, leaves the same latest headings
/// as reading all the lines.
proof fn lemma_last_headings_front(
    lines: Seq<Seq<char>>,
    ts: Seq<char>,
    sec: Option<Seq<char>>,
)
    requires
        lines.len() > 0,
    ensures
        last_timestamp(lines, ts) == last_timestamp(
            lines.drop_first(),
            last_timestamp(seq![lines[0]], ts),
        ),
        last_section(lines, sec) == last_section(
            lines.drop_first(),
            last_section(seq![lines[0]], sec),
        ),
    decreases lines.len(),
{
    let one = seq![lines[0]];
    assert(one.drop_last() =~= Seq::<Seq<char>>::empty());
    if lines.len() > 1 {
        let init = lines.drop_last();
        lemma_last_headings_front(init, ts, sec);
        assert(init.drop_first() =~= lines.drop_first().drop_last());
        assert(init[0] == lines[0]);
        assert(lines.drop_first().last() == lines.last());
    } else {
        assert(lines.drop_first() =~= Seq::<Seq<char>>::empty());
        assert(lines.last() == lines[0]);
        assert(lines.drop_last() =~= Seq::<Seq<char>>::empty());
    }
}

/// The observations of a note split in two: those of the first part, then
/// those of the second part under the latest timestamp heading and the
/// latest other heading of the first part. Headings of one kind never
/// reset the other: an observation's timestamp is the title of the last
/// timestamp heading above it, whatever other headings lie between.
pub proof fn lemma_scan_split(
    a: Seq<Seq<char>>,
    b: Seq<Seq<char>>,
    ts: Seq<char>,
    sec: Option<Seq<char>>,
)
    ensures
        scan(a + b, ts, sec) == scan(a, ts, sec) + scan(
            b,
            last_timestamp(a, ts),
            last_section(a, sec),
        ),
    decreases a.len(),
{
    if a.len() == 0 {
        assert(a + b =~= b);
        assert(scan(a, ts, sec) =~= Seq::empty());
    } else {
        let l = a[0];
        let ar = a.drop_first();
        assert((a + b)[0] == l);
        assert((a + b).drop_first() =~= ar + b);
        lemma_last_headings_front(a, ts, sec);
        let one = seq![l];
        assert(one.drop_last() =~= Seq::<Seq<char>>::empty());
        assert(one.last() == l);
        assert(last_timestamp(one.drop_last(), ts) == ts);
        assert(last_section(one.drop_last(), sec) == sec);
        let ts1 = last_timestamp(one, ts);
        let sec1 = last_section(one, sec);
        lemma_scan_split(ar, b, ts1, sec1);
        let t = trim(l);
        if starts_with(t, seq!['-', '-', '-']) {
            assert(!starts_with(t, seq!['#', '#', ' ']));
            assert(heading_title(l) is None);
            assert(ts1 == ts && sec1 == sec);
        } else if starts_with(t, seq!['#', '#', ' ']) {
            let title = t.subrange(3, t.len() as int);
            assert(heading_title(l) == Some(title));
            if is_timestamp(title) {
                assert(ts1 == title && sec1 == sec);
                assert(scan(a, ts, sec) == scan(ar, title, sec));
                assert(scan(a + b, ts, sec) == scan(ar + b, title, sec));
            } else {
                assert(ts1 == ts && sec1 == Some(title));
                assert(scan(a, ts, sec) == scan(ar, ts, Some(title)));
                assert(scan(a + b, ts, sec) == scan(ar + b, ts, Some(title)));
            }
        } else {
            assert(heading_title(l) is None);
            assert(ts1 == ts && sec1 == sec);
            if starts_with(t, seq!['-', ' ', '[']) {
                match obs_line(t, ts, sec) {
                    Some(o) => {
                        assert(seq![o] + scan(ar + b, ts, sec) =~= seq![o] + scan(ar, ts, sec)
                            + scan(b, last_timestamp(ar, ts), last_section(ar, sec)));
                    },
                    None => {},
                }
            }
        }
    }
}

/// Each observation of a note carries the title of the last timestamp
/// heading above its line (empty when there is none) and the last other
/// heading above it: for the observation line at index `i`, the
/// observations before it are those of the lines above, and it comes
/// next.
pub proof fn lemma_observation_headings(lines: Seq<Seq<char>>, i: int)
    requires
        0 <= i < lines.len(),
        starts_with(trim(lines[i]), seq!['-', ' ', '[']),
        obs_line(trim(lines[i]), Seq::empty(), None) is Some,
    ensures
        ({
            let above = lines.take(i);
            let k = scan(above, Seq::empty(), None).len();
            let o = scan(lines, Seq::empty(), None)[k as int];
            &&& k < scan(lines, Seq::empty(), None).len()
            &&& o.0 == last_timestamp(above, Seq::empty())
            &&& o.1 == last_section(above, None)
            &&& Some(o) == obs_line(
                trim(lines[i]),
                last_timestamp(above, Seq::empty()),
                last_section(above, None),
            )
        }),
{
    let above = lines.take(i);
    let below = lines.skip(i);
    assert(lines =~= above + below);
    lemma_scan_split(above, below, Seq::empty(), None);
    let ts = last_timestamp(above, Seq::empty());
    let sec = last_section(above, None);
    let t = trim(lines[i]);
    assert(below[0] == lines[i]);
    assert(!starts_with(t, seq!['-', '-', '-']));
    assert(!starts_with(t, seq!['#', '#', ' ']));
    assert(obs_line(t, ts, sec) is Some);
    let o = obs_line(t, ts, sec)->0;
    assert(scan(below, ts, sec) == seq![o] + scan(below.drop_first(), ts, sec));
    let k = scan(above, Seq::empty(), None).len();
    assert(scan(lines, Seq::empty(), None)[k as int] == o);
}

/// The view of an optional character vector.
pub open spec fn opt_chars(o: Option<Vec<char>>) -> Option<Seq<char>> {
    match o {
        Some(s) => Some(s@),
        None => None,
    }
}

/// The view of an optional string.
pub open spec fn opt_view(o: Option<String>) -> Option<Seq<char>> {
    match o {
        Some(s) => Some(s@),
        None => None,
    }
}

/// What an observation records, without its identifiers.
pub open spec fn obs_view(o: Observation) -> (
    Seq<char>,
    Option<Seq<char>>,
    Seq<char>,
    Seq<char>,
    Seq<char>,
    Seq<Seq<char>>,
) {
    (
        o.timestamp@,
        opt_view(o.section),
        match o.category {
            Some(c) => c@,
            None => Seq::empty(),
        },
        o.content@,
        o.full_context@,
        o.tags@.map_values(|t: String| t@),
    )
}

/// Whether `v[a..b]` is a timestamp title.
fn is_timestamp_at(v: &Vec<char>, a: usize, b: usize) -> (r: bool)
    requires
        a <= b <= v@.len(),
    ensures
        r == is_timestamp(v@.subrange(a as int, b as int)),
{
    let ghost s = v@.subrange(a as int, b as int);
    let mut colon: Option<usize> = None;
    let mut i = a;
    while i < b
        invariant
            a <= i <= b <= v@.len(),
            s == v@.subrange(a as int, b as int),
            match colon {
                Some(k) => a <= k < i && v@[k as int] == ':' && forall|j: int|
                    a <= j < i && j != k ==> is_digit(#[trigger] v@[j]),
                None => forall|j: int| a <= j < i ==> is_digit(#[trigger] v@[j]),
            },
        decreases b - i,
    {
        let c = v[i];
        if c == ':' {
            match colon {
                Some(k) => {
                    proof {
                        assert forall|kk: int|
                            0 <= kk < s.len() && s[kk] == ':' implies !(forall|j: int|
                            0 <= j < s.len() && j != kk ==> #[trigger] is_digit(s[j])) by {
                            if kk == k - a {
                                assert(s[i - a] == ':');
                                assert(!is_digit(s[i - a]));
                            } else {
                                assert(s[k - a] == ':');
                                assert(!is_digit(s[k - a]));
                            }
                        }
                    }
                    return false;
                },
                None => {
                    colon = Some(i);
                },
            }
        } else if !('0' <= c && c <= '9') {
            proof {
                assert forall|kk: int|
                    0 <= kk < s.len() && s[kk] == ':' implies !(forall|j: int|
                    0 <= j < s.len() && j != kk ==> #[trigger] is_digit(s[j])) by {
                    assert(s[i - a] == c);
                    assert(!is_digit(s[i - a]));
                }
            }
            return false;
        }
        i += 1;
    }
    match colon {
        Some(k) => {
            proof {
                assert(s[k - a] == ':');
                assert forall|j: int| 0 <= j < s.len() && j != k - a implies #[trigger] is_digit(
                    s[j],
                ) by {
                    assert(s[j] == v@[a + j]);
                }
            }
            true
        },
        None => {
            proof {
                assert forall|kk: int|
                    0 <= kk < s.len() && s[kk] == ':' implies !(forall|j: int|
                    0 <= j < s.len() && j != kk ==> #[trigger] is_digit(s[j])) by {
                    assert(s[kk] == v@[a + kk]);
                    assert(is_digit(v@[a + kk]));
                }
            }
            false
        },
    }
}

/// The length of the leading run of alphanumerics and `-` in `v[a..b]`.
fn word_end_at(v: &Vec<char>, a: usize, b: usize) -> (r: usize)
    requires
        a <= b <= v@.len(),
    ensures
        r == word_end(v@.subrange(a as int, b as int)),
        r <= b - a,
{
    let mut i = a;
    while i < b && (char_is_alphanumeric(v[i]) || v[i] == '-')
        invariant
            a <= i <= b <= v@.len(),
            word_end(v@.subrange(a as int, b as int)) == (i - a) + word_end(
                v@.subrange(i as int, b as int),
            ),
        decreases b - i,
    {
        proof {
            let w = v@.subrange(i as int, b as int);
            assert(w.drop_first() =~= v@.subrange(i + 1, b as int));
        }
        i += 1;
    }
    i - a
}

/// `v[a..b]` without any `c`.
fn remove_char_range(v: &Vec<char>, a: usize, b: usize, c: char) -> (r: Vec<char>)
    requires
        a <= b <= v@.len(),
    ensures
        r@ == remove_char(v@.subrange(a as int, b as int), c),
{
    let mut r: Vec<char> = Vec::new();
    let mut i = a;
    while i < b
        invariant
            a <= i <= b <= v@.len(),
            r@ == remove_char(v@.subrange(a as int, i as int), c),
        decreases b - i,
    {
        proof {
            let w = v@.subrange(a as int, i + 1);
            assert(w.drop_last() =~= v@.subrange(a as int, i as int));
            assert(w.last() == v@[i as int]);
        }
        if v[i] != c {
            r.push(v[i]);
        }
        i += 1;
    }
    r
}

/// The tags and the cleaned text of the observation text `v[ta..tb]`.
fn tags_and_body(v: &Vec<char>, ta: usize, tb: usize) -> (r: (Vec<String>, Vec<char>))
    requires
        ta <= tb <= v@.len(),
    ensures
        r.0@.map_values(|t: String| t@) == tags_of(split_on(v@.subrange(ta as int, tb as int), '#')),
        r.1@ == trim(
            remove_char(
                trim(
                    clean_of(
                        v@.subrange(ta as int, tb as int),
                        split_on(v@.subrange(ta as int, tb as int), '#'),
                    ),
                ),
                '#',
            ),
        ),
{
    let ghost text = v@.subrange(ta as int, tb as int);
    let ghost toks = split_on(text, '#');
    let mut tags: Vec<String> = Vec::new();
    let mut ca = ta;
    let mut x = ta;
    loop
        invariant_except_break
            ta <= x <= tb,
            tags_of(toks) == tags@.map_values(|t: String| t@) + tags_of(
                split_on(v@.subrange(x as int, tb as int), '#'),
            ),
            clean_of(text, toks) == clean_of(
                v@.subrange(ca as int, tb as int),
                split_on(v@.subrange(x as int, tb as int), '#'),
            ),
        invariant
            ta <= tb <= v@.len(),
            ta <= ca <= tb,
            text == v@.subrange(ta as int, tb as int),
            toks == split_on(text, '#'),
        ensures
            tags_of(toks) == tags@.map_values(|t: String| t@),
            clean_of(text, toks) == v@.subrange(ca as int, tb as int),
        decreases tb - x,
    {
        let k = find_at(v, x, tb, '#');
        proof {
            crate::strings::lemma_find(v@.subrange(x as int, tb as int), '#');
        }
        let y = x + k;
        let ghost piece = v@.subrange(x as int, y as int);
        assert(v@.subrange(x as int, tb as int).subrange(0, k as int) =~= piece);
        let (p, q) = trim_bounds(v, x, y);
        let we = word_end_at(v, p, q);
        let ghost before = tags@;
        if we > 0 {
            let w = copy_range(v, p, p + we);
            tags.push(string_of(w.as_slice()));
        }
        let tok = copy_range(v, p, q);
        let nca = strip_all_at(v, ca, tb, &tok);
        proof {
            let rest_all = split_on(v@.subrange(x as int, tb as int), '#');
            let t = trim(piece);
            assert(v@.subrange(p as int, q as int) == t);
            assert(v@.subrange(p as int, (p + we) as int) =~= t.subrange(0, word_end(t)));
            assert(tags@.map_values(|t: String| t@) =~= before.map_values(|t: String| t@) + (if we
                > 0 {
                seq![t.subrange(0, word_end(t))]
            } else {
                Seq::<Seq<char>>::empty()
            }));
            if y < tb {
                assert(v@.subrange(x as int, tb as int).subrange(k + 1, tb - x) =~= v@.subrange(
                    y + 1,
                    tb as int,
                ));
                assert(rest_all == seq![piece] + split_on(v@.subrange(y + 1, tb as int), '#'));
                assert(rest_all[0] == piece);
                assert(rest_all.drop_first() =~= split_on(v@.subrange(y + 1, tb as int), '#'));
            } else {
                assert(rest_all == seq![v@.subrange(x as int, tb as int)]);
                assert(v@.subrange(x as int, tb as int) =~= piece);
                assert(rest_all.drop_first() =~= Seq::<Seq<char>>::empty());
            }
            assert(rest_all.len() > 0);
            assert(rest_all[0] == piece);
            assert(tok@ == t);
            assert(tags_of(rest_all) == (if we > 0 {
                seq![t.subrange(0, word_end(t))]
            } else {
                Seq::<Seq<char>>::empty()
            }) + tags_of(rest_all.drop_first()));
            assert(clean_of(v@.subrange(ca as int, tb as int), rest_all) == clean_of(
                v@.subrange(nca as int, tb as int),
                rest_all.drop_first(),
            ));
            assert(tags_of(toks) == tags@.map_values(|t: String| t@) + tags_of(rest_all.drop_first()));
        }
        ca = nca;
        if y >= tb {
            break;
        }
        x = y + 1;
    }
    let (ba, bb) = trim_bounds(v, ca, tb);
    let stripped = remove_char_range(v, ba, bb, '#');
    let (ea, eb) = trim_bounds(&stripped, 0, stripped.len());
    assert(stripped@.subrange(0, stripped@.len() as int) =~= stripped@);
    let body = copy_range(&stripped, ea, eb);
    (tags, body)
}

impl FileParser {
    /// The observation of the trimmed line `v[a..b]`.
    fn parse_observation_line(
        v: &Vec<char>,
        a: usize,
        b: usize,
        timestamp: &Vec<char>,
        section: &Option<Vec<char>>,
    ) -> (r: Option<Observation>)
        requires
            a <= b <= v@.len(),
            obs_line_ok(v@.subrange(a as int, b as int)),
        ensures
            match r {
                None => obs_line(
                    v@.subrange(a as int, b as int),
                    timestamp@,
                    opt_chars(*section),
                ) is None,
                Some(o) => o.category is Some && obs_line(
                    v@.subrange(a as int, b as int),
                    timestamp@,
                    opt_chars(*section),
                ) == Some(obs_view(o)),
            },
    {
        let ghost t = v@.subrange(a as int, b as int);
        let (sa, _sb) = trim_bounds(v, a, b);
        let dash = vec!['-', ' '];
        let c0 = strip_all_at(v, sa, b, &dash);
        assert(dash@ == seq!['-', ' ']);
        let ghost content = v@.subrange(c0 as int, b as int);
        assert(content == obs_content(t));
        let eb = find_at(v, c0, b, ']');
        proof {
            crate::strings::lemma_find(content, ']');
        }
        if eb >= b - c0 {
            return None;
        }
        let category = copy_range(v, c0 + 1, c0 + eb);
        assert(category@ =~= content.subrange(1, eb as int));
        let ta = c0 + eb + 2;
        assert(v@.subrange(ta as int, b as int) =~= content.subrange(eb + 2, content.len() as int));
        let (tags, body) = tags_and_body(v, ta, b);
        let fe = trim_end_bound(v, a, b);
        let full = copy_range(v, a, fe);
        let sec = match section {
            Some(s) => Some(string_of(s.as_slice())),
            None => None,
        };
        let o = Observation {
            id: fresh_id(),
            note_id: String::new(),
            timestamp: string_of(timestamp.as_slice()),
            section: sec,
            category: Some(string_of(category.as_slice())),
            content: string_of(body.as_slice()),
            full_context: string_of(full.as_slice()),
            tags,
        };
        Some(o)
    }

    /// The observations of a note, in order, each under the latest
    /// timestamp heading and the latest other heading above it.
    pub fn parse_observations(content: &str) -> (r: Result<Vec<Observation>, String>)
        requires
            note_ok(content@),
        ensures
            match r {
                Ok(obs) => obs@.map_values(|o: Observation| obs_view(o)) == scan(
                    lines_of(content@),
                    Seq::empty(),
                    None,
                ) && forall|i: int| 0 <= i < obs@.len() ==> (#[trigger] obs@[i]).category is Some,
                Err(_) => false,
            },
    {
        let v = crate::text::chars_of(content);
        let n = v.len();
        let mut obs: Vec<Observation> = Vec::new();
        let mut section: Option<Vec<char>> = None;
        let mut timestamp: Vec<char> = Vec::new();
        let mut pos: usize = 0;
        let dashes = vec!['-', '-', '-'];
        let heading = vec!['#', '#', ' '];
        let bullet = vec!['-', ' ', '['];
        assert(v@.subrange(0, n as int) =~= v@);
        while pos < n
            invariant
                v@ == content@,
                n == v@.len(),
                pos <= n,
                dashes@ == seq!['-', '-', '-'],
                heading@ == seq!['#', '#', ' '],
                bullet@ == seq!['-', ' ', '['],
                note_ok(v@.subrange(pos as int, n as int)),
                forall|i: int| 0 <= i < obs@.len() ==> (#[trigger] obs@[i]).category is Some,
                obs@.map_values(|o: Observation| obs_view(o)) + scan(
                    lines_of(v@.subrange(pos as int, n as int)),
                    timestamp@,
                    opt_chars(section),
                ) == scan(lines_of(content@), Seq::empty(), None),
            decreases n - pos,
        {
            let ghost s = v@.subrange(pos as int, n as int);
            let k = find_at(&v, pos, n, '\n');
            proof {
                crate::strings::lemma_find(s, '\n');
            }
            let mut le = pos + k;
            if le < n && le > pos && v[le - 1] == '\r' {
                le = le - 1;
            }
            let next = if pos + k < n {
                pos + k + 1
            } else {
                n
            };
            let ghost line = v@.subrange(pos as int, le as int);
            let ghost rest = v@.subrange(next as int, n as int);
            proof {
                assert(s.subrange(0, k as int) =~= v@.subrange(pos as int, pos + k));
                if pos + k < n {
                    assert(s.subrange(k + 1, s.len() as int) =~= rest);
                    if k > 0 && v@[pos + k - 1] == '\r' {
                        assert(v@.subrange(pos as int, pos + k).drop_last() =~= line);
                    }
                    assert(lines_of(s) == seq![line] + lines_of(rest));
                } else {
                    assert(s =~= line);
                    assert(rest =~= Seq::<char>::empty());
                    assert(lines_of(s) == seq![line]);
                }
                assert(lines_of(s)[0] == line);
                assert(lines_of(s).drop_first() =~= lines_of(rest));
                assert(note_ok(rest)) by {
                    assert forall|i: int|
                        0 <= i < lines_of(rest).len() && starts_with(
                            trim(#[trigger] lines_of(rest)[i]),
                            seq!['-', ' ', '['],
                        ) implies obs_line_ok(trim(lines_of(rest)[i])) by {
                        assert(lines_of(rest)[i] == lines_of(s)[i + 1]);
                    }
                }
            }
            let (a, b) = trim_bounds(&v, pos, le);
            let ghost t = v@.subrange(a as int, b as int);
            if starts_with_at(&v, a, b, &dashes) {
            } else if starts_with_at(&v, a, b, &heading) {
                let title = copy_range(&v, a + 3, b);
                assert(title@ =~= t.subrange(3, t.len() as int));
                if is_timestamp_at(&v, a + 3, b) {
                    timestamp = title;
                } else {
                    section = Some(title);
                }
            } else if starts_with_at(&v, a, b, &bullet) {
                proof {
                    assert(lines_of(s)[0] == line);
                    assert(obs_line_ok(t));
                }
                let ghost before = obs@;
                match Self::parse_observation_line(&v, a, b, &timestamp, &section) {
                    Some(o) => {
                        obs.push(o);
                        proof {
                            assert(obs@.map_values(|o: Observation| obs_view(o)) =~= before.map_values(
                                |o: Observation| obs_view(o),
                            ).push(obs_view(o)));
                        }
                    },
                    None => {},
                }
            }
            pos = next;
        }
        proof {
            assert(v@.subrange(n as int, n as int) =~= Seq::<char>::empty());
        }
        Ok(obs)
    }
}

/// The note parser.
pub struct FileParser;

/// The lines of `text` (see [`lines_of`]).
pub fn text_lines(text: &str) -> (r: Vec<String>)
    ensures
        crate::text::texts(r@) == lines_of(text@),
{
    let v = crate::text::chars_of(text);
    let n = v.len();
    let mut out: Vec<String> = Vec::new();
    let mut pos: usize = 0;
    assert(v@.subrange(0, n as int) =~= v@);
    while pos < n
        invariant
            v@ == text@,
            n == v@.len(),
            pos <= n,
            crate::text::texts(out@) + lines_of(v@.subrange(pos as int, n as int)) == lines_of(text@),
        decreases n - pos,
    {
        let ghost s = v@.subrange(pos as int, n as int);
        let k = find_at(&v, pos, n, '\n');
        proof {
            crate::strings::lemma_find(s, '\n');
        }
        let mut le = pos + k;
        if le < n && le > pos && v[le - 1] == '\r' {
            le = le - 1;
        }
        let next = if pos + k < n {
            pos + k + 1
        } else {
            n
        };
        let ghost line = v@.subrange(pos as int, le as int);
        let ghost rest = v@.subrange(next as int, n as int);
        proof {
            assert(s.subrange(0, k as int) =~= v@.subrange(pos as int, pos + k));
            if pos + k < n {
                assert(s.subrange(k + 1, s.len() as int) =~= rest);
                if k > 0 && v@[pos + k - 1] == '\r' {
                    assert(v@.subrange(pos as int, pos + k).drop_last() =~= line);
                }
                assert(lines_of(s) == seq![line] + lines_of(rest));
            } else {
                assert(s =~= line);
                assert(rest =~= Seq::<char>::empty());
                assert(lines_of(s) == seq![line]);
                assert(lines_of(rest) =~= Seq::<Seq<char>>::empty());
            }
        }
        let piece = copy_range(&v, pos, le);
        let ghost before = out@;
        out.push(string_of(piece.as_slice()));
        proof {
            assert(crate::text::texts(out@) =~= crate::text::texts(before).push(line));
            assert(crate::text::texts(out@) + lines_of(rest) =~= crate::text::texts(before) + (
            seq![line] + lines_of(rest)));
        }
        pos = next;
    }
    proof {
        assert(v@.subrange(n as int, n as int) =~= Seq::<char>::empty());
        assert(crate::text::texts(out@) + Seq::<Seq<char>>::empty() =~= crate::text::texts(out@));
    }
    out
}

} // verus!
