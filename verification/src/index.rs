//! The derived recall index: the search buckets, per-file fingerprints,
//! the parsed line lists, the query matcher and the candidate narrowing.
//! Reading the disk and holding the per-process memo is the caller's
//! part; what a cache entry means, when it is still valid and which lines
//! it offers as candidates is decided here.
use vstd::prelude::*;

use crate::session::{
    keys_of, lemma_index_of_unique, lemma_push_pair, lemma_remove_pair, lemma_set_pair, pair_map,
    unique_keys, Sessions,
};

use crate::pattern::{accepts, alt_nodes, compile_regex, debug_str_of, pattern_refusal};
use crate::regex::{cost_seq, fold, regex_matches, regex_search, wb_seq, Node, REGEX_FUEL};
use crate::strings::{is_space, split_on};
use crate::text::{chars_of, string_of};

verus! {

/// The on-disk (and in-memory) schema version of the derived report.
pub const FORMAT_VERSION: u64 = 1;

/// The fixed search buckets a `recall` scope names.
#[derive(Clone, Copy, Debug, PartialEq, Eq, Structural)]
pub enum Scope {
    /// `signoff.md` only.
    Signoff,
    /// every `YYYY-MM-DD.md` day file at the root.
    Dayfile,
    /// `briefs/*.md` only.
    Briefs,
    /// all three buckets.
    All,
}

/// One bucket file: the root-relative path `recall` reports and the
/// resolved absolute path behind it.
#[derive(Clone, Debug)]
pub struct BucketFile {
    pub rel: String,
    pub abs: String,
}

/// One file's fingerprint: the whole identity of a cache entry.
#[derive(Clone, Debug)]
pub struct Fingerprint {
    pub path: String,
    pub mtime: i64,
    pub size: u64,
    pub inode: u64,
    pub line_count: u64,
    pub format_version: u64,
}

/// A file as the cache holds it: its fingerprint and its lines, in order,
/// without their terminators.
#[derive(Clone, Debug)]
pub struct IndexedFile {
    pub fingerprint: Fingerprint,
    pub lines: Vec<String>,
}

/// The snapshot: the indexed files, at most one per root-relative path,
/// ordered by path so the derived report renders deterministically.
#[derive(Clone, Debug)]
pub struct Snapshot {
    pub files: Vec<IndexedFile>,
}

/// A candidate the index hands `recall`: the file to re-read and the line
/// numbers that matched (a hint only).
#[derive(Clone, Debug)]
pub struct Candidate {
    pub file: BucketFile,
    pub lines: Vec<usize>,
}

/// A compiled query: the matcher `recall` runs over the index and again
/// over the live bytes.
pub struct Query {
    /// the raw `query` argument.
    pub raw: String,
    /// true when the query began with the literal prefix `re:`.
    pub regex: bool,
    /// the pattern under test (the query minus the `re:` prefix).
    pub pattern: String,
    /// the case-folded literal, substring mode only (empty in regex mode).
    pub needle: String,
    /// the compiled pattern, regex mode only (empty in substring mode).
    pub program: Vec<Node>,
}

/// What `str::to_lowercase` returns for a string.
pub uninterp spec fn str_lowercase_of(s: Seq<char>) -> Seq<char>;

/// `str::to_lowercase`: the lowercase mapping of a whole string (which,
/// unlike a character-by-character mapping, treats a word-final capital
/// sigma specially).
#[verifier::external_body]
fn str_lowercase(s: &str) -> (r: String)
    ensures
        r@ == str_lowercase_of(s@),
{
    s.to_lowercase()
}

/// `hay` contains `needle` somewhere (the empty needle everywhere).
pub open spec fn contains_seq(hay: Seq<char>, needle: Seq<char>) -> bool {
    exists|i: int| 0 <= i <= hay.len() - needle.len() && #[trigger] hay.subrange(i, i + needle.len()) == needle
}

/// Whether `hay` contains `needle`.
pub fn contains_chars(hay: &Vec<char>, needle: &Vec<char>) -> (r: bool)
    ensures
        r == contains_seq(hay@, needle@),
{
    if needle.len() > hay.len() {
        return false;
    }
    if needle.len() == 0 {
        assert(hay@.subrange(0int, 0int + needle@.len()) =~= needle@);
        assert(contains_seq(hay@, needle@));
        return true;
    }
    let mut i: usize = 0;
    while i <= hay.len() - needle.len()
        invariant
            0 < needle@.len() <= hay@.len(),
            i <= hay@.len() - needle@.len() + 1,
            forall|j: int| 0 <= j < i ==> #[trigger] hay@.subrange(j, j + needle@.len()) != needle@,
        decreases hay@.len() - needle@.len() + 1 - i,
    {
        if crate::strings::starts_with_at(hay, i, hay.len(), needle) {
            assert(hay@.subrange(i as int, hay@.len() as int).subrange(0, needle@.len() as int)
                =~= hay@.subrange(i as int, i + needle@.len()));
            return true;
        }
        assert(hay@.subrange(i as int, hay@.len() as int).subrange(0, needle@.len() as int)
            =~= hay@.subrange(i as int, i + needle@.len()));
        i += 1;
    }
    false
}

/// Whether every character of `s` is whitespace.
pub open spec fn all_space(s: Seq<char>) -> bool {
    forall|i: int| 0 <= i < s.len() ==> is_space(#[trigger] s[i])
}

/// The three characters `re:`.
pub open spec fn re_prefix() -> Seq<char> {
    seq!['r', 'e', ':']
}

/// What compiling a refused `re:` query answers: a blank pattern is no
/// search; any other refused pattern says why it does not read.
pub open spec fn query_refusal(query: Seq<char>) -> Seq<char> {
    let pat = query.subrange(3, query.len() as int);
    if all_space(pat) {
        "regex pattern is empty (query "@ + debug_str_of(query)
            + ") — an empty pattern matches every line, which is not a search"@
    } else {
        pattern_refusal(pat)
    }
}

impl Query {
    /// Compile a search query. By default it is a case-insensitive
    /// substring; the literal prefix `re:` selects a case-insensitive regex
    /// over the rest. A blank pattern, and a pattern outside the supported
    /// syntax, are refused.
    pub fn compile(query: &str) -> (r: Result<Query, String>)
        ensures
            crate::strings::starts_with(query@, re_prefix()) ==> {
                let pat = query@.subrange(3, query@.len() as int);
                &&& (r is Ok) == (!all_space(pat) && accepts(pat))
                &&& (r matches Ok(q) ==> q.raw@ == query@ && q.regex && q.pattern@ == pat
                    && q.needle@ == Seq::<char>::empty() && alt_nodes(pat, 0, q.program@))
                &&& (r matches Err(m) ==> m@ == query_refusal(query@))
            },
            !crate::strings::starts_with(query@, re_prefix()) ==> (r matches Ok(q) && q.raw@
                == query@ && !q.regex && q.pattern@ == query@ && q.needle@ == str_lowercase_of(
                query@,
            ) && q.program@.len() == 0),
    {
        let v = chars_of(query);
        let pre = vec!['r', 'e', ':'];
        if crate::strings::starts_with_at(&v, 0, v.len(), &pre) {
            assert(v@.subrange(0, v@.len() as int) =~= v@);
            let rest = crate::strings::copy_range(&v, 3, v.len());
            let mut blank = true;
            let mut i: usize = 0;
            while i < rest.len()
                invariant
                    i <= rest@.len(),
                    blank == (forall|j: int| 0 <= j < i ==> is_space(#[trigger] rest@[j])),
                decreases rest.len() - i,
            {
                if !crate::strings::char_is_whitespace(rest[i]) {
                    blank = false;
                }
                i += 1;
            }
            let pattern = string_of(rest.as_slice());
            if blank {
                let mut m = String::from_str("regex pattern is empty (query ");
                let q = crate::pattern::debug_text(query);
                m.append(q.as_str());
                m.append(
                    ") — an empty pattern matches every line, which is not a search",
                );
                return Err(m);
            }
            let program = match compile_regex(pattern.as_str()) {
                Ok(p) => p,
                Err(e) => return Err(e),
            };
            Ok(Query {
                raw: string_of(v.as_slice()),
                regex: true,
                pattern,
                needle: String::new(),
                program,
            })
        } else {
            assert(v@.subrange(0, v@.len() as int) =~= v@);
            Ok(Query {
                raw: string_of(v.as_slice()),
                regex: false,
                pattern: string_of(v.as_slice()),
                needle: str_lowercase(query),
                program: Vec::new(),
            })
        }
    }

    /// Does this line match? Case-insensitive in both modes. In substring
    /// mode the lowercased line must contain the needle; in regex mode the
    /// program must match somewhere in the case-folded line. `Err` is the
    /// regex search budget: a line the engine could not finish searching
    /// is refused, never answered as "no match".
    pub fn matches(&self, line: &str) -> (r: Result<bool, String>)
        ensures
            !self.regex ==> r == Ok::<bool, String>(
                contains_seq(str_lowercase_of(line@), self.needle@),
            ),
            self.regex && r == Ok::<bool, String>(false) ==> !regex_search(
                self.program@,
                fold(line@),
            ),
            self.regex && r == Ok::<bool, String>(true) && wb_seq(self.program@) ==> regex_search(
                self.program@,
                fold(line@),
            ),
            r matches Err(m) ==> self.regex && m@ == "regex "@ + debug_str_of(self.pattern@)
                + " is too complex to finish searching this line within the search budget — refusing to answer from a search it could not complete"@,
            self.regex && fold(line@).len() < usize::MAX && (fold(line@).len() + 1) * cost_seq(
                self.program@,
                fold(line@).len(),
            ) <= REGEX_FUEL ==> r is Ok,
    {
        if self.regex {
            match regex_matches(&self.program, line) {
                Ok(b) => Ok(b),
                Err(()) => {
                    let mut m = String::from_str("regex ");
                    let q = crate::pattern::debug_text(self.pattern.as_str());
                    m.append(q.as_str());
                    m.append(
                        " is too complex to finish searching this line within the search budget — refusing to answer from a search it could not complete",
                    );
                    Err(m)
                },
            }
        } else {
            let lowered = str_lowercase(line);
            let hay = chars_of(lowered.as_str());
            let needle = chars_of(self.needle.as_str());
            Ok(contains_chars(&hay, &needle))
        }
    }
}

/// `text` split at `\n`, without the empty piece a final `\n` leaves.
pub open spec fn lines_split(text: Seq<char>) -> Seq<Seq<char>> {
    let pieces = split_on(text, '\n');
    if pieces.last().len() == 0 {
        pieces.drop_last()
    } else {
        pieces
    }
}

/// Split into lines the way `recall` reads them: at each `\n`, a final
/// terminator not producing an empty last line (`"a\nb"` and `"a\nb\n"`
/// are both two lines).
pub fn split_lines(text: &str) -> (r: Vec<String>)
    ensures
        r@.map_values(|l: String| l@) == lines_split(text@),
{
    let v = chars_of(text);
    let n = v.len();
    let mut out: Vec<String> = Vec::new();
    let mut x: usize = 0;
    let ghost all = split_on(v@, '\n');
    assert(v@.subrange(0, n as int) =~= v@);
    let mut last_empty = false;
    loop
        invariant_except_break
            x <= n,
            all == out@.map_values(|l: String| l@) + split_on(v@.subrange(x as int, n as int), '\n'),
        invariant
            n == v@.len(),
            v@ == text@,
            all == split_on(v@, '\n'),
        ensures
            all == out@.map_values(|l: String| l@),
            out@.len() > 0,
            last_empty == (out@.last()@.len() == 0),
        decreases n - x,
    {
        let ghost s = v@.subrange(x as int, n as int);
        let k = crate::strings::find_at(&v, x, n, '\n');
        proof {
            crate::strings::lemma_find(s, '\n');
        }
        let piece = crate::strings::copy_range(&v, x, x + k);
        let ghost before = out@;
        last_empty = k == 0;
        out.push(string_of(piece.as_slice()));
        proof {
            assert(s.subrange(0, k as int) =~= piece@);
            assert(out@.map_values(|l: String| l@) =~= before.map_values(|l: String| l@).push(
                piece@,
            ));
            if x + k < n {
                assert(s.subrange(k + 1, s.len() as int) =~= v@.subrange(x + k + 1, n as int));
            } else {
                assert(s =~= piece@);
            }
        }
        if x + k >= n {
            break;
        }
        x = x + k + 1;
    }
    if last_empty {
        let ghost before = out@;
        out.pop();
        proof {
            assert(out@.map_values(|l: String| l@) =~= before.map_values(|l: String| l@).drop_last());
        }
    }
    out
}

/// Whether a cached fingerprint still describes the live file: the fields
/// that cost nothing to read (schema version, path, mtime, size, inode)
/// all agree. Any disagreement means a rebuild, never a refusal.
pub fn fingerprints_match(cached: &Fingerprint, live: &Fingerprint) -> (r: bool)
    ensures
        r == (cached.format_version == live.format_version && cached.path@ == live.path@
            && cached.mtime == live.mtime && cached.size == live.size && cached.inode
            == live.inode),
{
    cached.format_version == live.format_version && crate::text::same_text(
        &cached.path,
        &live.path,
    ) && cached.mtime == live.mtime && cached.size == live.size && cached.inode == live.inode
}

/// The entry of the snapshot at root-relative path `path`, if any.
pub open spec fn entry_at(files: Seq<IndexedFile>, path: Seq<char>) -> Option<int> {
    if exists|i: int| 0 <= i < files.len() && (#[trigger] files[i]).fingerprint.path@ == path {
        Some(choose|i: int| 0 <= i < files.len() && (#[trigger] files[i]).fingerprint.path@ == path)
    } else {
        None
    }
}

impl Snapshot {
    /// Root-relative paths strictly increase along the files: each path at
    /// most once, in order.
    pub open spec fn wf(&self) -> bool {
        forall|i: int, j: int|
            0 <= i < j < self.files@.len() ==> crate::text::text_less(
                self.files@[i].fingerprint.path@,
                self.files@[j].fingerprint.path@,
            )
    }

    /// The snapshot with no files.
    pub fn new() -> (r: Snapshot)
        ensures
            r.files@.len() == 0,
            r.wf(),
    {
        Snapshot { files: Vec::new() }
    }

    /// The index of the file at `path`, if the snapshot holds one.
    pub fn find(&self, path: &String) -> (r: Option<usize>)
        ensures
            match r {
                Some(i) => i < self.files@.len() && self.files@[i as int].fingerprint.path@ == path@,
                None => forall|i: int|
                    0 <= i < self.files@.len() ==> self.files@[i].fingerprint.path@ != path@,
            },
    {
        let mut i: usize = 0;
        while i < self.files.len()
            invariant
                i <= self.files@.len(),
                forall|j: int| 0 <= j < i ==> self.files@[j].fingerprint.path@ != path@,
            decreases self.files.len() - i,
        {
            if crate::text::same_text(&self.files[i].fingerprint.path, path) {
                return Some(i);
            }
            i += 1;
        }
        None
    }

    /// Whether this (remembered) snapshot still describes the live files:
    /// every live fingerprint has a cached entry that matches it, and no
    /// file appeared or vanished.
    pub fn still_valid(&self, live: &Vec<Fingerprint>) -> (r: bool)
        requires
            self.wf(),
        ensures
            r == (self.files@.len() == live@.len() && forall|k: int|
                0 <= k < live@.len() ==> has_match(self.files@, #[trigger] live@[k])),
    {
        let mut k: usize = 0;
        while k < live.len()
            invariant
                self.wf(),
                k <= live@.len(),
                forall|kk: int| 0 <= kk < k ==> has_match(self.files@, #[trigger] live@[kk]),
            decreases live.len() - k,
        {
            match self.find(&live[k].path) {
                Some(i) => {
                    if !fingerprints_match(&self.files[i].fingerprint, &live[k]) {
                        proof {
                            assert forall|j: int|
                                0 <= j < self.files@.len() && self.files@[j].fingerprint.path@
                                    == live@[k as int].path@ implies !fingerprint_same(
                                self.files@[j].fingerprint,
                                live@[k as int],
                            ) by {
                                if j != i {
                                    self.lemma_unique(i as int, j);
                                }
                            }
                        }
                        return false;
                    }
                },
                None => {
                    return false;
                },
            }
            k += 1;
        }
        self.files.len() == live.len()
    }

    /// Under [`Snapshot::wf`] no two files share a path.
    proof fn lemma_unique(&self, i: int, j: int)
        requires
            self.wf(),
            0 <= i < self.files@.len(),
            0 <= j < self.files@.len(),
            i != j,
        ensures
            self.files@[i].fingerprint.path@ != self.files@[j].fingerprint.path@,
    {
        if i < j {
            crate::text::lemma_text_less_ne(
                self.files@[i].fingerprint.path@,
                self.files@[j].fingerprint.path@,
            );
        } else {
            crate::text::lemma_text_less_ne(
                self.files@[j].fingerprint.path@,
                self.files@[i].fingerprint.path@,
            );
        }
    }
}

/// The files a snapshot holds, by root-relative path.
pub open spec fn snap_map(files: Seq<IndexedFile>) -> Map<Seq<char>, IndexedFile> {
    Map::new(
        |p: Seq<char>| entry_at(files, p) is Some,
        |p: Seq<char>| files[entry_at(files, p)->0],
    )
}

/// The cache entry for a file whose stat gave `stat` and whose text is
/// `text`: its lines as `recall` splits them, their count recorded in the
/// fingerprint.
pub fn indexed_file(stat: &Fingerprint, text: &str) -> (r: IndexedFile)
    ensures
        r.fingerprint.path@ == stat.path@,
        r.fingerprint.mtime == stat.mtime,
        r.fingerprint.size == stat.size,
        r.fingerprint.inode == stat.inode,
        r.fingerprint.format_version == stat.format_version,
        r.lines@.map_values(|l: String| l@) == lines_split(text@),
        r.fingerprint.line_count == r.lines@.len(),
{
    let lines = split_lines(text);
    let n = lines.len() as u64;
    IndexedFile {
        fingerprint: Fingerprint {
            path: stat.path.clone(),
            mtime: stat.mtime,
            size: stat.size,
            inode: stat.inode,
            line_count: n,
            format_version: stat.format_version,
        },
        lines,
    }
}

impl Snapshot {
    /// Put `f` in the snapshot under its path, replacing the file that was
    /// there (a map insert, kept in path order).
    pub fn insert(&mut self, f: IndexedFile)
        requires
            old(self).wf(),
        ensures
            final(self).wf(),
            snap_map(final(self).files@) == snap_map(old(self).files@).insert(
                f.fingerprint.path@,
                f,
            ),
    {
        let ghost before = self.files@;
        let ghost p = f.fingerprint.path@;
        let mut j: usize = 0;
        while j < self.files.len() && crate::text::text_less_exec(
            &self.files[j].fingerprint.path,
            &f.fingerprint.path,
        )
            invariant
                j <= self.files@.len(),
                self.files@ == before,
                p == f.fingerprint.path@,
                forall|k: int| 0 <= k < j ==> crate::text::text_less(
                    #[trigger] self.files@[k].fingerprint.path@,
                    p,
                ),
            decreases self.files.len() - j,
        {
            j += 1;
        }
        let replace = j < self.files.len() && crate::text::same_text(
            &self.files[j].fingerprint.path,
            &f.fingerprint.path,
        );
        proof {
            // Every file from position `j` on sorts after `p` (or is at `p`).
            assert forall|k: int| j <= k < before.len() implies (#[trigger] before[k]).fingerprint.path@
                == p || crate::text::text_less(p, before[k].fingerprint.path@) by {
                let q = before[k].fingerprint.path@;
                let qj = before[j as int].fingerprint.path@;
                assert(!crate::text::text_less(qj, p));
                if q != p && !crate::text::text_less(p, q) {
                    crate::text::lemma_text_less_total(p, q);
                    if k == j {
                    } else {
                        assert(crate::text::text_less(qj, q));
                        if qj == p {
                            assert(crate::text::text_less(p, q));
                        } else {
                            crate::text::lemma_text_less_total(p, qj);
                            crate::text::lemma_text_less_trans(p, qj, q);
                        }
                    }
                }
            }
        }
        if replace {
            self.files.set(j, f);
            proof {
                let after = self.files@;
                assert forall|a: int, b: int| 0 <= a < b < after.len() implies crate::text::text_less(
                    after[a].fingerprint.path@,
                    after[b].fingerprint.path@,
                ) by {
                    if a == j as int {
                        assert(before[b].fingerprint.path@ == p || crate::text::text_less(
                            p,
                            before[b].fingerprint.path@,
                        ));
                        if before[b].fingerprint.path@ == p {
                            lemma_unique_in(before, j as int, b);
                        }
                    } else if b == j as int {
                    }
                }
                lemma_replace_map(before, j as int, self.files@);
            }
        } else {
            self.files.insert(j, f);
            proof {
                let after = self.files@;
                assert forall|a: int, b: int| 0 <= a < b < after.len() implies crate::text::text_less(
                    after[a].fingerprint.path@,
                    after[b].fingerprint.path@,
                ) by {
                    if a < j && b == j as int {
                    } else if a < j && b > j {
                        assert(after[b] == before[b - 1]);
                        assert(crate::text::text_less(before[a].fingerprint.path@, p));
                        let q = before[b - 1].fingerprint.path@;
                        if q == p {
                            assert(before[j as int].fingerprint.path@ != p);
                            lemma_unique_in(before, j as int, b - 1);
                        }
                        crate::text::lemma_text_less_trans(before[a].fingerprint.path@, p, q);
                    } else if a == j && b > j {
                        assert(after[b] == before[b - 1]);
                        let q = before[b - 1].fingerprint.path@;
                        if q == p {
                            assert(before[j as int].fingerprint.path@ != p);
                            lemma_unique_in(before, j as int, b - 1);
                        }
                    } else if a > j {
                        assert(after[a] == before[a - 1]);
                        assert(after[b] == before[b - 1]);
                    }
                }
                lemma_insert_map(before, j as int, self.files@);
            }
        }
    }

    /// Build the snapshot of a list of cache entries, a later entry for a
    /// path replacing an earlier one.
    pub fn build(entries: Vec<IndexedFile>) -> (r: Snapshot)
        ensures
            r.wf(),
            snap_map(r.files@) == entries@.fold_left(
                Map::<Seq<char>, IndexedFile>::empty(),
                |m: Map<Seq<char>, IndexedFile>, e: IndexedFile| m.insert(e.fingerprint.path@, e),
            ),
    {
        let mut snap = Snapshot::new();
        let mut entries = entries;
        let ghost all = entries@;
        let n = entries.len();
        let mut k: usize = 0;
        proof {
            assert(all.skip(0) =~= all);
            assert(snap_map(snap.files@) =~= Map::<Seq<char>, IndexedFile>::empty());
            assert(all.take(0) =~= Seq::<IndexedFile>::empty());
        }
        while k < n
            invariant
                n == all.len(),
                k <= all.len(),
                entries@ == all.skip(k as int),
                snap.wf(),
                snap_map(snap.files@) == all.take(k as int).fold_left(
                    Map::<Seq<char>, IndexedFile>::empty(),
                    |m: Map<Seq<char>, IndexedFile>, e: IndexedFile| m.insert(e.fingerprint.path@, e),
                ),
            decreases all.len() - k,
        {
            let e = entries.remove(0);
            proof {
                assert(e == all[k as int]);
            }
            snap.insert(e);
            proof {
                assert(all.take(k + 1).drop_last() =~= all.take(k as int));
                assert(entries@ =~= all.skip(k + 1));
            }
            k += 1;
        }
        proof {
            assert(all.take(all.len() as int) =~= all);
        }
        snap
    }
}

/// Root-relative paths strictly increase along `files`.
pub open spec fn sorted_paths(files: Seq<IndexedFile>) -> bool {
    forall|i: int, j: int|
        0 <= i < j < files.len() ==> crate::text::text_less(
            files[i].fingerprint.path@,
            files[j].fingerprint.path@,
        )
}

/// In sorted files no two share a path.
proof fn lemma_unique_in(files: Seq<IndexedFile>, i: int, j: int)
    requires
        sorted_paths(files),
        0 <= i < files.len(),
        0 <= j < files.len(),
        i != j,
    ensures
        files[i].fingerprint.path@ != files[j].fingerprint.path@,
{
    if i < j {
        crate::text::lemma_text_less_ne(files[i].fingerprint.path@, files[j].fingerprint.path@);
    } else {
        crate::text::lemma_text_less_ne(files[j].fingerprint.path@, files[i].fingerprint.path@);
    }
}

/// In sorted files a path is found at its one position.
proof fn lemma_entry_in(files: Seq<IndexedFile>, i: int)
    requires
        sorted_paths(files),
        0 <= i < files.len(),
    ensures
        entry_at(files, files[i].fingerprint.path@) == Some(i),
{
    let p = files[i].fingerprint.path@;
    assert(files[i].fingerprint.path@ == p);
    let e = entry_at(files, p);
    let k = e->0;
    if k != i {
        lemma_unique_in(files, i, k);
    }
}

/// Replacing the file at a position by one with the same path updates
/// that path alone.
proof fn lemma_replace_map(before: Seq<IndexedFile>, j: int, after: Seq<IndexedFile>)
    requires
        sorted_paths(before),
        sorted_paths(after),
        0 <= j < before.len(),
        after.len() == before.len(),
        after[j].fingerprint.path@ == before[j].fingerprint.path@,
        forall|k: int| 0 <= k < before.len() && k != j ==> after[k] == before[k],
    ensures
        snap_map(after) == snap_map(before).insert(after[j].fingerprint.path@, after[j]),
{
    let p = after[j].fingerprint.path@;
    lemma_entry_in(after, j);
    lemma_entry_in(before, j);
    assert forall|q: Seq<char>| #[trigger] snap_map(after).contains_key(q) <==> snap_map(
        before,
    ).insert(p, after[j]).contains_key(q) by {
        if entry_at(after, q) is Some {
            let k = entry_at(after, q)->0;
            if k != j {
                assert(before[k] == after[k]);
                lemma_entry_in(before, k);
            }
        }
        if entry_at(before, q) is Some {
            let k = entry_at(before, q)->0;
            if k != j {
                assert(before[k] == after[k]);
                lemma_entry_in(after, k);
            }
        }
    }
    assert forall|q: Seq<char>| #[trigger] snap_map(after).contains_key(q) implies snap_map(
        after,
    )[q] == snap_map(before).insert(p, after[j])[q] by {
        let k = entry_at(after, q)->0;
        if q != p {
            assert(k != j);
            assert(before[k] == after[k]);
            lemma_entry_in(before, k);
        }
    }
    assert(snap_map(after) =~= snap_map(before).insert(p, after[j]));
}

/// Inserting a file with a new path at a position adds that path alone.
proof fn lemma_insert_map(before: Seq<IndexedFile>, j: int, after: Seq<IndexedFile>)
    requires
        sorted_paths(before),
        sorted_paths(after),
        0 <= j <= before.len(),
        after == before.insert(j, after[j]),
    ensures
        snap_map(after) == snap_map(before).insert(after[j].fingerprint.path@, after[j]),
{
    let p = after[j].fingerprint.path@;
    lemma_entry_in(after, j);
    assert forall|q: Seq<char>| #[trigger] snap_map(after).contains_key(q) <==> snap_map(
        before,
    ).insert(p, after[j]).contains_key(q) by {
        if entry_at(after, q) is Some {
            let k = entry_at(after, q)->0;
            if k < j {
                assert(after[k] == before[k]);
                lemma_entry_in(before, k);
            } else if k > j {
                assert(after[k] == before[k - 1]);
                lemma_entry_in(before, k - 1);
            }
        }
        if entry_at(before, q) is Some {
            let k = entry_at(before, q)->0;
            if k < j {
                assert(after[k] == before[k]);
                lemma_entry_in(after, k);
            } else {
                assert(after[k + 1] == before[k]);
                lemma_entry_in(after, k + 1);
            }
        }
    }
    assert forall|q: Seq<char>| #[trigger] snap_map(after).contains_key(q) implies snap_map(
        after,
    )[q] == snap_map(before).insert(p, after[j])[q] by {
        let k = entry_at(after, q)->0;
        if q != p {
            assert(k != j);
            if k < j {
                assert(after[k] == before[k]);
                lemma_entry_in(before, k);
            } else {
                assert(after[k] == before[k - 1]);
                lemma_entry_in(before, k - 1);
            }
        }
    }
    assert(snap_map(after) =~= snap_map(before).insert(p, after[j]));
}

/// The in-process memo: the snapshot last built for each root (by its
/// canonical path).
pub struct Memo {
    pub entries: Vec<(String, Snapshot)>,
}

impl Memo {
    /// Each root once, each snapshot well formed.
    pub open spec fn wf(&self) -> bool {
        &&& unique_keys(keys_of(self.entries@))
        &&& forall|i: int| 0 <= i < self.entries@.len() ==> (#[trigger] self.entries@[i]).1.wf()
    }

    /// The memo as a map from root to snapshot.
    pub open spec fn view(&self) -> Map<Seq<char>, Snapshot> {
        pair_map(self.entries@)
    }

    /// An empty memo.
    pub fn new() -> (r: Memo)
        ensures
            r.wf(),
            r@ == Map::<Seq<char>, Snapshot>::empty(),
    {
        let r = Memo { entries: Vec::new() };
        assert(pair_map(r.entries@) =~= Map::<Seq<char>, Snapshot>::empty());
        r
    }

    /// Remember `snap` as the snapshot of `root`.
    pub fn remember(&mut self, root: &String, snap: Snapshot)
        requires
            old(self).wf(),
            snap.wf(),
        ensures
            final(self).wf(),
            final(self)@ == old(self)@.insert(root@, snap),
    {
        let ghost before = self.entries@;
        match Sessions::find_key(&self.entries, root) {
            Some(i) => {
                self.entries.set(i, (root.clone(), snap));
                proof {
                    lemma_set_pair(before, i as int, root@, self.entries@);
                }
            },
            None => {
                self.entries.push((root.clone(), snap));
                proof {
                    lemma_push_pair(before, root@, self.entries@);
                }
            },
        }
        proof {
            assert forall|i: int| 0 <= i < self.entries@.len() implies (#[trigger] self.entries@[
                i
            ]).1.wf() by {
                if i < before.len() && self.entries@[i] == before[i] {
                }
            }
        }
    }

    /// The snapshot remembered for `root`, if any.
    pub fn get(&self, root: &String) -> (r: Option<&Snapshot>)
        requires
            self.wf(),
        ensures
            match r {
                Some(s) => self@.contains_key(root@) && self@[root@] == *s && s.wf(),
                None => !self@.contains_key(root@),
            },
    {
        match Sessions::find_key(&self.entries, root) {
            Some(i) => {
                proof {
                    lemma_index_of_unique(keys_of(self.entries@), i as int);
                }
                Some(&self.entries[i].1)
            },
            None => None,
        }
    }
}

/// Forget the snapshot remembered for `root`: writers may call it after a
/// write; correctness never rests on it, since every snapshot is
/// validated against the live files before it is served.
pub fn invalidate(memo: &mut Memo, root: &String)
    requires
        old(memo).wf(),
    ensures
        final(memo).wf(),
        final(memo)@ == old(memo)@.remove(root@),
{
    let ghost before = memo.entries@;
    match Sessions::find_key(&memo.entries, root) {
        Some(i) => {
            proof {
                lemma_remove_pair(before, i as int);
                assert(before[i as int].0@ == root@);
            }
            memo.entries.remove(i);
            proof {
                assert forall|j: int| 0 <= j < memo.entries@.len() implies (#[trigger] memo.entries@[
                    j
                ]).1.wf() by {
                    if j < i {
                        assert(memo.entries@[j] == before[j]);
                    } else {
                        assert(memo.entries@[j] == before[j + 1]);
                    }
                }
            }
        },
        None => {
            proof {
                assert(pair_map(before).remove(root@) =~= pair_map(before));
            }
        },
    }
}

/// The validated memo hit for this call: the snapshot remembered for
/// `root` when the memo is in use and that snapshot still describes every
/// live file (see [`Snapshot::still_valid`]); `None` means a full rebuild
/// from disk.
pub fn snapshot_with<'a>(use_memo: bool, memo: &'a Memo, root: &String, live: &Vec<Fingerprint>) -> (r:
    Option<&'a Snapshot>)
    requires
        memo.wf(),
    ensures
        match r {
            Some(s) => use_memo && memo@.contains_key(root@) && memo@[root@] == *s && s.wf()
                && s.files@.len() == live@.len() && forall|k: int|
                0 <= k < live@.len() ==> has_match(s.files@, #[trigger] live@[k]),
            None => !use_memo || !memo@.contains_key(root@) || !(memo@[root@].files@.len()
                == live@.len() && forall|k: int|
                0 <= k < live@.len() ==> has_match(memo@[root@].files@, #[trigger] live@[k])),
        },
{
    if !use_memo {
        return None;
    }
    match memo.get(root) {
        Some(s) => {
            if s.still_valid(live) {
                Some(s)
            } else {
                None
            }
        },
        None => None,
    }
}

/// Some cached file carries the live file's path and a fingerprint that
/// matches it.
pub open spec fn has_match(files: Seq<IndexedFile>, live: Fingerprint) -> bool {
    exists|i: int|
        #![trigger files[i]]
        0 <= i < files.len() && files[i].fingerprint.path@ == live.path@ && fingerprint_same(
            files[i].fingerprint,
            live,
        )
}

/// The validation comparison of [`fingerprints_match`], as a predicate.
pub open spec fn fingerprint_same(cached: Fingerprint, live: Fingerprint) -> bool {
    cached.format_version == live.format_version && cached.path@ == live.path@ && cached.mtime
        == live.mtime && cached.size == live.size && cached.inode == live.inode
}

/// The answer a query owes for a line: in substring mode, whether the
/// lowercased line contains the needle; in regex mode, whether the program
/// matches somewhere in the case-folded line.
pub open spec fn query_hit(q: Query, line: Seq<char>) -> bool {
    if q.regex {
        regex_search(q.program@, fold(line))
    } else {
        contains_seq(str_lowercase_of(line), q.needle@)
    }
}

/// The queries whose answers [`Query::matches`] pins down: substring
/// queries, and regex queries whose repetitions have non-empty count
/// ranges.
pub open spec fn exact_query(q: Query) -> bool {
    !q.regex || wb_seq(q.program@)
}

/// The numbers of the first `n` lines that hit, in order.
pub open spec fn hit_lines(q: Query, lines: Seq<String>, n: int) -> Seq<usize>
    decreases n,
{
    if n <= 0 {
        Seq::empty()
    } else {
        let prev = hit_lines(q, lines, n - 1);
        if query_hit(q, lines[n - 1]@) {
            prev.push((n - 1) as usize)
        } else {
            prev
        }
    }
}

/// The candidates of the snapshot `snap` among the first `m` bucket files:
/// each cached file with at least one hit, as its path and hit lines, in
/// bucket order.
pub open spec fn cands(snap: Seq<IndexedFile>, files: Seq<BucketFile>, q: Query, m: int) -> Seq<
    (Seq<char>, Seq<usize>),
>
    decreases m,
{
    if m <= 0 {
        Seq::empty()
    } else {
        let prev = cands(snap, files, q, m - 1);
        let f = files[m - 1];
        match entry_at(snap, f.rel@) {
            None => prev,
            Some(i) => {
                let h = hit_lines(q, snap[i].lines@, snap[i].lines@.len() as int);
                if h.len() > 0 {
                    prev.push((f.rel@, h))
                } else {
                    prev
                }
            },
        }
    }
}

/// What a candidate names: its file's path and its line numbers.
pub open spec fn cand_view(c: Candidate) -> (Seq<char>, Seq<usize>) {
    (c.file.rel@, c.lines@)
}

impl Snapshot {
    /// Under [`Snapshot::wf`], the entry at a path is the one file with it.
    proof fn lemma_entry_at(&self, i: int)
        requires
            self.wf(),
            0 <= i < self.files@.len(),
        ensures
            entry_at(self.files@, self.files@[i].fingerprint.path@) == Some(i),
    {
        let p = self.files@[i].fingerprint.path@;
        assert(self.files@[i].fingerprint.path@ == p);
        let e = entry_at(self.files@, p);
        assert(e is Some);
        let j = e->0;
        assert(0 <= j < self.files@.len() && self.files@[j].fingerprint.path@ == p);
        if j != i {
            self.lemma_unique(i, j);
        }
    }

    /// Narrow the search: the bucket files the snapshot holds whose indexed
    /// lines carry a match, with the matching line numbers, in bucket
    /// order. `recall` still re-reads every candidate and decides against
    /// the live bytes. `Err` is a line the regex engine could not finish.
    pub fn candidates(&self, files: &Vec<BucketFile>, query: &Query) -> (r: Result<
        Vec<Candidate>,
        String,
    >)
        requires
            self.wf(),
        ensures
            exact_query(*query) ==> (r matches Ok(out) ==> out@.map_values(
                |c: Candidate| cand_view(c),
            ) == cands(self.files@, files@, *query, files@.len() as int)),
            r matches Err(m) ==> query.regex && m@ == "regex "@ + debug_str_of(query.pattern@)
                + " is too complex to finish searching this line within the search budget — refusing to answer from a search it could not complete"@,
    {
        let mut out: Vec<Candidate> = Vec::new();
        let mut k: usize = 0;
        while k < files.len()
            invariant
                self.wf(),
                k <= files@.len(),
                exact_query(*query) ==> out@.map_values(|c: Candidate| cand_view(c)) == cands(
                    self.files@,
                    files@,
                    *query,
                    k as int,
                ),
            decreases files.len() - k,
        {
            let file = &files[k];
            let ghost before = out@;
            match self.find(&file.rel) {
                None => {
                    proof {
                        if exists|i: int|
                            0 <= i < self.files@.len() && (#[trigger] self.files@[i]).fingerprint.path@
                                == file.rel@ {
                            let i = choose|i: int|
                                0 <= i < self.files@.len() && (#[trigger] self.files@[i]).fingerprint.path@
                                    == file.rel@;
                            assert(false);
                        }
                    }
                },
                Some(i) => {
                    proof {
                        self.lemma_entry_at(i as int);
                    }
                    let indexed = &self.files[i];
                    let mut lines: Vec<usize> = Vec::new();
                    let mut n: usize = 0;
                    while n < indexed.lines.len()
                        invariant
                            n <= indexed.lines@.len(),
                            exact_query(*query) ==> lines@ == hit_lines(
                                *query,
                                indexed.lines@,
                                n as int,
                            ),
                        decreases indexed.lines.len() - n,
                    {
                        let hit = match query.matches(indexed.lines[n].as_str()) {
                            Ok(b) => b,
                            Err(e) => return Err(e),
                        };
                        if hit {
                            lines.push(n);
                        }
                        n += 1;
                    }
                    if lines.len() > 0 {
                        let rel = file.rel.clone();
                        let abs = file.abs.clone();
                        out.push(Candidate { file: BucketFile { rel, abs }, lines });
                        proof {
                            assert(out@.map_values(|c: Candidate| cand_view(c)) =~= before.map_values(
                                |c: Candidate| cand_view(c),
                            ).push(cand_view(out@.last())));
                        }
                    }
                },
            }
            k += 1;
        }
        Ok(out)
    }
}

/// One entry of a directory listing: its name, and whether it is a regular
/// file (a symlink is not, whatever it points at).
#[derive(Clone, Debug)]
pub struct DirEntryInfo {
    pub name: String,
    pub regular: bool,
}

/// Whether `name` is a brief: a `.md` file that is not hidden.
pub open spec fn is_brief_name(name: Seq<char>) -> bool {
    name.len() >= 3 && name.subrange(name.len() - 3, name.len() as int) == seq!['.', 'm', 'd']
        && !(name.len() > 0 && name[0] == '.')
}

/// The names of the regular day files among `es`, in listing order.
pub open spec fn day_names(es: Seq<DirEntryInfo>) -> Seq<Seq<char>>
    decreases es.len(),
{
    if es.len() == 0 {
        Seq::empty()
    } else {
        let prev = day_names(es.drop_last());
        let e = es.last();
        if e.regular && crate::calendar::dayfile_name(e.name@) {
            prev.push(e.name@)
        } else {
            prev
        }
    }
}

/// The names of the regular briefs among `es`, in listing order.
pub open spec fn brief_names(es: Seq<DirEntryInfo>) -> Seq<Seq<char>>
    decreases es.len(),
{
    if es.len() == 0 {
        Seq::empty()
    } else {
        let prev = brief_names(es.drop_last());
        let e = es.last();
        if e.regular && is_brief_name(e.name@) {
            prev.push(e.name@)
        } else {
            prev
        }
    }
}

/// The bucket path of the brief `name`.
pub open spec fn brief_path(name: Seq<char>) -> Seq<char> {
    seq!['b', 'r', 'i', 'e', 'f', 's', '/'] + name
}

/// Whether a scope searches `signoff.md`, the day files, the briefs.
pub open spec fn scope_has(scope: Scope, bucket: Scope) -> bool {
    scope == bucket || scope == Scope::All
}

/// The root-relative bucket paths a scope searches, in reporting order:
/// `signoff.md` (when it is a readable file), then the day files by name,
/// then the briefs by name.
pub open spec fn buckets(
    scope: Scope,
    signoff_readable: bool,
    root: Seq<DirEntryInfo>,
    briefs: Option<Seq<DirEntryInfo>>,
) -> Seq<Seq<char>> {
    let sig: Seq<Seq<char>> = if scope_has(scope, Scope::Signoff) && signoff_readable {
        seq![seq!['s', 'i', 'g', 'n', 'o', 'f', 'f', '.', 'm', 'd']]
    } else {
        Seq::empty()
    };
    let days: Seq<Seq<char>> = if scope_has(scope, Scope::Dayfile) {
        day_names(root).sort_by(crate::text::text_le())
    } else {
        Seq::empty()
    };
    let bs: Seq<Seq<char>> = match briefs {
        Some(b) => if scope_has(scope, Scope::Briefs) {
            brief_names(b).sort_by(crate::text::text_le()).map_values(|n: Seq<char>| brief_path(n))
        } else {
            Seq::empty()
        },
        None => Seq::empty(),
    };
    sig + days + bs
}

/// The signoff bucket: `signoff.md`, when it is a readable file.
pub open spec fn signoff_bucket(signoff_readable: bool) -> Seq<Seq<char>> {
    if signoff_readable {
        seq!["signoff.md"@]
    } else {
        Seq::empty()
    }
}

/// The day-file bucket: the regular day files of the root, by name.
pub open spec fn dayfile_bucket(root: Seq<DirEntryInfo>) -> Seq<Seq<char>> {
    day_names(root).sort_by(crate::text::text_le())
}

/// The briefs bucket: the regular, non-hidden `.md` files of `briefs/`, by
/// name, each as `briefs/<name>`; nothing when there is no such directory.
pub open spec fn briefs_bucket(briefs: Option<Seq<DirEntryInfo>>) -> Seq<Seq<char>> {
    match briefs {
        Some(b) => brief_names(b).sort_by(crate::text::text_le()).map_values(
            |n: Seq<char>| seq!['b', 'r', 'i', 'e', 'f', 's', '/'] + n,
        ),
        None => Seq::empty(),
    }
}

/// Whether `name` is a brief's file name.
fn is_brief_name_exec(name: &String) -> (r: bool)
    ensures
        r == is_brief_name(name@),
{
    let v = chars_of(name.as_str());
    let n = v.len();
    if n < 3 {
        return false;
    }
    let md = vec!['.', 'm', 'd'];
    let ends = crate::strings::starts_with_at(&v, n - 3, n, &md);
    proof {
        assert(v@.subrange((n - 3) as int, n as int).subrange(0, 3) =~= v@.subrange(
            (n - 3) as int,
            n as int,
        ));
    }
    ends && v[0] != '.'
}

/// The entries of a listing that pass `keep`, as names, in listing order.
fn kept_names(es: &Vec<DirEntryInfo>, days: bool) -> (r: Vec<String>)
    ensures
        days ==> crate::text::texts(r@) == day_names(es@),
        !days ==> crate::text::texts(r@) == brief_names(es@),
{
    let mut r: Vec<String> = Vec::new();
    let mut k: usize = 0;
    while k < es.len()
        invariant
            k <= es@.len(),
            days ==> crate::text::texts(r@) == day_names(es@.subrange(0, k as int)),
            !days ==> crate::text::texts(r@) == brief_names(es@.subrange(0, k as int)),
        decreases es.len() - k,
    {
        let e = &es[k];
        let keep = if days {
            e.regular && crate::calendar::is_dayfile_name(e.name.as_str())
        } else {
            e.regular && is_brief_name_exec(&e.name)
        };
        let ghost before = r@;
        if keep {
            r.push(e.name.clone());
        }
        proof {
            let pre = es@.subrange(0, k as int);
            let now = es@.subrange(0, k + 1);
            assert(now.drop_last() =~= pre);
            assert(now.last() == es@[k as int]);
            if keep {
                assert(crate::text::texts(r@) =~= crate::text::texts(before).push(e.name@));
            }
        }
        k += 1;
    }
    assert(es@.subrange(0, es@.len() as int) =~= es@);
    r
}

/// Enumerate the fixed buckets of a scope from what the caller listed:
/// whether `signoff.md` is a readable file, the root's entries, and the
/// entries of `briefs/` (`None` when there is no such directory). The
/// result is the root-relative paths in reporting order; the caller
/// resolves each and refuses one that escapes the root.
pub fn bucket_files(
    scope: Scope,
    signoff_readable: bool,
    root: &Vec<DirEntryInfo>,
    briefs: &Option<Vec<DirEntryInfo>>,
) -> (r: Vec<String>)
    ensures
        crate::text::texts(r@) == buckets(
            scope,
            signoff_readable,
            root@,
            match briefs {
                Some(b) => Some(b@),
                None => None,
            },
        ),
        scope == Scope::Signoff ==> crate::text::texts(r@) == signoff_bucket(signoff_readable),
        scope == Scope::Dayfile ==> crate::text::texts(r@) == dayfile_bucket(root@),
        scope == Scope::Briefs ==> crate::text::texts(r@) == briefs_bucket(
            match briefs {
                Some(b) => Some(b@),
                None => None,
            },
        ),
        scope == Scope::All ==> crate::text::texts(r@) == signoff_bucket(signoff_readable)
            + dayfile_bucket(root@) + briefs_bucket(
            match briefs {
                Some(b) => Some(b@),
                None => None,
            },
        ),
{
    let mut out: Vec<String> = Vec::new();
    let ghost bv = match briefs {
        Some(b) => Some(b@),
        None => None::<Seq<DirEntryInfo>>,
    };
    if (scope == Scope::Signoff || scope == Scope::All) && signoff_readable {
        let s = String::from_str("signoff.md");
        proof {
            reveal_strlit("signoff.md");
            assert("signoff.md"@ =~= seq!['s', 'i', 'g', 'n', 'o', 'f', 'f', '.', 'm', 'd']);
        }
        out.push(s);
    }
    let ghost sig = crate::text::texts(out@);
    let mut days: Vec<String> = Vec::new();
    if scope == Scope::Dayfile || scope == Scope::All {
        let names = kept_names(root, true);
        days = crate::text::sort_texts(names);
        proof {
            crate::text::lemma_sorted_is_sort(crate::text::texts(days@), day_names(root@));
        }
    }
    let ghost dv = crate::text::texts(days@);
    let ghost o1 = out@;
    let ghost dvv = days@;
    out.append(&mut days);
    assert(crate::text::texts(out@) =~= sig + dv) by {
        assert(out@ =~= o1 + dvv);
    }
    let mut bpaths: Vec<String> = Vec::new();
    if scope == Scope::Briefs || scope == Scope::All {
        match briefs {
            Some(b) => {
                let names = kept_names(b, false);
                let sorted = crate::text::sort_texts(names);
                proof {
                    crate::text::lemma_sorted_is_sort(crate::text::texts(sorted@), brief_names(b@));
                }
                let mut i: usize = 0;
                while i < sorted.len()
                    invariant
                        i <= sorted@.len(),
                        crate::text::texts(bpaths@) == crate::text::texts(sorted@).subrange(
                            0,
                            i as int,
                        ).map_values(|n: Seq<char>| brief_path(n)),
                    decreases sorted.len() - i,
                {
                    let mut p = String::from_str("briefs/");
                    proof {
                        reveal_strlit("briefs/");
                        assert("briefs/"@ =~= seq!['b', 'r', 'i', 'e', 'f', 's', '/']);
                    }
                    p.append(sorted[i].as_str());
                    assert(p@ =~= brief_path(sorted@[i as int]@));
                    let ghost before = bpaths@;
                    bpaths.push(p);
                    proof {
                        assert(crate::text::texts(bpaths@) =~= crate::text::texts(before).push(
                            brief_path(sorted@[i as int]@),
                        ));
                        assert(crate::text::texts(sorted@).subrange(0, i + 1).map_values(
                            |n: Seq<char>| brief_path(n),
                        ) =~= crate::text::texts(sorted@).subrange(0, i as int).map_values(
                            |n: Seq<char>| brief_path(n),
                        ).push(brief_path(sorted@[i as int]@)));
                    }
                    i += 1;
                }
                assert(crate::text::texts(sorted@).subrange(0, sorted@.len() as int)
                    =~= crate::text::texts(sorted@));
            },
            None => {},
        }
    }
    let ghost bp = crate::text::texts(bpaths@);
    let ghost o2 = out@;
    let ghost bpv = bpaths@;
    out.append(&mut bpaths);
    assert(crate::text::texts(out@) =~= sig + dv + bp) by {
        assert(out@ =~= o2 + bpv);
    }
    proof {
        reveal_strlit("signoff.md");
        assert("signoff.md"@ =~= seq!['s', 'i', 'g', 'n', 'o', 'f', 'f', '.', 'm', 'd']);
        let bb = briefs_bucket(bv);
        let bs: Seq<Seq<char>> = match bv {
            Some(b) => if scope_has(scope, Scope::Briefs) {
                brief_names(b).sort_by(crate::text::text_le()).map_values(|n: Seq<char>| brief_path(n))
            } else {
                Seq::empty()
            },
            None => Seq::empty(),
        };
        if scope_has(scope, Scope::Briefs) {
            assert(bs =~= bb);
        }
        if scope == Scope::Signoff || scope == Scope::Dayfile {
            assert(bs =~= Seq::<Seq<char>>::empty());
        }
        let sg: Seq<Seq<char>> = if scope_has(scope, Scope::Signoff) && signoff_readable {
            seq![seq!['s', 'i', 'g', 'n', 'o', 'f', 'f', '.', 'm', 'd']]
        } else {
            Seq::empty()
        };
        let ds: Seq<Seq<char>> = if scope_has(scope, Scope::Dayfile) {
            day_names(root@).sort_by(crate::text::text_le())
        } else {
            Seq::empty()
        };
        assert(crate::text::texts(out@) == sg + ds + bs);
        if scope == Scope::Signoff {
            assert(sg + ds + bs =~= signoff_bucket(signoff_readable));
        }
        if scope == Scope::Dayfile {
            assert(sg + ds + bs =~= dayfile_bucket(root@));
        }
        if scope == Scope::Briefs {
            assert(sg + ds + bs =~= bb);
        }
    }
    out
}

} // verus!
