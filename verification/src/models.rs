//! The memory store's records: a note's front-matter metadata, the
//! observations parsed out of its body, and the note itself.
use vstd::prelude::*;


verus! {

/// The YAML front matter of a note. Every field is optional.
#[derive(Debug, Clone)]
pub struct NoteMetadata {
    pub title: Option<String>,
    pub date: Option<String>,
    /// The note's `type` key.
    pub note_type: Option<String>,
    pub tags: Option<Vec<String>>,
    pub archived: Option<bool>,
}

/// One observation line of a note (`- [category] text #tag`), with the
/// heading context it appeared under.
#[derive(Debug, Clone)]
pub struct Observation {
    pub id: String,
    pub note_id: String,
    pub timestamp: String,
    pub section: Option<String>,
    pub category: Option<String>,
    pub content: String,
    pub full_context: String,
    pub tags: Vec<String>,
}

/// A daily note with its metadata and observations.
#[derive(Debug, Clone)]
pub struct Note {
    pub id: String,
    pub date: String,
    pub metadata: NoteMetadata,
    pub content: String,
    pub observations: Vec<Observation>,
    pub created_at: i64,
    pub updated_at: i64,
    pub archived: bool,
}

impl Default for NoteMetadata {
    /// Metadata with no field set.
    fn default() -> (r: Self)
        ensures
            r.title is None,
            r.date is None,
            r.note_type is None,
            r.tags is None,
            r.archived is None,
    {
        NoteMetadata { title: None, date: None, note_type: None, tags: None, archived: None }
    }
}

/// The index of the first occurrence of `p` in `s` at or after `i`, or
/// `s.len()` when there is none.
pub open spec fn find_seq_from(s: Seq<char>, p: Seq<char>, i: int) -> int
    decreases s.len() - i,
{
    if i < 0 || i + p.len() > s.len() {
        s.len() as int
    } else if p.len() == 0 || s.subrange(i, i + p.len()) == p {
        i
    } else {
        find_seq_from(s, p, i + 1)
    }
}

/// The front-matter block of `text`: what lies between the first `---` and
/// the next `---` after it, when there are two.
pub open spec fn frontmatter_of(text: Seq<char>) -> Option<Seq<char>> {
    let dashes = seq!['-', '-', '-'];
    let start = find_seq_from(text, dashes, 0);
    if start >= text.len() {
        None
    } else {
        let rest = text.subrange(start + 3, text.len() as int);
        let end = find_seq_from(rest, dashes, 0);
        if end >= rest.len() {
            None
        } else {
            Some(rest.subrange(0, end))
        }
    }
}

/// `find_seq_from` is the first match at or after `i`.
pub proof fn lemma_find_seq_from(s: Seq<char>, p: Seq<char>, i: int)
    requires
        0 <= i,
    ensures
        find_seq_from(s, p, i) == s.len() || (i <= find_seq_from(s, p, i) && find_seq_from(s, p, i)
            + p.len() <= s.len()),
        find_seq_from(s, p, i) < s.len() && p.len() > 0 ==> s.subrange(
            find_seq_from(s, p, i),
            find_seq_from(s, p, i) + p.len(),
        ) == p,
    decreases s.len() - i,
{
    if !(i + p.len() > s.len()) && p.len() > 0 && s.subrange(i, i + p.len()) != p {
        lemma_find_seq_from(s, p, i + 1);
    }
}

/// The first position at or after `i` where `p` occurs in `v`, or `v.len()`.
pub fn find_seq_exec(v: &Vec<char>, p: &Vec<char>, i: usize) -> (r: usize)
    requires
        i <= v@.len(),
    ensures
        r == find_seq_from(v@, p@, i as int),
{
    if p.len() == 0 {
        return i;
    }
    let mut j = i;
    while p.len() <= v.len() - j
        invariant
            i <= j <= v@.len(),
            p@.len() > 0,
            find_seq_from(v@, p@, i as int) == find_seq_from(v@, p@, j as int),
        decreases v@.len() - j,
    {
        if crate::strings::starts_with_at(v, j, v.len(), p) {
            assert(v@.subrange(j as int, v@.len() as int).subrange(0, p@.len() as int) =~= v@.subrange(
                j as int,
                j + p@.len(),
            ));
            return j;
        }
        assert(v@.subrange(j as int, v@.len() as int).subrange(0, p@.len() as int) =~= v@.subrange(
            j as int,
            j + p@.len(),
        ));
        j += 1;
    }
    v.len()
}

impl NoteMetadata {
    /// The front-matter block of a note: the text between its first `---`
    /// and the `---` after that, or `None` when the note has no such block
    /// (its metadata is then the default).
    pub fn frontmatter_block(text: &str) -> (r: Option<String>)
        ensures
            match r {
                Some(b) => frontmatter_of(text@) == Some(b@),
                None => frontmatter_of(text@) is None,
            },
    {
        let v = crate::text::chars_of(text);
        let dashes = vec!['-', '-', '-'];
        let start = find_seq_exec(&v, &dashes, 0);
        proof {
            lemma_find_seq_from(v@, dashes@, 0);
        }
        if start >= v.len() {
            return None;
        }
        let rest = crate::strings::copy_range(&v, start + 3, v.len());
        let end = find_seq_exec(&rest, &dashes, 0);
        proof {
            lemma_find_seq_from(rest@, dashes@, 0);
        }
        if end >= rest.len() {
            return None;
        }
        let block = crate::strings::copy_range(&rest, 0, end);
        Some(crate::text::string_of(block.as_slice()))
    }
}

} // verus!
