//! Where the memory root is, and the root's init fingerprint: the
//! precedence of the root's sources, the one-key config file, the `~`
//! forms, the `+HHMM` offset format, and the verdict on an existing
//! fingerprint.
use vstd::prelude::*;

use crate::file_parser::{lines_of, text_lines};
use crate::index::contains_seq;
use crate::strings::{find, find_at, trim, trim_bounds};
use crate::pattern::debug_str_of;
use crate::text::{all_digits, chars_of, digits_value, padded, string_of, texts};

verus! {

/// The command line's say in the root: the value of `--root`, if given.
#[derive(Clone, Debug, Default)]
pub struct ConfigArgs {
    pub cli_root: Option<String>,
}

/// The embedding model of the note store.
#[derive(Clone, Debug)]
pub struct EmbeddingConfig {
    pub model: String,
    pub model_path: String,
    pub dimension: usize,
}

/// How many notes a search returns: by default, and at most.
#[derive(Clone, Debug)]
pub struct SearchConfig {
    pub default_limit: usize,
    pub max_limit: usize,
}

/// The settings of the note store: its directory and database under the
/// home directory (written with `~`), the embedding model, and the search
/// limits.
#[derive(Clone, Debug)]
pub struct Config {
    pub memory_dir: String,
    pub db_path: String,
    pub embedding: EmbeddingConfig,
    pub search: SearchConfig,
}

impl Default for Config {
    fn default() -> (r: Config)
        ensures
            r.memory_dir@ == "~/.total-recall"@,
            r.db_path@ == "~/.total-recall/memory.db"@,
            r.embedding.model@ == "Snowflake/snowflake-arctic-embed-l-v2.0"@,
            r.embedding.model_path@ == "/data/models/embed"@,
            r.embedding.dimension == 1024,
            r.search.default_limit == 10,
            r.search.max_limit == 100,
    {
        Config {
            memory_dir: String::from_str("~/.total-recall"),
            db_path: String::from_str("~/.total-recall/memory.db"),
            embedding: EmbeddingConfig {
                model: String::from_str("Snowflake/snowflake-arctic-embed-l-v2.0"),
                model_path: String::from_str("/data/models/embed"),
                dimension: 1024,
            },
            search: SearchConfig { default_limit: 10, max_limit: 100 },
        }
    }
}

/// The default memory root, relative to the home directory.
pub open spec fn default_root() -> Seq<char> {
    "dev/exomemory/"@
}

/// An environment value that counts: set, and not blank.
pub open spec fn env_value(v: Option<Seq<char>>) -> Option<Seq<char>> {
    match v {
        Some(s) => if trim(s).len() > 0 {
            Some(s)
        } else {
            None
        },
        None => None,
    }
}

/// The root the flag and the environment choose, by precedence: `--root`,
/// then `EXOMEMORY_DIR`, then `EXO_DIR`; `Ok(None)` leaves it to the
/// config file and the default. Refused: the two environment names set
/// to different paths (whatever the flag says), and an empty flag.
pub open spec fn root_choice(
    cli: Option<Seq<char>>,
    canonical: Option<Seq<char>>,
    legacy: Option<Seq<char>>,
) -> Option<Option<Seq<char>>> {
    let c = env_value(canonical);
    let l = env_value(legacy);
    if c is Some && l is Some && c != l {
        None
    } else {
        match cli {
            Some(f) => if trim(f).len() == 0 {
                None
            } else {
                Some(Some(f))
            },
            None => if c is Some {
                Some(c)
            } else if l is Some {
                Some(l)
            } else {
                Some(None)
            },
        }
    }
}

/// What the root choice answers when it refuses: the two environment
/// names disagreeing, else the empty flag.
pub open spec fn root_refusal(canonical: Option<Seq<char>>, legacy: Option<Seq<char>>) -> Seq<char> {
    let c = env_value(canonical);
    let l = env_value(legacy);
    if c is Some && l is Some && c != l {
        "EXOMEMORY_DIR and EXO_DIR resolve to different roots — misconfiguration"@
    } else {
        "--root is empty — refusing to start (point it at the memory root directory)"@
    }
}

/// The characters of an optional string.
pub open spec fn opt_text(o: Option<String>) -> Option<Seq<char>> {
    match o {
        Some(s) => Some(s@),
        None => None,
    }
}

/// Whether a value is set and not blank.
fn counts(v: &Option<String>) -> (r: Option<String>)
    ensures
        opt_text(r) == env_value(opt_text(*v)),
{
    match v {
        Some(s) => {
            let t = crate::strings::trimmed(s.as_str());
            if t.as_str().is_empty() {
                None
            } else {
                Some(s.clone())
            }
        },
        None => None,
    }
}

/// [`root_choice`] for the command line `args` and the values of
/// `EXOMEMORY_DIR` (`canonical`) and `EXO_DIR` (`legacy`).
pub fn choose_root(args: &ConfigArgs, canonical: &Option<String>, legacy: &Option<String>) -> (r:
    Result<Option<String>, String>)
    ensures
        match r {
            Ok(x) => root_choice(opt_text(args.cli_root), opt_text(*canonical), opt_text(*legacy))
                == Some(opt_text(x)),
            Err(m) => root_choice(opt_text(args.cli_root), opt_text(*canonical), opt_text(*legacy))
                is None && m@ == root_refusal(opt_text(*canonical), opt_text(*legacy)),
        },
{
    let cli = &args.cli_root;
    let c = counts(canonical);
    let l = counts(legacy);
    match (&c, &l) {
        (Some(a), Some(b)) => {
            if !crate::text::same_text(a, b) {
                return Err(
                    String::from_str(
                        "EXOMEMORY_DIR and EXO_DIR resolve to different roots — misconfiguration",
                    ),
                );
            }
        },
        _ => {},
    }
    match cli {
        Some(f) => {
            let t = crate::strings::trimmed(f.as_str());
            if t.as_str().is_empty() {
                return Err(
                    String::from_str(
                        "--root is empty — refusing to start (point it at the memory root directory)",
                    ),
                );
            }
            Ok(Some(f.clone()))
        },
        None => {
            if c.is_some() {
                Ok(c)
            } else if l.is_some() {
                Ok(l)
            } else {
                Ok(None)
            }
        },
    }
}

/// The value of a minimal-TOML `key = value` right-hand side: a basic
/// `"…"` or literal `'…'` string up to its closing quote, or a bare value
/// up to a `#` comment, trimmed; `None` when it is empty or a quoted
/// string is never closed.
pub open spec fn toml_value(rest: Seq<char>) -> Option<Seq<char>> {
    let r = trim(rest);
    let body: Option<Seq<char>> = if r.len() > 0 && (r[0] == '"' || r[0] == '\'') {
        let inner = r.drop_first();
        let e = find(inner, r[0]);
        if e >= inner.len() {
            None
        } else {
            Some(inner.subrange(0, e))
        }
    } else {
        Some(trim(r.subrange(0, find(r, '#'))))
    };
    match body {
        Some(b) => if b.len() > 0 {
            Some(b)
        } else {
            None
        },
        None => None,
    }
}

/// [`toml_value`].
pub fn parse_toml_value(rest: &str) -> (r: Option<String>)
    ensures
        opt_text(r) == toml_value(rest@),
{
    let v = chars_of(rest);
    let (a, b) = trim_bounds(&v, 0, v.len());
    assert(v@.subrange(0, v@.len() as int) =~= v@);
    let ghost r = v@.subrange(a as int, b as int);
    if b > a && (v[a] == '"' || v[a] == '\'') {
        let q = v[a];
        let e = find_at(&v, a + 1, b, q);
        proof {
            assert(r.drop_first() =~= v@.subrange(a + 1, b as int));
            crate::strings::lemma_find(v@.subrange(a + 1, b as int), q);
        }
        if e >= b - (a + 1) {
            return None;
        }
        if e == 0 {
            return None;
        }
        let out = crate::strings::copy_range(&v, a + 1, a + 1 + e);
        proof {
            assert(v@.subrange(a + 1, b as int).subrange(0, e as int) =~= v@.subrange(
                a + 1,
                a + 1 + e,
            ));
        }
        Some(string_of(out.as_slice()))
    } else {
        let k = find_at(&v, a, b, '#');
        proof {
            crate::strings::lemma_find(r, '#');
            assert(r.subrange(0, k as int) =~= v@.subrange(a as int, a + k));
        }
        let (c, d) = trim_bounds(&v, a, a + k);
        if d == c {
            return None;
        }
        let out = crate::strings::copy_range(&v, c, d);
        Some(string_of(out.as_slice()))
    }
}

/// Whether a config line is the `root` key's: trimmed, not blank, not a
/// `#` comment, with a `=` whose trimmed left side is `root`.
pub open spec fn root_line(l: Seq<char>) -> bool {
    let t = trim(l);
    let k = find(t, '=');
    t.len() > 0 && t[0] != '#' && k < t.len() && trim(t.subrange(0, k)) == "root"@
}

/// The `root` of a config file's lines: the value on the first `root`
/// line (which ends the search, usable or not).
pub open spec fn config_root_in(lines: Seq<Seq<char>>) -> Option<Seq<char>>
    decreases lines.len(),
{
    if lines.len() == 0 {
        None
    } else if root_line(lines[0]) {
        let t = trim(lines[0]);
        toml_value(t.subrange(find(t, '=') + 1, t.len() as int))
    } else {
        config_root_in(lines.drop_first())
    }
}

/// The `root` a config file's text holds (see [`config_root_in`]).
pub fn config_root_of(text: &str) -> (r: Option<String>)
    ensures
        opt_text(r) == config_root_in(lines_of(text@)),
{
    let lines = text_lines(text);
    let ghost ls = texts(lines@);
    let mut i: usize = 0;
    proof {
        reveal_strlit("root");
        assert(ls.subrange(0, ls.len() as int) =~= ls);
    }
    while i < lines.len()
        invariant
            i <= lines@.len(),
            ls == texts(lines@),
            ls == lines_of(text@),
            config_root_in(ls) == config_root_in(ls.subrange(i as int, ls.len() as int)),
        decreases lines.len() - i,
    {
        let v = chars_of(lines[i].as_str());
        let (a, b) = trim_bounds(&v, 0, v.len());
        assert(v@.subrange(0, v@.len() as int) =~= v@);
        let ghost t = v@.subrange(a as int, b as int);
        let k = find_at(&v, a, b, '=');
        proof {
            crate::strings::lemma_find(t, '=');
            assert(ls[i as int] == lines@[i as int]@);
            let rest = ls.subrange(i as int, ls.len() as int);
            assert(rest[0] == ls[i as int]);
            assert(rest.drop_first() =~= ls.subrange(i + 1, ls.len() as int));
        }
        if b > a && v[a] != '#' && k < b - a {
            let (c, d) = trim_bounds(&v, a, a + k);
            proof {
                assert(t.subrange(0, k as int) =~= v@.subrange(a as int, a + k));
            }
            let key = crate::strings::copy_range(&v, c, d);
            let root = vec!['r', 'o', 'o', 't'];
            if crate::text::same_chars(&key, &root) {
                let rest = crate::strings::copy_range(&v, a + k + 1, b);
                let rs = string_of(rest.as_slice());
                proof {
                    reveal_strlit("root");
                    assert(root@ =~= "root"@);
                    assert(t.subrange(k + 1, t.len() as int) =~= rest@);
                }
                return parse_toml_value(rs.as_str());
            }
            proof {
                reveal_strlit("root");
                assert(root@ =~= "root"@);
            }
        }
        i += 1;
    }
    None
}

/// How a root path uses `~`: the home directory itself, a path under it,
/// or no `~` at all (the trimmed path as given).
pub enum TildeForm {
    Home,
    UnderHome(String),
    Plain(String),
}

/// What a trimmed root path says of `~`.
pub open spec fn tilde_of(raw: Seq<char>) -> (int, Seq<char>) {
    let t = trim(raw);
    if t == seq!['~'] {
        (0, Seq::empty())
    } else if t.len() >= 2 && t[0] == '~' && t[1] == '/' {
        (1, t.subrange(2, t.len() as int))
    } else {
        (2, t)
    }
}

/// What a tilde form says.
pub open spec fn tilde_view(f: TildeForm) -> (int, Seq<char>) {
    match f {
        TildeForm::Home => (0, Seq::empty()),
        TildeForm::UnderHome(s) => (1, s@),
        TildeForm::Plain(s) => (2, s@),
    }
}

/// [`tilde_of`].
pub fn tilde_form(raw: &str) -> (r: TildeForm)
    ensures
        tilde_view(r) == tilde_of(raw@),
{
    let v = chars_of(raw);
    let (a, b) = trim_bounds(&v, 0, v.len());
    assert(v@.subrange(0, v@.len() as int) =~= v@);
    let ghost t = v@.subrange(a as int, b as int);
    if b - a == 1 && v[a] == '~' {
        assert(t =~= seq!['~']);
        return TildeForm::Home;
    }
    if b - a >= 2 && v[a] == '~' && v[a + 1] == '/' {
        let rest = crate::strings::copy_range(&v, a + 2, b);
        assert(t.subrange(2, t.len() as int) =~= rest@);
        return TildeForm::UnderHome(string_of(rest.as_slice()));
    }
    proof {
        if t == seq!['~'] {
            assert(t[0] == v@[a as int]);
        }
    }
    let out = crate::strings::copy_range(&v, a, b);
    TildeForm::Plain(string_of(out.as_slice()))
}

/// A `+HHMM` / `-HHMM` offset (after trimming) in signed minutes: five
/// characters, a sign, four digits, at most 14 hours and under 60 minutes.
pub open spec fn utc_offset_of(raw: Seq<char>) -> Option<int> {
    let r = trim(raw);
    if r.len() != 5 || !(r[0] == '+' || r[0] == '-') || !all_digits(r.subrange(1, 5)) {
        None
    } else {
        let h = digits_value(r.subrange(1, 3));
        let m = digits_value(r.subrange(3, 5));
        if h > 14 || m >= 60 {
            None
        } else {
            Some(if r[0] == '-' {
                -(h * 60 + m)
            } else {
                h * 60 + m
            })
        }
    }
}

/// What an offset refusal says of the trimmed text `r`: not of the
/// `+HHMM` shape, or out of range.
pub open spec fn offset_refusal(raw: Seq<char>) -> Seq<char> {
    let r = trim(raw);
    if r.len() != 5 || !(r[0] == '+' || r[0] == '-') || !all_digits(r.subrange(1, 5)) {
        "expected a +HHMM offset, got "@ + debug_str_of(r)
    } else {
        "implausible UTC offset "@ + debug_str_of(r)
    }
}

/// [`utc_offset_of`]; a refusal names the text.
pub fn parse_utc_offset(raw: &str) -> (r: Result<i64, String>)
    ensures
        match r {
            Ok(x) => utc_offset_of(raw@) == Some(x as int),
            Err(m) => utc_offset_of(raw@) is None && m@ == offset_refusal(raw@),
        },
{
    let v = chars_of(raw);
    let (a, b) = trim_bounds(&v, 0, v.len());
    assert(v@.subrange(0, v@.len() as int) =~= v@);
    let ghost r = v@.subrange(a as int, b as int);
    let t = string_of(crate::strings::copy_range(&v, a, b).as_slice());
    if b - a != 5 || !(v[a] == '+' || v[a] == '-') || !crate::text::all_digits_in(&v, a + 1, b) {
        proof {
            if b - a == 5 {
                assert(r.subrange(1, 5) =~= v@.subrange(a + 1, b as int));
            }
        }
        let mut m = String::from_str("expected a +HHMM offset, got ");
        let q = crate::pattern::debug_text(t.as_str());
        m.append(q.as_str());
        return Err(m);
    }
    proof {
        assert(r.subrange(1, 5) =~= v@.subrange(a + 1, b as int));
        assert(r.subrange(1, 3) =~= v@.subrange(a + 1, a + 3));
        assert(r.subrange(3, 5) =~= v@.subrange(a + 3, a + 5));
        assert(crate::text::all_digits(v@.subrange(a + 1, a + 3))) by {
            assert forall|j: int| 0 <= j < 2 implies crate::text::is_digit(
                #[trigger] v@.subrange(a + 1, a + 3)[j],
            ) by {
                assert(v@.subrange(a + 1, a + 3)[j] == v@.subrange(a + 1, b as int)[j]);
            }
        }
        assert(crate::text::all_digits(v@.subrange(a + 3, a + 5))) by {
            assert forall|j: int| 0 <= j < 2 implies crate::text::is_digit(
                #[trigger] v@.subrange(a + 3, a + 5)[j],
            ) by {
                assert(v@.subrange(a + 3, a + 5)[j] == v@.subrange(a + 1, b as int)[j + 2]);
            }
        }
    }
    let h = crate::text::digits_in(&v, a + 1, a + 3);
    let m = crate::text::digits_in(&v, a + 3, a + 5);
    if h > 14 || m >= 60 {
        let mut msg = String::from_str("implausible UTC offset ");
        let q = crate::pattern::debug_text(t.as_str());
        msg.append(q.as_str());
        return Err(msg);
    }
    let mag = (h * 60 + m) as i64;
    if v[a] == '-' {
        Ok(-mag)
    } else {
        Ok(mag)
    }
}

/// A zone name `EXO_TZ` may carry: not empty, no `..`, not absolute.
pub open spec fn usable_zone(zone: Seq<char>) -> bool {
    zone.len() > 0 && !contains_seq(zone, seq!['.', '.']) && zone[0] != '/'
}

/// [`usable_zone`].
pub fn is_usable_zone(zone: &str) -> (r: bool)
    ensures
        r == usable_zone(zone@),
{
    let v = chars_of(zone);
    if v.len() == 0 {
        return false;
    }
    let dots = vec!['.', '.'];
    assert(dots@ =~= seq!['.', '.']);
    !crate::index::contains_chars(&v, &dots) && v[0] != '/'
}

/// The fields of an init fingerprint.
pub struct InitFingerprint {
    pub root: String,
    pub tz: String,
    pub tz_offset_minutes: i64,
    pub created_at: String,
}

/// What reading `.state/init.json` gave.
pub enum FingerprintRead {
    /// No fingerprint yet: the root is fresh.
    Missing,
    /// A file that is not a readable fingerprint.
    Unreadable,
    Found(InitFingerprint),
}

/// The verdict on a root's fingerprint: a fresh root gets one written
/// (`Ok(true)`); a fingerprint for this very root and zone is left as it
/// is (`Ok(false)`); an unreadable fingerprint, one naming another root,
/// and one recording another zone or offset are refused.
pub open spec fn fingerprint_ok(
    read: FingerprintRead,
    root: Seq<char>,
    tz: Seq<char>,
    offset: int,
) -> Option<bool> {
    match read {
        FingerprintRead::Missing => Some(true),
        FingerprintRead::Unreadable => None,
        FingerprintRead::Found(f) => if f.root@ != root || f.tz@ != tz || f.tz_offset_minutes
            != offset {
            None
        } else {
            Some(false)
        },
    }
}

/// What a refused fingerprint is answered, naming the fingerprint file
/// `path`: unreadable; keyed to another root; recording another zone or
/// offset.
pub open spec fn fingerprint_refusal(
    read: FingerprintRead,
    root: Seq<char>,
    tz: Seq<char>,
    offset: int,
    path: Seq<char>,
) -> Seq<char> {
    match read {
        FingerprintRead::Found(f) => if f.root@ != root {
            "refusing to start: "@ + path + " names memory root '"@ + f.root@
                + "' but this directory resolves to '"@ + root
                + "' — the fingerprint is keyed to its directory; if the root was moved or copied, delete .state/init.json and re-init"@
        } else {
            "refusing to start: timezone change for memory root '"@ + root + "' — "@ + path
                + " records timezone '"@ + f.tz@ + "' (UTC offset "@ + padded(
                f.tz_offset_minutes as int,
                0,
            ) + " min, created "@ + f.created_at@ + ") but this box now resolves '"@ + tz
                + "' (UTC offset "@ + padded(offset, 0)
                + " min). A mixed-TZ multi-box shared root is a misconfiguration, not a supported mode; if the box legitimately changed zone, delete .state/init.json and re-init"@
        },
        _ => path
            + " exists but is not a readable init fingerprint — refusing to start (delete it to re-init)"@,
    }
}

/// [`fingerprint_ok`]; each refusal names the fingerprint file
/// (`state_path`) and what disagrees.
pub fn fingerprint_verdict(
    read: &FingerprintRead,
    root: &String,
    tz: &String,
    offset: i64,
    state_path: &str,
) -> (r: Result<bool, String>)
    ensures
        match r {
            Ok(w) => fingerprint_ok(*read, root@, tz@, offset as int) == Some(w),
            Err(m) => fingerprint_ok(*read, root@, tz@, offset as int) is None && m@
                == fingerprint_refusal(*read, root@, tz@, offset as int, state_path@),
        },
{
    match read {
        FingerprintRead::Missing => Ok(true),
        FingerprintRead::Unreadable => {
            let mut m = String::from_str(state_path);
            m.append(
                " exists but is not a readable init fingerprint — refusing to start (delete it to re-init)",
            );
            Err(m)
        },
        FingerprintRead::Found(f) => {
            if !crate::text::same_text(&f.root, root) {
                let mut m = String::from_str("refusing to start: ");
                m.append(state_path);
                m.append(" names memory root '");
                m.append(f.root.as_str());
                m.append("' but this directory resolves to '");
                m.append(root.as_str());
                m.append(
                    "' — the fingerprint is keyed to its directory; if the root was moved or copied, delete .state/init.json and re-init",
                );
                return Err(m);
            }
            if !crate::text::same_text(&f.tz, tz) || f.tz_offset_minutes != offset {
                let mut m = String::from_str(
                    "refusing to start: timezone change for memory root '",
                );
                m.append(root.as_str());
                m.append("' — ");
                m.append(state_path);
                m.append(" records timezone '");
                m.append(f.tz.as_str());
                m.append("' (UTC offset ");
                let mut o: Vec<char> = Vec::new();
                crate::text::push_padded(&mut o, f.tz_offset_minutes, 0);
                m.append(string_of(o.as_slice()).as_str());
                m.append(" min, created ");
                m.append(f.created_at.as_str());
                m.append(") but this box now resolves '");
                m.append(tz.as_str());
                m.append("' (UTC offset ");
                let mut p: Vec<char> = Vec::new();
                crate::text::push_padded(&mut p, offset, 0);
                m.append(string_of(p.as_slice()).as_str());
                m.append(
                    " min). A mixed-TZ multi-box shared root is a misconfiguration, not a supported mode; if the box legitimately changed zone, delete .state/init.json and re-init",
                );
                return Err(m);
            }
            Ok(false)
        },
    }
}

} // verus!
