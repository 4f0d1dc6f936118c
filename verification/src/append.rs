//! The write side of `signoff.md`: an `append_signoff` entry's size
//! check and the bytes it adds at the end of the file.
use vstd::prelude::*;

use crate::file_parser::lines_of;
use crate::signoff::{
    colon, field_name, kv, lemma_signoff_roundtrip, no_bar, one_line, opt_text, p_worker,
    roundtrip_slots, sep, serialize_line, serialized, SignoffArgs,
};
use crate::signoff_read::worker_items;
use crate::strings::trim;
use crate::strings::find;
use crate::text::{chars_of, decimal};

verus! {

/// The number of bytes `c` takes in UTF-8.
pub open spec fn char_len(c: char) -> int {
    if (c as u32) < 0x80 {
        1
    } else if (c as u32) < 0x800 {
        2
    } else if (c as u32) < 0x10000 {
        3
    } else {
        4
    }
}

/// The number of bytes `s` takes in UTF-8.
pub open spec fn utf8_len(s: Seq<char>) -> int
    decreases s.len(),
{
    if s.len() == 0 {
        0
    } else {
        utf8_len(s.drop_last()) + char_len(s.last())
    }
}

/// The UTF-8 length of `s` counted from its first character.
proof fn lemma_utf8_len_first(s: Seq<char>)
    requires
        s.len() > 0,
    ensures
        utf8_len(s) == char_len(s[0]) + utf8_len(s.drop_first()),
    decreases s.len(),
{
    if s.len() > 1 {
        lemma_utf8_len_first(s.drop_last());
        assert(s.drop_last().drop_first() =~= s.drop_first().drop_last());
        assert(s.drop_last()[0] == s[0]);
        assert(s.drop_first().last() == s.last());
    } else {
        assert(s.drop_first() =~= Seq::<char>::empty());
        assert(s.drop_last() =~= Seq::<char>::empty());
    }
}

/// [`utf8_len`] is the length of the bytes the standard encoding gives.
proof fn lemma_utf8_len_encoded(s: Seq<char>)
    ensures
        vstd::utf8::encode_utf8(s).len() == utf8_len(s),
    decreases s.len(),
{
    if s.len() > 0 {
        lemma_utf8_len_first(s);
        lemma_utf8_len_encoded(s.drop_first());
        vstd::utf8::char_is_scalar(s[0]);
    }
}

/// The cap on a serialized entry, in bytes: it clears the longest real
/// entry measured.
pub const ENTRY_CAP_BYTES: u64 = 16_384;

/// Whether `v` takes more than `cap` bytes in UTF-8.
fn utf8_exceeds(v: &Vec<char>, cap: u64) -> (r: bool)
    requires
        cap < u64::MAX / 2,
    ensures
        r == (utf8_len(v@) > cap),
{
    let mut total: u64 = 0;
    let mut i: usize = 0;
    while i < v.len()
        invariant
            i <= v@.len(),
            cap < u64::MAX / 2,
            total == utf8_len(v@.subrange(0, i as int)),
            total <= cap,
        decreases v.len() - i,
    {
        let c = v[i] as u32;
        let k: u64 = if c < 0x80 {
            1
        } else if c < 0x800 {
            2
        } else if c < 0x10000 {
            3
        } else {
            4
        };
        proof {
            assert(v@.subrange(0, i + 1).drop_last() =~= v@.subrange(0, i as int));
            assert(v@.subrange(0, i + 1).last() == v@[i as int]);
        }
        total = total + k;
        i += 1;
        if total > cap {
            proof {
                lemma_utf8_grows(v@, i as int);
            }
            return true;
        }
    }
    assert(v@.subrange(0, v@.len() as int) =~= v@);
    false
}

/// A longer prefix takes at least as many bytes.
proof fn lemma_utf8_grows(s: Seq<char>, k: int)
    requires
        0 <= k <= s.len(),
    ensures
        utf8_len(s) >= utf8_len(s.subrange(0, k)),
    decreases s.len(),
{
    if s.len() > k {
        lemma_utf8_grows(s.drop_last(), k);
        assert(s.drop_last().subrange(0, k) =~= s.subrange(0, k));
    } else {
        assert(s.subrange(0, k) =~= s);
    }
}

/// The entry line for validated arguments and the server stamps, refused
/// when its serialized form exceeds [`ENTRY_CAP_BYTES`].
pub fn entry_line(a: &SignoffArgs, ts: &str, session: &str) -> (r: Result<String, String>)
    ensures
        ({
            let line = serialized(
                a.role@,
                a.done@,
                a.unpushed@,
                a.awaits_human@,
                a.still_running@,
                opt_text(a.kaibo_review),
                a.workflow@,
                ts@,
                session@,
            );
            &&& (r is Ok) == (utf8_len(line) <= ENTRY_CAP_BYTES)
            &&& r matches Ok(l) ==> l@ == line
            &&& r matches Err(m) ==> utf8_len(line) <= usize::MAX ==> m@
                == "append_signoff refused: serialized entry is "@
                + decimal(utf8_len(line) as nat)
                + " bytes — the cap is 16384 bytes (it clears the measured longest real entry, 4919 B); zero bytes written"@
        }),
{
    let kaibo = match &a.kaibo_review {
        Some(k) => Some(k.as_str()),
        None => None,
    };
    let line = serialize_line(
        a.role.as_str(),
        a.done.as_str(),
        a.unpushed.as_str(),
        a.awaits_human.as_str(),
        a.still_running.as_str(),
        kaibo,
        a.workflow.as_str(),
        ts,
        session,
    );
    let v = chars_of(line.as_str());
    if utf8_exceeds(&v, ENTRY_CAP_BYTES) {
        proof {
            lemma_utf8_len_encoded(line@);
        }
        let mut m = String::from_str("append_signoff refused: serialized entry is ");
        let n = crate::pattern::number_text(line.as_str().len());
        m.append(n.as_str());
        m.append(
            " bytes — the cap is 16384 bytes (it clears the measured longest real entry, 4919 B); zero bytes written",
        );
        return Err(m);
    }
    Ok(line)
}

/// What goes at the end of `signoff.md` for one entry: the line and its
/// newline, preceded by a newline when the file does not already end
/// with one (an insertion; no existing byte changes).
pub fn append_payload(needs_separator: bool, line: &str) -> (r: String)
    ensures
        r@ == (if needs_separator {
            seq!['\n'] + line@ + seq!['\n']
        } else {
            line@ + seq!['\n']
        }),
{
    proof {
        reveal_strlit("\n");
    }
    let mut out = if needs_separator {
        String::from_str("\n")
    } else {
        String::new()
    };
    out.append(line);
    out.append("\n");
    out
}

/// The payload for an existing file `old`: a separator exactly when the
/// file is not empty and does not end with a newline.
pub open spec fn payload_for(old: Seq<char>, line: Seq<char>) -> Seq<char> {
    if old.len() > 0 && old.last() != '\n' {
        seq!['\n'] + line + seq!['\n']
    } else {
        line + seq!['\n']
    }
}

/// The lines of a text that ends with a newline, followed by more text.
pub proof fn lemma_lines_concat(a: Seq<char>, b: Seq<char>)
    requires
        a.len() > 0,
        a.last() == '\n',
    ensures
        lines_of(a + b) == lines_of(a) + lines_of(b),
    decreases a.len(),
{
    let k = find(a, '\n');
    crate::strings::lemma_find(a, '\n');
    crate::strings::lemma_find(a + b, '\n');
    assert(find(a + b, '\n') == k) by {
        assert((a + b)[a.len() - 1] == '\n');
        if find(a + b, '\n') < k {
            assert((a + b)[find(a + b, '\n')] == a[find(a + b, '\n')]);
        }
        if find(a + b, '\n') > k {
            assert((a + b)[k] == a[k]);
        }
    }
    assert((a + b).subrange(0, k) =~= a.subrange(0, k));
    let ra = a.subrange(k + 1, a.len() as int);
    assert((a + b).subrange(k + 1, (a + b).len() as int) =~= ra + b);
    if ra.len() > 0 {
        assert(ra.last() == a.last());
        lemma_lines_concat(ra, b);
    } else {
        assert(ra + b =~= b);
        assert(lines_of(ra) =~= Seq::<Seq<char>>::empty());
    }
}

/// Ending a text with a newline does not change its lines, when its last
/// line does not end with a carriage return.
proof fn lemma_lines_close(a: Seq<char>)
    requires
        a.len() > 0,
        a.last() != '\n',
        a.last() != '\r',
    ensures
        lines_of(a + seq!['\n']) == lines_of(a),
    decreases a.len(),
{
    let s = a + seq!['\n'];
    let k = find(a, '\n');
    crate::strings::lemma_find(a, '\n');
    crate::strings::lemma_find(s, '\n');
    if k < a.len() {
        assert(find(s, '\n') == k) by {
            if find(s, '\n') < k {
                assert(s[find(s, '\n')] == a[find(s, '\n')]);
            }
            if find(s, '\n') > k {
                assert(s[k] == a[k]);
            }
        }
        assert(s.subrange(0, k) =~= a.subrange(0, k));
        let ra = a.subrange(k + 1, a.len() as int);
        assert(ra.len() > 0);
        assert(ra.last() == a.last());
        assert(s.subrange(k + 1, s.len() as int) =~= ra + seq!['\n']);
        lemma_lines_close(ra);
        let l = a.subrange(0, k);
        let l2 = if k > 0 && l.last() == '\r' { l.drop_last() } else { l };
        assert(lines_of(a) == seq![l2] + lines_of(ra));
        assert(lines_of(s) == seq![l2] + lines_of(ra + seq!['\n']));
    } else {
        assert(find(s, '\n') == a.len()) by {
            if find(s, '\n') < a.len() {
                assert(s[find(s, '\n')] == a[find(s, '\n')]);
            }
            if find(s, '\n') > a.len() {
                assert(s[a.len() as int] == '\n');
            }
        }
        assert(s.subrange(0, a.len() as int) =~= a);
        assert(s.subrange(a.len() + 1int, s.len() as int) =~= Seq::<char>::empty());
        assert(lines_of(Seq::<char>::empty()) =~= Seq::<Seq<char>>::empty());
        assert(lines_of(a) == seq![a]);
        assert(lines_of(s) == seq![a] + lines_of(Seq::<char>::empty()));
        assert(lines_of(s) =~= seq![a]);
    }
}

/// The lines of a single line with its newline.
proof fn lemma_lines_single(line: Seq<char>)
    requires
        one_line(line),
    ensures
        lines_of(line + seq!['\n']) == seq![line],
{
    let s = line + seq!['\n'];
    crate::strings::lemma_find(s, '\n');
    assert(find(s, '\n') == line.len()) by {
        if find(s, '\n') < line.len() {
            assert(s[find(s, '\n')] == line[find(s, '\n')]);
        }
        if find(s, '\n') > line.len() {
            assert(s[line.len() as int] == '\n');
        }
    }
    assert(s.subrange(0, line.len() as int) =~= line);
    if line.len() > 0 {
        assert(line.last() != '\r');
    }
    assert(s.subrange(line.len() + 1int, s.len() as int) =~= Seq::<char>::empty());
    assert(lines_of(Seq::<char>::empty()) =~= Seq::<Seq<char>>::empty());
    assert(lines_of(s) == seq![line] + lines_of(Seq::<char>::empty()));
    assert(lines_of(s) =~= seq![line]);
}

/// Appending one entry adds exactly one line and leaves every line before
/// it as it was: the lines of the file after the append are the lines
/// before it followed by the entry. (A file whose last line ends in a bare
/// carriage return is the exception: the newline inserted after it makes
/// that carriage return part of a line ending.)
pub proof fn lemma_append_one_line(old: Seq<char>, line: Seq<char>)
    requires
        one_line(line),
        old.len() == 0 || old.last() != '\r',
    ensures
        lines_of(old + payload_for(old, line)) == lines_of(old) + seq![line],
{
    lemma_lines_single(line);
    if old.len() == 0 {
        assert(old + payload_for(old, line) =~= line + seq!['\n']);
        assert(lines_of(old) =~= Seq::<Seq<char>>::empty());
    } else if old.last() == '\n' {
        lemma_lines_concat(old, line + seq!['\n']);
    } else {
        let closed = old + seq!['\n'];
        lemma_lines_close(old);
        lemma_lines_concat(closed, line + seq!['\n']);
        assert(old + payload_for(old, line) =~= closed + (line + seq!['\n']));
    }
}

/// Joining two pieces without line breaks gives none.
proof fn lemma_one_line_join(a: Seq<char>, b: Seq<char>)
    requires
        one_line(a),
        one_line(b),
    ensures
        one_line(a + b),
{
    assert forall|i: int| 0 <= i < (a + b).len() implies (a + b)[i] != '\n' && (a + b)[i] != '\r' by {
        if i < a.len() {
            assert((a + b)[i] == a[i]);
        } else {
            assert((a + b)[i] == b[i - a.len()]);
        }
    }
}

/// A field `name: value` has no line break when its value has none.
proof fn lemma_one_line_kv(i: int, v: Seq<char>)
    requires
        0 <= i <= 7,
        one_line(v),
    ensures
        one_line(sep() + kv(i, v)),
{
    assert(one_line(sep()));
    assert(one_line(colon()));
    assert(one_line(field_name(i)));
    lemma_one_line_join(field_name(i), colon());
    lemma_one_line_join(field_name(i) + colon(), v);
    lemma_one_line_join(sep(), kv(i, v));
}

/// The entry for one-line fields is itself one line.
proof fn lemma_one_line_serialized(
    role: Seq<char>,
    done: Seq<char>,
    unpushed: Seq<char>,
    awaits_human: Seq<char>,
    still_running: Seq<char>,
    kaibo_review: Option<Seq<char>>,
    workflow: Seq<char>,
    ts: Seq<char>,
    session: Seq<char>,
)
    requires
        one_line(role),
        one_line(done),
        one_line(unpushed),
        one_line(awaits_human),
        one_line(still_running),
        kaibo_review matches Some(k) ==> one_line(k),
        one_line(workflow),
        one_line(ts),
        one_line(session),
    ensures
        one_line(
            serialized(
                role,
                done,
                unpushed,
                awaits_human,
                still_running,
                kaibo_review,
                workflow,
                ts,
                session,
            ),
        ),
{
    assert(one_line(p_worker()));
    assert(one_line(seq![')']));
    lemma_one_line_join(p_worker(), role);
    lemma_one_line_join(p_worker() + role, seq![')']);
    let mut acc = p_worker() + role + seq![')'];
    lemma_one_line_kv(0, done);
    lemma_one_line_join(acc, sep() + kv(0, done));
    assert(acc + (sep() + kv(0, done)) =~= acc + sep() + kv(0, done));
    acc = acc + sep() + kv(0, done);
    lemma_one_line_kv(1, unpushed);
    lemma_one_line_join(acc, sep() + kv(1, unpushed));
    assert(acc + (sep() + kv(1, unpushed)) =~= acc + sep() + kv(1, unpushed));
    acc = acc + sep() + kv(1, unpushed);
    lemma_one_line_kv(2, awaits_human);
    lemma_one_line_join(acc, sep() + kv(2, awaits_human));
    assert(acc + (sep() + kv(2, awaits_human)) =~= acc + sep() + kv(2, awaits_human));
    acc = acc + sep() + kv(2, awaits_human);
    lemma_one_line_kv(3, still_running);
    lemma_one_line_join(acc, sep() + kv(3, still_running));
    assert(acc + (sep() + kv(3, still_running)) =~= acc + sep() + kv(3, still_running));
    acc = acc + sep() + kv(3, still_running);
    let opt = match kaibo_review {
        Some(k) => sep() + kv(4, k),
        None => Seq::empty(),
    };
    match kaibo_review {
        Some(k) => {
            lemma_one_line_kv(4, k);
        },
        None => {},
    }
    lemma_one_line_join(acc, opt);
    acc = acc + opt;
    lemma_one_line_kv(5, workflow);
    lemma_one_line_join(acc, sep() + kv(5, workflow));
    assert(acc + (sep() + kv(5, workflow)) =~= acc + sep() + kv(5, workflow));
    acc = acc + sep() + kv(5, workflow);
    lemma_one_line_kv(6, ts);
    lemma_one_line_join(acc, sep() + kv(6, ts));
    assert(acc + (sep() + kv(6, ts)) =~= acc + sep() + kv(6, ts));
    acc = acc + sep() + kv(6, ts);
    lemma_one_line_kv(7, session);
    lemma_one_line_join(acc, sep() + kv(7, session));
    assert(acc + (sep() + kv(7, session)) =~= acc + sep() + kv(7, session));
    acc = acc + sep() + kv(7, session);
    assert(acc =~= serialized(
        role,
        done,
        unpushed,
        awaits_human,
        still_running,
        kaibo_review,
        workflow,
        ts,
        session,
    ));
}

/// What `read_signoff` reads back after `append_signoff` appends an entry:
/// the worker signoffs that were there, in order, followed by the new one
/// with its role and fields as [`lemma_signoff_roundtrip`] gives them. This
/// holds for every entry of one-line fields whose role has no `)` and
/// something besides whitespace and whose values hold no `|`, on every file
/// whose last character is not a bare carriage return.
pub proof fn lemma_append_then_read(
    old: Seq<char>,
    role: Seq<char>,
    done: Seq<char>,
    unpushed: Seq<char>,
    awaits_human: Seq<char>,
    still_running: Seq<char>,
    kaibo_review: Option<Seq<char>>,
    workflow: Seq<char>,
    ts: Seq<char>,
    session: Seq<char>,
)
    requires
        old.len() == 0 || old.last() != '\r',
        one_line(role),
        one_line(done),
        one_line(unpushed),
        one_line(awaits_human),
        one_line(still_running),
        kaibo_review matches Some(k) ==> one_line(k),
        one_line(workflow),
        one_line(ts),
        one_line(session),
        forall|i: int| 0 <= i < role.len() ==> role[i] != ')',
        trim(role).len() > 0,
        no_bar(done),
        no_bar(unpushed),
        no_bar(awaits_human),
        no_bar(still_running),
        kaibo_review matches Some(k) ==> no_bar(k),
        no_bar(workflow),
        no_bar(ts),
        no_bar(session),
    ensures
        ({
            let line = serialized(
                role,
                done,
                unpushed,
                awaits_human,
                still_running,
                kaibo_review,
                workflow,
                ts,
                session,
            );
            worker_items(lines_of(old + payload_for(old, line))) == worker_items(
                lines_of(old),
            ).push(
                (
                    trim(role),
                    roundtrip_slots(
                        done,
                        unpushed,
                        awaits_human,
                        still_running,
                        kaibo_review,
                        workflow,
                        ts,
                        session,
                    ),
                ),
            )
        }),
{
    let line = serialized(
        role,
        done,
        unpushed,
        awaits_human,
        still_running,
        kaibo_review,
        workflow,
        ts,
        session,
    );
    lemma_one_line_serialized(
        role,
        done,
        unpushed,
        awaits_human,
        still_running,
        kaibo_review,
        workflow,
        ts,
        session,
    );
    lemma_append_one_line(old, line);
    lemma_signoff_roundtrip(
        role,
        done,
        unpushed,
        awaits_human,
        still_running,
        kaibo_review,
        workflow,
        ts,
        session,
    );
    let ls = lines_of(old) + seq![line];
    assert(ls.drop_last() =~= lines_of(old));
    assert(ls.last() == line);
    assert(line.subrange(0, p_worker().len() as int) =~= p_worker());
}

/// The tools this module answers for.
pub open spec fn handler_names() -> Seq<Seq<char>> {
    seq!["append_signoff"@]
}

/// The names of the tools this module registers: append_signoff.
pub fn handlers() -> (r: Vec<&'static str>)
    ensures
        r@.len() == 1 && r@[0]@ == "append_signoff"@,
        r@.map_values(|h: &'static str| h@) == handler_names(),
{
    proof {
        reveal_strlit("append_signoff");
    }
    let r = vec!["append_signoff"];
    assert(r@.map_values(|h: &'static str| h@) =~= handler_names());
    r
}

} // verus!
