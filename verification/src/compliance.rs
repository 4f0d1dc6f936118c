//! The `session_compliance` report: per session, the handshake time from
//! the handshake record, the first write and the write count from the
//! audit trail, and the refusals this process's gate counted.
use vstd::prelude::*;

use crate::args::{args_view, ArgValue};
use crate::session::{refusals, Sessions};
use crate::text::{sort_texts, text_le, texts};

verus! {

/// One audit-trail entry as the report reads it: its `session_id` and
/// `ts` when those are strings.
pub struct AuditEntry {
    pub session_id: Option<String>,
    pub ts: Option<String>,
}

/// One row of the report. `handshaked_at` is the JSON text of the
/// recorded handshake time (`None`: no record).
pub struct ComplianceRow {
    pub session_id: String,
    pub handshaked_at: Option<String>,
    pub first_write_ts: Option<String>,
    pub attempted_write_before_handshake: bool,
    pub write_count: usize,
    pub refused_count: u64,
}

/// The session an entry names.
pub open spec fn entry_id(e: AuditEntry) -> Option<Seq<char>> {
    match e.session_id {
        Some(s) => Some(s@),
        None => None,
    }
}

/// The sessions the first `n` entries name besides `identity`, each once,
/// in order of first appearance.
pub open spec fn other_ids(audit: Seq<AuditEntry>, identity: Seq<char>, n: int) -> Seq<Seq<char>>
    decreases n,
{
    if n <= 0 {
        Seq::empty()
    } else {
        let prev = other_ids(audit, identity, n - 1);
        match entry_id(audit[n - 1]) {
            Some(id) => if id != identity && !prev.contains(id) {
                prev.push(id)
            } else {
                prev
            },
            None => prev,
        }
    }
}

/// How many of the first `n` entries name `id`.
pub open spec fn write_count_of(audit: Seq<AuditEntry>, id: Seq<char>, n: int) -> nat
    decreases n,
{
    if n <= 0 {
        0
    } else {
        write_count_of(audit, id, n - 1) + if entry_id(audit[n - 1]) == Some(id) {
            1nat
        } else {
            0nat
        }
    }
}

/// The position of the first of the first `n` entries naming `id`.
pub open spec fn first_write(audit: Seq<AuditEntry>, id: Seq<char>, n: int) -> Option<int>
    decreases n,
{
    if n <= 0 {
        None
    } else {
        match first_write(audit, id, n - 1) {
            Some(k) => Some(k),
            None => if entry_id(audit[n - 1]) == Some(id) {
                Some(n - 1)
            } else {
                None
            },
        }
    }
}

/// The `ts` of a session's first write, when that entry has one.
pub open spec fn first_write_ts(audit: Seq<AuditEntry>, id: Seq<char>) -> Option<Seq<char>> {
    match first_write(audit, id, audit.len() as int) {
        Some(k) => match audit[k].ts {
            Some(t) => Some(t@),
            None => None,
        },
        None => None,
    }
}

/// The handshake time recorded for `key` (a later record wins).
pub open spec fn record_of(records: Seq<(String, String)>, key: Seq<char>, n: int) -> Option<
    Seq<char>,
>
    decreases n,
{
    if n <= 0 {
        None
    } else if records[n - 1].0@ == key {
        Some(records[n - 1].1@)
    } else {
        record_of(records, key, n - 1)
    }
}

/// The sessions of the report, in order: the server's own identity (its
/// gate and handshake looked up under the caller's `session`), then every
/// other session the audit trail names, in id order (each looked up under
/// its own id).
pub open spec fn report_keys(audit: Seq<AuditEntry>, identity: Seq<char>, session: Seq<char>) -> Seq<
    (Seq<char>, Seq<char>),
> {
    seq![(identity, session)] + other_ids(audit, identity, audit.len() as int).sort_by(
        text_le(),
    ).map_values(|id: Seq<char>| (id, id))
}

/// What a row says.
pub open spec fn row_view(r: ComplianceRow) -> (
    Seq<char>,
    Option<Seq<char>>,
    Option<Seq<char>>,
    bool,
    int,
    int,
) {
    (
        r.session_id@,
        match r.handshaked_at {
            Some(s) => Some(s@),
            None => None,
        },
        match r.first_write_ts {
            Some(s) => Some(s@),
            None => None,
        },
        r.attempted_write_before_handshake,
        r.write_count as int,
        r.refused_count as int,
    )
}

/// The row a report owes for the session `id`, whose gate and handshake
/// are kept under `key`.
pub open spec fn row_of(
    audit: Seq<AuditEntry>,
    records: Seq<(String, String)>,
    counted: crate::session::SessionsView,
    id: Seq<char>,
    key: Seq<char>,
) -> (Seq<char>, Option<Seq<char>>, Option<Seq<char>>, bool, int, int) {
    (
        id,
        record_of(records, key, records.len() as int),
        first_write_ts(audit, id),
        refusals(counted, key) > 0,
        write_count_of(audit, id, audit.len() as int) as int,
        refusals(counted, key) as int,
    )
}

/// The report's row for one session.
fn build_row(
    audit: &Vec<AuditEntry>,
    records: &Vec<(String, String)>,
    sessions: &Sessions,
    id: &String,
    key: &String,
) -> (r: ComplianceRow)
    requires
        sessions.wf(),
        audit@.len() < usize::MAX,
    ensures
        row_view(r) == row_of(audit@, records@, sessions@, id@, key@),
{
    let mut count: usize = 0;
    let mut first: Option<usize> = None;
    let mut i: usize = 0;
    while i < audit.len()
        invariant
            i <= audit@.len(),
            audit@.len() < usize::MAX,
            count == write_count_of(audit@, id@, i as int),
            count <= i,
            match first {
                Some(k) => first_write(audit@, id@, i as int) == Some(k as int) && k < i,
                None => first_write(audit@, id@, i as int) is None,
            },
        decreases audit.len() - i,
    {
        let mine = match &audit[i].session_id {
            Some(s) => crate::text::same_text(s, id),
            None => false,
        };
        if mine {
            count = count + 1;
            if first.is_none() {
                first = Some(i);
            }
        }
        i += 1;
    }
    let first_write_ts = match first {
        Some(k) => match &audit[k].ts {
            Some(t) => Some(t.clone()),
            None => None,
        },
        None => None,
    };
    let mut handshaked_at: Option<String> = None;
    let mut j: usize = 0;
    while j < records.len()
        invariant
            j <= records@.len(),
            match handshaked_at {
                Some(h) => record_of(records@, key@, j as int) == Some(h@),
                None => record_of(records@, key@, j as int) is None,
            },
        decreases records.len() - j,
    {
        if crate::text::same_text(&records[j].0, key) {
            handshaked_at = Some(records[j].1.clone());
        }
        j += 1;
    }
    let refused = sessions.refused_count(key);
    ComplianceRow {
        session_id: id.clone(),
        handshaked_at,
        first_write_ts,
        attempted_write_before_handshake: refused > 0,
        write_count: count,
        refused_count: refused,
    }
}

/// The other sessions the audit trail names (see [`other_ids`]).
fn collect_other_ids(audit: &Vec<AuditEntry>, identity: &String) -> (r: Vec<String>)
    ensures
        texts(r@) == other_ids(audit@, identity@, audit@.len() as int),
{
    let mut out: Vec<String> = Vec::new();
    let mut i: usize = 0;
    while i < audit.len()
        invariant
            i <= audit@.len(),
            texts(out@) == other_ids(audit@, identity@, i as int),
        decreases audit.len() - i,
    {
        match &audit[i].session_id {
            Some(s) => {
                let mut seen = crate::text::same_text(s, identity);
                let mut j: usize = 0;
                while j < out.len()
                    invariant
                        j <= out@.len(),
                        seen == (s@ == identity@ || exists|x: int|
                            0 <= x < j && texts(out@)[x] == s@),
                    decreases out.len() - j,
                {
                    assert(texts(out@)[j as int] == out@[j as int]@);
                    if crate::text::same_text(&out[j], s) {
                        seen = true;
                    }
                    j += 1;
                }
                proof {
                    let t = texts(out@);
                    if t.contains(s@) {
                        let x = t.index_of(s@);
                        assert(t[x] == s@);
                    }
                    if exists|x: int| 0 <= x < out@.len() && texts(out@)[x] == s@ {
                        let x = choose|x: int| 0 <= x < out@.len() && texts(out@)[x] == s@;
                        assert(t.contains(s@));
                    }
                }
                let ghost before = texts(out@);
                if !seen {
                    out.push(s.clone());
                    proof {
                        assert(texts(out@) =~= before.push(s@));
                    }
                }
            },
            None => {},
        }
        i += 1;
    }
    out
}

/// The report rows, in [`report_keys`] order, each as [`row_of`] says.
pub fn compliance_rows(
    audit: &Vec<AuditEntry>,
    records: &Vec<(String, String)>,
    sessions: &Sessions,
    identity: &String,
    session: &String,
) -> (r: Vec<ComplianceRow>)
    requires
        sessions.wf(),
        audit@.len() < usize::MAX,
    ensures
        r@.map_values(|x: ComplianceRow| row_view(x)) == report_keys(
            audit@,
            identity@,
            session@,
        ).map_values(|k: (Seq<char>, Seq<char>)| row_of(audit@, records@, sessions@, k.0, k.1)),
{
    let others = collect_other_ids(audit, identity);
    let sorted = sort_texts(others);
    proof {
        crate::text::lemma_sorted_is_sort(
            texts(sorted@),
            other_ids(audit@, identity@, audit@.len() as int),
        );
    }
    let ghost keys = report_keys(audit@, identity@, session@);
    let ghost want = keys.map_values(
        |k: (Seq<char>, Seq<char>)| row_of(audit@, records@, sessions@, k.0, k.1),
    );
    let mut rows: Vec<ComplianceRow> = Vec::new();
    rows.push(build_row(audit, records, sessions, identity, session));
    let mut i: usize = 0;
    while i < sorted.len()
        invariant
            i <= sorted@.len(),
            sessions.wf(),
            audit@.len() < usize::MAX,
            keys == report_keys(audit@, identity@, session@),
            want == keys.map_values(
                |k: (Seq<char>, Seq<char>)| row_of(audit@, records@, sessions@, k.0, k.1),
            ),
            texts(sorted@) == other_ids(audit@, identity@, audit@.len() as int).sort_by(text_le()),
            keys.len() == sorted@.len() + 1,
            rows@.len() == i + 1,
            forall|j: int| 0 <= j <= i ==> row_view(#[trigger] rows@[j]) == want[j],
        decreases sorted.len() - i,
    {
        let id = &sorted[i];
        proof {
            assert(keys[i + 1] == (id@, id@));
        }
        rows.push(build_row(audit, records, sessions, id, id));
        i += 1;
    }
    proof {
        assert(rows@.map_values(|x: ComplianceRow| row_view(x)) =~= want);
    }
    rows
}

/// The keys of `fields`, each between single quotes, comma-separated.
pub open spec fn quoted_keys(fields: Seq<(String, ArgValue)>) -> Seq<char>
    decreases fields.len(),
{
    if fields.len() == 0 {
        Seq::empty()
    } else {
        quoted_keys(fields.drop_last()) + (if fields.len() > 1 {
            ", "@
        } else {
            Seq::empty()
        }) + "'"@ + fields.last().0@ + "'"@
    }
}

/// What `session_compliance` answers arguments other than the empty
/// object: the unknown field names, or — when the arguments are no
/// object — their JSON text `raw`.
pub open spec fn compliance_refusal(args: Option<Seq<(String, ArgValue)>>, raw: Seq<char>) -> Seq<char> {
    match args {
        Some(f) => "session_compliance refused: unknown field(s) "@ + quoted_keys(f)
            + " — the schema takes no arguments"@,
        None => "session_compliance refused: arguments must be a JSON object (got "@ + raw + ")"@,
    }
}

/// Accept only the empty object; refuse anything else (see
/// [`compliance_refusal`]).
pub fn compliance_args(args: &Option<Vec<(String, ArgValue)>>, raw: &str) -> (r: Result<(), String>)
    ensures
        (r is Ok) == (args matches Some(f) && f@.len() == 0),
        r matches Err(m) ==> m@ == compliance_refusal(args_view(*args), raw@),
{
    match args {
        Some(fields) => {
            if fields.len() == 0 {
                return Ok(());
            }
            let mut m = String::from_str("session_compliance refused: unknown field(s) ");
            let ghost head = m@;
            let mut i: usize = 0;
            while i < fields.len()
                invariant
                    i <= fields@.len(),
                    m@ == head + quoted_keys(fields@.take(i as int)),
                decreases fields.len() - i,
            {
                if i > 0 {
                    m.append(", ");
                }
                m.append("'");
                m.append(fields[i].0.as_str());
                m.append("'");
                proof {
                    let t = fields@.take(i + 1);
                    assert(t.drop_last() =~= fields@.take(i as int));
                    assert(t.last() == fields@[i as int]);
                }
                i += 1;
            }
            assert(fields@.take(fields@.len() as int) =~= fields@);
            m.append(" — the schema takes no arguments");
            Err(m)
        },
        None => {
            let mut m = String::from_str(
                "session_compliance refused: arguments must be a JSON object (got ",
            );
            m.append(raw);
            m.append(")");
            Err(m)
        },
    }
}

/// The tools this module answers for.
pub open spec fn handler_names() -> Seq<Seq<char>> {
    seq!["session_compliance"@]
}

/// The names of the tools this module registers: session_compliance.
pub fn handlers() -> (r: Vec<&'static str>)
    ensures
        r@.len() == 1 && r@[0]@ == "session_compliance"@,
        r@.map_values(|h: &'static str| h@) == handler_names(),
{
    proof {
        reveal_strlit("session_compliance");
    }
    let r = vec!["session_compliance"];
    assert(r@.map_values(|h: &'static str| h@) =~= handler_names());
    r
}

} // verus!
