//! Tool arguments as the tools see them: a JSON object's fields, each a
//! string, `null`, or a value of another kind (kept as its JSON text for
//! messages).
use vstd::prelude::*;
use crate::json::{json_quoted, json_quoted_of};
use crate::pattern::debug_text;

verus! {

/// One JSON argument value.
#[derive(Clone, Debug)]
pub enum ArgValue {
    Null,
    Bool(bool),
    /// A number, as its JSON text.
    Number(String),
    Str(String),
    /// An array, as its JSON text.
    Array(String),
    /// An object, as its JSON text.
    Object(String),
}

/// The arguments of a call: `None` when they are not a JSON object, else
/// the object's fields in key order.
pub type Args = Option<Vec<(String, ArgValue)>>;

/// The value of the first field named `key`.
pub open spec fn lookup(fields: Seq<(String, ArgValue)>, key: Seq<char>) -> Option<ArgValue>
    decreases fields.len(),
{
    if fields.len() == 0 {
        None
    } else if fields[0].0@ == key {
        Some(fields[0].1)
    } else {
        lookup(fields.drop_first(), key)
    }
}

/// The fields of the arguments, when they are a JSON object.
pub open spec fn args_view(args: Option<Vec<(String, ArgValue)>>) -> Option<Seq<(String, ArgValue)>> {
    match args {
        Some(f) => Some(f@),
        None => None,
    }
}

/// Whether position `k` holds the first key of `fields` that `ok` refuses.
pub open spec fn first_refused(
    fields: Seq<(String, ArgValue)>,
    ok: spec_fn(Seq<char>) -> bool,
    k: int,
) -> bool {
    &&& 0 <= k < fields.len()
    &&& !ok(fields[k].0@)
    &&& forall|j: int| 0 <= j < k ==> ok(#[trigger] fields[j].0@)
}

/// The first key of `fields` that `ok` refuses, if any.
pub open spec fn first_refused_key(
    fields: Seq<(String, ArgValue)>,
    ok: spec_fn(Seq<char>) -> bool,
) -> Option<Seq<char>> {
    if exists|k: int| first_refused(fields, ok, k) {
        Some(fields[choose|k: int| first_refused(fields, ok, k)].0@)
    } else {
        None
    }
}

/// The first refused key is the one at the first refused position.
pub proof fn lemma_first_refused(fields: Seq<(String, ArgValue)>, ok: spec_fn(Seq<char>) -> bool, k: int)
    requires
        first_refused(fields, ok, k),
    ensures
        first_refused_key(fields, ok) == Some(fields[k].0@),
{
    let c = choose|c: int| first_refused(fields, ok, c);
    assert(first_refused(fields, ok, c));
    if c < k {
        assert(ok(fields[c].0@));
    } else if k < c {
        assert(ok(fields[k].0@));
    }
}

/// No key is refused when `ok` takes every key.
pub proof fn lemma_none_refused(fields: Seq<(String, ArgValue)>, ok: spec_fn(Seq<char>) -> bool)
    requires
        forall|j: int| 0 <= j < fields.len() ==> ok(#[trigger] fields[j].0@),
    ensures
        first_refused_key(fields, ok) is None,
{
    if exists|k: int| first_refused(fields, ok, k) {
        let c = choose|c: int| first_refused(fields, ok, c);
        assert(ok(fields[c].0@));
    }
}

/// The refusal of unknown fields: the tool, the unknown keys as `{:?}`
/// renders them, and what the schema allows.
pub open spec fn unknown_list_text(tool: Seq<char>, keys: Seq<Seq<char>>, allowed: Seq<char>) -> Seq<char> {
    tool + " refused: unknown field(s) "@ + debug_list(keys) + " — the schema allows only: "@ + allowed
}

/// The refusal of the unknown fields `unknown` (see [`unknown_list_text`]).
pub fn unknown_list_refusal(tool: &str, unknown: &Vec<String>, allowed: &str) -> (m: String)
    ensures
        m@ == unknown_list_text(tool@, unknown@.map_values(|s: String| s@), allowed@),
{
    let mut m = String::from_str(tool);
    m.append(" refused: unknown field(s) ");
    let l = debug_names(unknown);
    m.append(l.as_str());
    m.append(" — the schema allows only: ");
    m.append(allowed);
    m
}

/// The refusal of a field that is not a string (see [`not_string_text`]).
pub fn not_string_refusal(tool: &str, field: &str, v: &ArgValue) -> (m: String)
    ensures
        m@ == not_string_text(tool@, field@, *v),
{
    let mut m = String::from_str(tool);
    m.append(" refused: field '");
    m.append(field);
    m.append("' must be a string (got ");
    let t = json_text(v);
    m.append(t.as_str());
    m.append(")");
    m
}

/// The refusal of a field that is not a string: the tool, the field, and
/// the JSON text of what was given.
pub open spec fn not_string_text(tool: Seq<char>, field: Seq<char>, v: ArgValue) -> Seq<char> {
    tool + " refused: field '"@ + field + "' must be a string (got "@ + json_text_of(v) + ")"@
}

/// The value of the field named `key`, if any.
pub fn get_arg<'a>(fields: &'a Vec<(String, ArgValue)>, key: &str) -> (r: Option<&'a ArgValue>)
    ensures
        match r {
            Some(v) => lookup(fields@, key@) == Some(*v),
            None => lookup(fields@, key@) is None,
        },
{
    let mut i: usize = 0;
    assert(fields@.subrange(0, fields@.len() as int) =~= fields@);
    while i < fields.len()
        invariant
            i <= fields@.len(),
            lookup(fields@, key@) == lookup(fields@.subrange(i as int, fields@.len() as int), key@),
        decreases fields.len() - i,
    {
        proof {
            let rest = fields@.subrange(i as int, fields@.len() as int);
            assert(rest.drop_first() =~= fields@.subrange(i + 1, fields@.len() as int));
            assert(rest[0] == fields@[i as int]);
        }
        let k = crate::text::chars_of(fields[i].0.as_str());
        let q = crate::text::chars_of(key);
        if crate::text::same_chars(&k, &q) {
            return Some(&fields[i].1);
        }
        i += 1;
    }
    None
}

/// The kind name of a JSON value, as serde_json words it.
pub fn value_kind(v: &ArgValue) -> (r: &'static str)
    ensures
        r@ == kind_of(*v),
{
    proof {
        reveal_strlit("null");
        reveal_strlit("boolean");
        reveal_strlit("number");
        reveal_strlit("string");
        reveal_strlit("array");
        reveal_strlit("object");
    }
    match v {
        ArgValue::Null => "null",
        ArgValue::Bool(_) => "boolean",
        ArgValue::Number(_) => "number",
        ArgValue::Str(_) => "string",
        ArgValue::Array(_) => "array",
        ArgValue::Object(_) => "object",
    }
}

/// The kind name of a JSON value.
pub open spec fn kind_of(v: ArgValue) -> Seq<char> {
    match v {
        ArgValue::Null => "null"@,
        ArgValue::Bool(_) => "boolean"@,
        ArgValue::Number(_) => "number"@,
        ArgValue::Str(_) => "string"@,
        ArgValue::Array(_) => "array"@,
        ArgValue::Object(_) => "object"@,
    }
}

/// The JSON text of a value (what `{value}` renders): the literal of a
/// `null` or a boolean, the kept text of a number, an array or an object,
/// and serde_json's quoted form of a string.
pub open spec fn json_text_of(v: ArgValue) -> Seq<char> {
    match v {
        ArgValue::Null => "null"@,
        ArgValue::Bool(b) => if b {
            "true"@
        } else {
            "false"@
        },
        ArgValue::Number(t) => t@,
        ArgValue::Str(s) => json_quoted_of(s@),
        ArgValue::Array(t) => t@,
        ArgValue::Object(t) => t@,
    }
}

/// The JSON text of a value (see [`json_text_of`]).
pub fn json_text(v: &ArgValue) -> (r: String)
    ensures
        r@ == json_text_of(*v),
{
    proof {
        reveal_strlit("null");
        reveal_strlit("true");
        reveal_strlit("false");
    }
    match v {
        ArgValue::Null => String::from_str("null"),
        ArgValue::Bool(b) => if *b {
            String::from_str("true")
        } else {
            String::from_str("false")
        },
        ArgValue::Number(t) => t.clone(),
        ArgValue::Str(s) => json_quoted(s.as_str()),
        ArgValue::Array(t) => t.clone(),
        ArgValue::Object(t) => t.clone(),
    }
}

/// The keys of `fields` that `allowed` does not hold, in order.
pub open spec fn unknown_keys(fields: Seq<(String, ArgValue)>, allowed: Seq<Seq<char>>, n: int) -> Seq<
    Seq<char>,
>
    decreases n,
{
    if n <= 0 {
        Seq::empty()
    } else {
        let prev = unknown_keys(fields, allowed, n - 1);
        if allowed.contains(fields[n - 1].0@) {
            prev
        } else {
            prev.push(fields[n - 1].0@)
        }
    }
}

/// The keys of `fields` outside `allowed`, in order.
pub fn unknown_fields(fields: &Vec<(String, ArgValue)>, allowed: &Vec<String>) -> (r: Vec<String>)
    ensures
        r@.map_values(|s: String| s@) == unknown_keys(
            fields@,
            allowed@.map_values(|s: String| s@),
            fields@.len() as int,
        ),
{
    let ghost al = allowed@.map_values(|s: String| s@);
    let mut out: Vec<String> = Vec::new();
    let mut i: usize = 0;
    while i < fields.len()
        invariant
            i <= fields@.len(),
            al == allowed@.map_values(|s: String| s@),
            out@.map_values(|s: String| s@) == unknown_keys(fields@, al, i as int),
        decreases fields.len() - i,
    {
        let k = &fields[i].0;
        let mut known = false;
        let mut j: usize = 0;
        while j < allowed.len()
            invariant
                j <= allowed@.len(),
                al == allowed@.map_values(|s: String| s@),
                known == (exists|x: int| 0 <= x < j && al[x] == k@),
            decreases allowed.len() - j,
        {
            assert(al[j as int] == allowed@[j as int]@);
            if crate::text::same_text(&allowed[j], k) {
                known = true;
            }
            proof {
                if known && !(exists|x: int| 0 <= x < j && al[x] == k@) {
                    assert(al[j as int] == k@);
                }
            }
            j += 1;
        }
        proof {
            if known {
                let x = choose|x: int| 0 <= x < allowed@.len() && al[x] == k@;
                assert(al.contains(k@));
            } else {
                assert(!al.contains(k@));
            }
        }
        let ghost before = out@.map_values(|s: String| s@);
        if !known {
            out.push(k.clone());
            proof {
                assert(out@.map_values(|s: String| s@) =~= before.push(k@));
            }
        }
        i += 1;
    }
    out
}

/// `format!("{:?}", names)` for a list of names.
pub open spec fn debug_list(names: Seq<Seq<char>>) -> Seq<char>
    decreases names.len(),
{
    if names.len() == 0 {
        "[]"@
    } else {
        debug_list(names.drop_last()).drop_last() + (if names.len() > 1 {
            ", "@
        } else {
            Seq::empty()
        }) + crate::pattern::debug_str_of(names.last()) + "]"@
    }
}

/// Render a list of names as `{:?}` renders it.
pub fn debug_names(names: &Vec<String>) -> (r: String)
    ensures
        r@ == debug_list(names@.map_values(|s: String| s@)),
{
    let ghost view = names@.map_values(|s: String| s@);
    let mut m = String::from_str("[");
    proof {
        reveal_strlit("[");
        reveal_strlit("]");
        reveal_strlit(", ");
        reveal_strlit("[]");
        assert(view.take(0) =~= Seq::<Seq<char>>::empty());
        assert(m@ + "]"@ =~= "[]"@);
    }
    let mut j: usize = 0;
    while j < names.len()
        invariant
            j <= names@.len(),
            view == names@.map_values(|s: String| s@),
            m@ + "]"@ == debug_list(view.take(j as int)),
            "]"@ == seq![']'],
            ", "@ == seq![',', ' '],
        decreases names.len() - j,
    {
        let ghost before = m@;
        if j > 0 {
            m.append(", ");
        }
        let q = debug_text(names[j].as_str());
        m.append(q.as_str());
        proof {
            let t = view.take(j + 1);
            assert(t.drop_last() =~= view.take(j as int));
            assert(t.last() == names@[j as int]@);
            assert((before + "]"@).drop_last() =~= before);
            assert(m@ + "]"@ =~= debug_list(t));
        }
        j += 1;
    }
    m.append("]");
    proof {
        assert(view.take(names@.len() as int) =~= view);
    }
    m
}

} // verus!
