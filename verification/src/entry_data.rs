//! The optional `data` field on an entry: free-form JSON that users and agents can
//! hang extra information on. Held here as a plain tree the library can read and
//! edit; an object keeps its keys in ascending order, as the store's JSON map does.

use vstd::prelude::*;
use crate::report::{found_at, key_pos, key_position, keys_of};
use crate::text::seq_lt;
use crate::text::{chars_eq, chars_of, lines, lines_of, push_all, push_str, string_of, trim, trim_chars};

verus! {

/// One JSON value. A number keeps the text it was written with.
#[derive(Debug)]
pub enum Json {
    Null,
    Bool(bool),
    Number(String),
    Str(String),
    Array(Vec<Json>),
    /// Keys unique and ascending.
    Object(Vec<(String, Json)>),
}

/// The value under `key` in an object's fields.
pub open spec fn field(fields: Seq<(String, Json)>, key: Seq<char>) -> Option<Json>
    decreases fields.len(),
{
    if fields.len() == 0 {
        None
    } else if fields[0].0@ == key {
        Some(fields[0].1)
    } else {
        field(fields.drop_first(), key)
    }
}

/// The activity session an entry was logged for: the string at `agent.session`.
pub open spec fn agent_session_of(data: Option<Json>) -> Option<Seq<char>> {
    match data {
        Some(Json::Object(top)) => match field(top@, "agent"@) {
            Some(Json::Object(ns)) => match field(ns@, "session"@) {
                Some(Json::Str(s)) => Some(s@),
                _ => None,
            },
            _ => None,
        },
        _ => None,
    }
}

fn get_field<'a>(fields: &'a Vec<(String, Json)>, key: &str) -> (r: Option<&'a Json>)
    ensures
        match r {
            Some(v) => field(fields@, key@) == Some(*v),
            None => field(fields@, key@) is None,
        },
{
    let k = chars_of(key);
    let mut i: usize = 0;
    assert(fields@.skip(0) =~= fields@);
    while i < fields.len()
        invariant
            i <= fields.len(),
            k@ == key@,
            field(fields@, key@) == field(fields@.skip(i as int), key@),
        decreases fields.len() - i,
    {
        let ghost rest = fields@.skip(i as int);
        assert(rest.drop_first() =~= fields@.skip(i + 1));
        assert(rest[0] == fields@[i as int]);
        if chars_eq(&chars_of(fields[i].0.as_str()), &k) {
            return Some(&fields[i].1);
        }
        i += 1;
    }
    None
}

/// The activity session an entry was logged for, or `None` for one that names no
/// session — which the audit reads as covering every same-project session.
pub fn agent_session(data: &Option<Json>) -> (r: Option<String>)
    ensures
        match r {
            Some(s) => agent_session_of(*data) == Some(s@),
            None => agent_session_of(*data) is None,
        },
{
    match data {
        Some(Json::Object(top)) => match get_field(top, "agent") {
            Some(Json::Object(ns)) => match get_field(ns, "session") {
                Some(Json::Str(s)) => Some(string_of(&chars_of(s.as_str()))),
                _ => None,
            },
            _ => None,
        },
        _ => None,
    }
}

fn copy_text(s: &String) -> (r: String)
    ensures
        r == *s,
{
    s.clone()
}

/// A JSON value as mathematics sees it.
pub enum JsonView {
    Null,
    Bool(bool),
    Number(Seq<char>),
    Str(Seq<char>),
    Array(Seq<JsonView>),
    Object(Seq<(Seq<char>, JsonView)>),
}

pub open spec fn json_view(j: Json) -> JsonView
    decreases j, 0int,
{
    match j {
        Json::Null => JsonView::Null,
        Json::Bool(b) => JsonView::Bool(b),
        Json::Number(n) => JsonView::Number(n@),
        Json::Str(s) => JsonView::Str(s@),
        Json::Array(items) => JsonView::Array(items_view(items@, items@.len() as int)),
        Json::Object(fields) => JsonView::Object(fields_view(fields@, fields@.len() as int)),
    }
}

/// The views of the first `n` items.
pub open spec fn items_view(items: Seq<Json>, n: int) -> Seq<JsonView>
    decreases items, n,
{
    if n <= 0 || n > items.len() {
        seq![]
    } else {
        items_view(items, n - 1).push(json_view(items[n - 1]))
    }
}

/// The views of the first `n` fields.
pub open spec fn fields_view(fields: Seq<(String, Json)>, n: int) -> Seq<(Seq<char>, JsonView)>
    decreases fields, n,
{
    if n <= 0 || n > fields.len() {
        seq![]
    } else {
        fields_view(fields, n - 1).push((fields[n - 1].0@, json_view(fields[n - 1].1)))
    }
}

proof fn lemma_items_view_prefix(a: Seq<Json>, b: Seq<Json>, n: int)
    requires
        0 <= n <= a.len(),
        n <= b.len(),
        forall|k: int| 0 <= k < n ==> json_view(#[trigger] a[k]) == json_view(b[k]),
    ensures
        items_view(a, n) == items_view(b, n),
    decreases n,
{
    if n > 0 {
        lemma_items_view_prefix(a, b, n - 1);
    }
}

proof fn lemma_fields_view_prefix(a: Seq<(String, Json)>, b: Seq<(String, Json)>, n: int)
    requires
        0 <= n <= a.len(),
        n <= b.len(),
        forall|k: int| 0 <= k < n ==> (#[trigger] a[k]).0 == b[k].0 && json_view(a[k].1) == json_view(b[k].1),
    ensures
        fields_view(a, n) == fields_view(b, n),
    decreases n,
{
    if n > 0 {
        lemma_fields_view_prefix(a, b, n - 1);
    }
}

impl Json {
    /// A copy with the same view.
    pub fn deep_copy(&self) -> (r: Json)
        ensures
            json_view(r) == json_view(*self),
        decreases self,
    {
        match self {
            Json::Null => Json::Null,
            Json::Bool(b) => Json::Bool(*b),
            Json::Number(n) => Json::Number(copy_text(n)),
            Json::Str(s) => Json::Str(copy_text(s)),
            Json::Array(items) => {
                let mut out: Vec<Json> = Vec::new();
                let mut i: usize = 0;
                while i < items.len()
                    invariant
                        i <= items.len(),
                        *self == Json::Array(*items),
                        out@.len() == i,
                        forall|k: int| 0 <= k < i ==> json_view(#[trigger] out@[k]) == json_view(items@[k]),
                    decreases items.len() - i,
                {
                    proof {
                        assert(decreases_to!(*self => (*self)->Array_0));
                        broadcast use vstd::std_specs::vec::axiom_vec_index_decreases;
                        assert(decreases_to!(*items => items[i as int]));
                    }
                    out.push(items[i].deep_copy());
                    i += 1;
                }
                proof {
                    lemma_items_view_prefix(out@, items@, items@.len() as int);
                }
                Json::Array(out)
            },
            Json::Object(fields) => {
                let mut out: Vec<(String, Json)> = Vec::new();
                let mut i: usize = 0;
                while i < fields.len()
                    invariant
                        i <= fields.len(),
                        *self == Json::Object(*fields),
                        out@.len() == i,
                        forall|k: int| 0 <= k < i ==> (#[trigger] out@[k]).0 == fields@[k].0 && json_view(out@[k].1) == json_view(fields@[k].1),
                    decreases fields.len() - i,
                {
                    proof {
                        assert(decreases_to!(*self => (*self)->Object_0));
                        broadcast use vstd::std_specs::vec::axiom_vec_index_decreases;
                        assert(decreases_to!(*fields => fields[i as int]));
                        assert(decreases_to!(fields[i as int] => fields[i as int].1));
                    }
                    let value = fields[i].1.deep_copy();
                    out.push((copy_text(&fields[i].0), value));
                    i += 1;
                }
                proof {
                    lemma_fields_view_prefix(out@, fields@, fields@.len() as int);
                }
                Json::Object(out)
            },
        }
    }
}

pub open spec fn data_view(data: Option<Json>) -> Option<JsonView> {
    match data {
        Some(j) => Some(json_view(j)),
        None => None,
    }
}

/// A copy of optional data.
pub fn copy_data(data: &Option<Json>) -> (r: Option<Json>)
    ensures
        data_view(r) == data_view(*data),
{
    match data {
        Some(v) => Some(v.deep_copy()),
        None => None,
    }
}

// --- stamping the agent namespace ---------------------------------------------------

/// The word a message names a JSON value's kind with.
pub open spec fn kind_of(v: JsonView) -> Seq<char> {
    match v {
        JsonView::Null => "null"@,
        JsonView::Bool(_) => "a boolean"@,
        JsonView::Number(_) => "a number"@,
        JsonView::Str(_) => "a string"@,
        JsonView::Array(_) => "an array"@,
        JsonView::Object(_) => "an object"@,
    }
}

pub fn kind(v: &Json) -> (r: &'static str)
    ensures
        r@ == kind_of(json_view(*v)),
{
    match v {
        Json::Null => "null",
        Json::Bool(_) => "a boolean",
        Json::Number(_) => "a number",
        Json::Str(_) => "a string",
        Json::Array(_) => "an array",
        Json::Object(_) => "an object",
    }
}

/// `key` set to `value` in an object's fields unless it is there already, the
/// keys kept in ascending order.
pub open spec fn add_key(fields: Seq<(Seq<char>, JsonView)>, key: Seq<char>, value: JsonView) -> Seq<(Seq<char>, JsonView)> {
    let q = key_pos(keys_of(fields), key) as int;
    if found_at(fields, key, q) {
        fields
    } else {
        fields.insert(q, (key, value))
    }
}

/// The data with `{"agent": {key: value}}` stamped in, keeping every key already
/// there, that key included; data that is no object counts as none. An `agent`
/// key holding something other than an object is refused by name.
pub open spec fn stamped(data: Option<JsonView>, key: Seq<char>, value: Seq<char>) -> Result<JsonView, Seq<char>> {
    let fields = match data {
        Some(JsonView::Object(f)) => f,
        _ => seq![],
    };
    let k = key_pos(keys_of(fields), "agent"@) as int;
    if found_at(fields, "agent"@, k) {
        match fields[k].1 {
            JsonView::Object(ns) => Ok(
                JsonView::Object(fields.update(k, ("agent"@, JsonView::Object(add_key(ns, key, JsonView::Str(value)))))),
            ),
            other => Err("expected \"agent\" to be a JSON object, got "@ + kind_of(other)),
        }
    } else {
        Ok(JsonView::Object(fields.insert(k, ("agent"@, JsonView::Object(seq![(key, JsonView::Str(value))])))))
    }
}

pub open spec fn field_views(f: Seq<(String, Json)>) -> Seq<(Seq<char>, JsonView)> {
    f.map_values(|x: (String, Json)| (x.0@, json_view(x.1)))
}

proof fn lemma_fields_view_map(f: Seq<(String, Json)>, n: int)
    requires
        0 <= n <= f.len(),
    ensures
        fields_view(f, n) == field_views(f.subrange(0, n)),
    decreases n,
{
    if n > 0 {
        lemma_fields_view_map(f, n - 1);
        assert(field_views(f.subrange(0, n)) =~= field_views(f.subrange(0, n - 1)).push((f[n - 1].0@, json_view(f[n - 1].1))));
    } else {
        assert(field_views(f.subrange(0, 0)) =~= Seq::<(Seq<char>, JsonView)>::empty());
    }
}

proof fn lemma_object_view(f: Vec<(String, Json)>)
    ensures
        json_view(Json::Object(f)) == JsonView::Object(field_views(f@)),
{
    lemma_fields_view_map(f@, f@.len() as int);
    assert(f@.subrange(0, f@.len() as int) =~= f@);
}

fn with_agent_key(data: Option<Json>, key: &str, value: &str) -> (r: Result<Json, String>)
    ensures
        match r {
            Ok(j) => stamped(data_view(data), key@, value@) == Ok::<JsonView, Seq<char>>(json_view(j)),
            Err(m) => stamped(data_view(data), key@, value@) == Err::<JsonView, Seq<char>>(m@),
        },
{
    let ghost dv = data_view(data);
    let mut fields: Vec<(String, Json)> = match data {
        Some(Json::Object(f)) => {
            proof {
                lemma_object_view(f);
            }
            f
        },
        _ => Vec::new(),
    };
    let ghost fv = field_views(fields@);
    assert(fv == match dv {
        Some(JsonView::Object(f)) => f,
        _ => seq![],
    });
    let agent = chars_of("agent");
    assert(keys_of(fv) =~= fields@.map_values(|p: (String, Json)| p.0@));
    let (k, found) = key_position(&fields, &agent);
    if found {
        let (name, ns) = fields.remove(k);
        match ns {
            Json::Object(mut nf) => {
                proof {
                    lemma_object_view(nf);
                }
                let ghost nv = field_views(nf@);
                let kc = chars_of(key);
                assert(keys_of(nv) =~= nf@.map_values(|p: (String, Json)| p.0@));
                let (q, f2) = key_position(&nf, &kc);
                if !f2 {
                    nf.insert(q, (String::from_str(key), Json::Str(String::from_str(value))));
                }
                assert(field_views(nf@) =~= add_key(nv, key@, JsonView::Str(value@)));
                proof {
                    lemma_object_view(nf);
                }
                let inner = Json::Object(nf);
                fields.insert(k, (name, inner));
                assert(field_views(fields@) =~= fv.update(k as int, ("agent"@, JsonView::Object(add_key(nv, key@, JsonView::Str(value@))))));
                proof {
                    lemma_object_view(fields);
                }
                Ok(Json::Object(fields))
            },
            other => {
                let mut out: Vec<char> = Vec::new();
                crate::text::push_str(&mut out, "expected \"agent\" to be a JSON object, got ");
                crate::text::push_str(&mut out, kind(&other));
                Err(string_of(&out))
            },
        }
    } else {
        let mut nf: Vec<(String, Json)> = Vec::new();
        nf.push((String::from_str(key), Json::Str(String::from_str(value))));
        proof {
            lemma_object_view(nf);
            assert(field_views(nf@) =~= seq![(key@, JsonView::Str(value@))]);
        }
        fields.insert(k, (String::from_str("agent"), Json::Object(nf)));
        assert(field_views(fields@) =~= fv.insert(k as int, ("agent"@, JsonView::Object(seq![(key@, JsonView::Str(value@))]))));
        proof {
            lemma_object_view(fields);
        }
        Ok(Json::Object(fields))
    }
}

/// Stamp `{"agent": {"label": <label>}}` into the caller's data, keeping every key
/// it already wrote, its own `agent.label` included.
pub fn with_agent_label(data: Option<Json>, label: &str) -> (r: Result<Json, String>)
    ensures
        match r {
            Ok(j) => stamped(data_view(data), "label"@, label@) == Ok::<JsonView, Seq<char>>(json_view(j)),
            Err(m) => stamped(data_view(data), "label"@, label@) == Err::<JsonView, Seq<char>>(m@),
        },
{
    with_agent_key(data, "label", label)
}

/// Stamp `{"agent": {"session": <id>}}` the same way: what makes an entry cover
/// the activity session it was logged for and no other.
pub fn with_agent_session(data: Option<Json>, session: &str) -> (r: Result<Json, String>)
    ensures
        match r {
            Ok(j) => stamped(data_view(data), "session"@, session@) == Ok::<JsonView, Seq<char>>(json_view(j)),
            Err(m) => stamped(data_view(data), "session"@, session@) == Err::<JsonView, Seq<char>>(m@),
        },
{
    with_agent_key(data, "session", session)
}

// --- reading a `--data` value ---------------------------------------------------------

/// What a `--data` value hands the JSON reader: the value trimmed, or nothing at
/// all when it is blank, which means "no data".
pub open spec fn data_text_of(raw: Seq<char>) -> Option<Seq<char>> {
    if trim(raw).len() == 0 {
        None
    } else {
        Some(trim(raw))
    }
}

/// The text of a `--data` value for the JSON reader, or `None` for a blank one.
pub fn data_text(raw: &str) -> (r: Option<String>)
    ensures
        match r {
            Some(t) => data_text_of(raw@) == Some(t@),
            None => data_text_of(raw@) is None,
        },
{
    let t = trim_chars(&chars_of(raw));
    if t.len() == 0 {
        None
    } else {
        Some(string_of(&t))
    }
}

/// The first line of a reader's message, so an error row stays one line.
pub open spec fn first_line(message: Seq<char>) -> Seq<char> {
    if lines(message).len() > 0 {
        lines(message)[0]
    } else {
        ""@
    }
}

/// What a read `--data` value becomes: the object itself, or the reader's error
/// cut to its first line, or a value that is no object refused by its kind,
/// since the detail view renders key/value rows and a bare scalar or array has
/// no keys.
pub open spec fn checked_data(read: Result<JsonView, Seq<char>>) -> Result<JsonView, Seq<char>> {
    match read {
        Err(e) => Err("invalid JSON: "@ + first_line(e)),
        Ok(JsonView::Object(f)) => Ok(JsonView::Object(f)),
        Ok(other) => Err("expected a JSON object like {\"key\": \"value\"}, got "@ + kind_of(other)),
    }
}

/// Finish reading a non-blank `--data` value from what the JSON reader made of it.
pub fn parse_checked(read: Result<Json, String>) -> (r: Result<Option<Json>, String>)
    ensures
        r matches Ok(x) ==> x is Some,
        checked_data(read_view(read)) == data_result(r),
{
    match read {
        Err(e) => {
            let mut out: Vec<char> = Vec::new();
            push_str(&mut out, "invalid JSON: ");
            let ls = lines_of(&chars_of(e.as_str()));
            proof {
                reveal_strlit("");
            }
            if ls.len() > 0 {
                assert(ls@[0]@ == lines(e@)[0]);
                push_all(&mut out, &ls[0]);
            }
            assert(out@ =~= "invalid JSON: "@ + first_line(e@));
            Err(string_of(&out))
        },
        Ok(Json::Object(f)) => Ok(Some(Json::Object(f))),
        Ok(other) => {
            let mut out: Vec<char> = Vec::new();
            push_str(&mut out, "expected a JSON object like {\"key\": \"value\"}, got ");
            push_str(&mut out, kind(&other));
            assert(out@ =~= "expected a JSON object like {\"key\": \"value\"}, got "@ + kind_of(json_view(other)));
            Err(string_of(&out))
        },
    }
}

/// What the JSON reader handed over, as mathematics sees it.
pub open spec fn read_view(read: Result<Json, String>) -> Result<JsonView, Seq<char>> {
    match read {
        Ok(v) => Ok(json_view(v)),
        Err(e) => Err(e@),
    }
}

/// What `parse_checked` returned, as mathematics sees it.
pub open spec fn data_result(r: Result<Option<Json>, String>) -> Result<JsonView, Seq<char>> {
    match r {
        Ok(Some(j)) => Ok(json_view(j)),
        Ok(None) => Err(seq![]),
        Err(m) => Err(m@),
    }
}

// --- display rows -------------------------------------------------------------------

/// A leaf as it reads on screen: a string unquoted, anything else as JSON. Only an
/// empty object or array reaches here as a container.
pub open spec fn scalar_text(v: JsonView) -> Seq<char> {
    match v {
        JsonView::Null => "null"@,
        JsonView::Bool(b) => if b { "true"@ } else { "false"@ },
        JsonView::Number(n) => n,
        JsonView::Str(s) => s,
        JsonView::Array(_) => "[]"@,
        JsonView::Object(_) => "{}"@,
    }
}

/// The path of an object's child: its key, joined to the parent's with a dot.
pub open spec fn key_path(prefix: Seq<char>, key: Seq<char>) -> Seq<char> {
    if prefix.len() == 0 {
        key
    } else {
        prefix + "."@ + key
    }
}

/// The path of an array's `i`th item.
pub open spec fn index_path(prefix: Seq<char>, i: nat) -> Seq<char> {
    prefix + "["@ + crate::text::decimal(i) + "]"@
}

/// One `(path, text)` row per leaf under `v`, reached at `prefix`: nested objects
/// join their keys with `.`, arrays index with `[i]`, and an empty container is a
/// leaf of its own rather than vanishing.
pub open spec fn flat_rows(prefix: Seq<char>, v: JsonView) -> Seq<(Seq<char>, Seq<char>)>
    decreases v, 0int,
{
    match v {
        JsonView::Object(fields) => if fields.len() > 0 {
            fields_rows(prefix, fields, fields.len() as int)
        } else {
            seq![(prefix, scalar_text(v))]
        },
        JsonView::Array(items) => if items.len() > 0 {
            items_rows(prefix, items, items.len() as int)
        } else {
            seq![(prefix, scalar_text(v))]
        },
        _ => seq![(prefix, scalar_text(v))],
    }
}

/// The rows of the first `n` fields of an object at `prefix`, in key order.
pub open spec fn fields_rows(prefix: Seq<char>, fields: Seq<(Seq<char>, JsonView)>, n: int) -> Seq<(Seq<char>, Seq<char>)>
    decreases fields, n,
{
    if n <= 0 || n > fields.len() {
        seq![]
    } else {
        fields_rows(prefix, fields, n - 1) + flat_rows(key_path(prefix, fields[n - 1].0), fields[n - 1].1)
    }
}

/// The rows of the first `n` items of an array at `prefix`, in order.
pub open spec fn items_rows(prefix: Seq<char>, items: Seq<JsonView>, n: int) -> Seq<(Seq<char>, Seq<char>)>
    decreases items, n,
{
    if n <= 0 || n > items.len() {
        seq![]
    } else {
        items_rows(prefix, items, n - 1) + flat_rows(index_path(prefix, (n - 1) as nat), items[n - 1])
    }
}

/// The display rows of a whole value: an object's fields from the top, so an empty
/// object is no rows at all rather than one `{}` row with no key.
pub open spec fn rows_of(v: JsonView) -> Seq<(Seq<char>, Seq<char>)> {
    match v {
        JsonView::Object(fields) => fields_rows(""@, fields, fields.len() as int),
        _ => flat_rows(""@, v),
    }
}

pub open spec fn pair_views(v: Seq<(String, String)>) -> Seq<(Seq<char>, Seq<char>)> {
    v.map_values(|p: (String, String)| (p.0@, p.1@))
}

proof fn lemma_pair_views_push(v: Seq<(String, String)>, p: (String, String))
    ensures
        pair_views(v.push(p)) == pair_views(v).push((p.0@, p.1@)),
{
    assert(pair_views(v.push(p)) =~= pair_views(v).push((p.0@, p.1@)));
}

proof fn lemma_items_view_index(items: Seq<Json>, n: int, k: int)
    requires
        0 <= k < n <= items.len(),
    ensures
        items_view(items, n).len() == n,
        items_view(items, n)[k] == json_view(items[k]),
    decreases n,
{
    lemma_items_view_len(items, n);
    if k < n - 1 {
        lemma_items_view_index(items, n - 1, k);
    }
}

proof fn lemma_items_view_len(items: Seq<Json>, n: int)
    requires
        0 <= n <= items.len(),
    ensures
        items_view(items, n).len() == n,
    decreases n,
{
    if n > 0 {
        lemma_items_view_len(items, n - 1);
    }
}

proof fn lemma_fields_rows_prefix(prefix: Seq<char>, a: Seq<(Seq<char>, JsonView)>, b: Seq<(Seq<char>, JsonView)>, n: int)
    requires
        0 <= n <= a.len(),
        n <= b.len(),
        forall|k: int| 0 <= k < n ==> a[k] == b[k],
    ensures
        fields_rows(prefix, a, n) == fields_rows(prefix, b, n),
    decreases n,
{
    if n > 0 {
        lemma_fields_rows_prefix(prefix, a, b, n - 1);
    }
}

proof fn lemma_items_rows_prefix(prefix: Seq<char>, a: Seq<JsonView>, b: Seq<JsonView>, n: int)
    requires
        0 <= n <= a.len(),
        n <= b.len(),
        forall|k: int| 0 <= k < n ==> a[k] == b[k],
    ensures
        items_rows(prefix, a, n) == items_rows(prefix, b, n),
    decreases n,
{
    if n > 0 {
        lemma_items_rows_prefix(prefix, a, b, n - 1);
    }
}

fn scalar(v: &Json) -> (r: Vec<char>)
    ensures
        r@ == scalar_text(json_view(*v)),
{
    match v {
        Json::Null => chars_of("null"),
        Json::Bool(b) => if *b { chars_of("true") } else { chars_of("false") },
        Json::Number(n) => chars_of(n.as_str()),
        Json::Str(s) => chars_of(s.as_str()),
        Json::Array(_) => chars_of("[]"),
        Json::Object(_) => chars_of("{}"),
    }
}

fn flatten(prefix: &Vec<char>, value: &Json, out: &mut Vec<(String, String)>)
    ensures
        pair_views(final(out)@) == pair_views(old(out)@) + flat_rows(prefix@, json_view(*value)),
    decreases value,
{
    let ghost start = pair_views(out@);
    match value {
        Json::Object(fields) if fields.len() > 0 => {
            proof {
                lemma_object_view(*fields);
            }
            let ghost fv = field_views(fields@);
            let mut i: usize = 0;
            while i < fields.len()
                invariant
                    i <= fields.len(),
                    *value == Json::Object(*fields),
                    fv == field_views(fields@),
                    fv.len() == fields@.len(),
                    pair_views(out@) == start + fields_rows(prefix@, fv, i as int),
                decreases fields.len() - i,
            {
                proof {
                    assert(decreases_to!(*value => (*value)->Object_0));
                    broadcast use vstd::std_specs::vec::axiom_vec_index_decreases;
                    assert(decreases_to!(*fields => fields[i as int]));
                    assert(decreases_to!(fields[i as int] => fields[i as int].1));
                }
                let mut path: Vec<char> = Vec::new();
                if prefix.len() > 0 {
                    push_all(&mut path, prefix);
                    path.push('.');
                }
                let key = chars_of(fields[i].0.as_str());
                push_all(&mut path, &key);
                assert(path@ == key_path(prefix@, fv[i as int].0)) by {
                    if prefix@.len() > 0 {
                        assert(path@ =~= prefix@ + "."@ + fv[i as int].0) by {
                            reveal_strlit(".");
                        }
                    } else {
                        assert(path@ =~= fv[i as int].0);
                    }
                }
                flatten(&path, &fields[i].1, out);
                assert(fields_rows(prefix@, fv, i + 1) == fields_rows(prefix@, fv, i as int) + flat_rows(key_path(prefix@, fv[i as int].0), fv[i as int].1));
                assert(start + fields_rows(prefix@, fv, i + 1) =~= (start + fields_rows(prefix@, fv, i as int)) + flat_rows(key_path(prefix@, fv[i as int].0), fv[i as int].1));
                i += 1;
            }
        },
        Json::Array(items) if items.len() > 0 => {
            let ghost iv = items_view(items@, items@.len() as int);
            proof {
                lemma_items_view_len(items@, items@.len() as int);
            }
            let mut i: usize = 0;
            while i < items.len()
                invariant
                    i <= items.len(),
                    *value == Json::Array(*items),
                    iv == items_view(items@, items@.len() as int),
                    iv.len() == items@.len(),
                    pair_views(out@) == start + items_rows(prefix@, iv, i as int),
                decreases items.len() - i,
            {
                proof {
                    assert(decreases_to!(*value => (*value)->Array_0));
                    broadcast use vstd::std_specs::vec::axiom_vec_index_decreases;
                    assert(decreases_to!(*items => items[i as int]));
                    lemma_items_view_index(items@, items@.len() as int, i as int);
                }
                let mut path: Vec<char> = Vec::new();
                push_all(&mut path, prefix);
                path.push('[');
                crate::text::push_u64(&mut path, i as u64);
                path.push(']');
                assert(path@ =~= index_path(prefix@, i as nat)) by {
                    reveal_strlit("[");
                    reveal_strlit("]");
                }
                flatten(&path, &items[i], out);
                assert(start + items_rows(prefix@, iv, i + 1) =~= (start + items_rows(prefix@, iv, i as int)) + flat_rows(index_path(prefix@, i as nat), iv[i as int]));
                i += 1;
            }
        },
        _ => {
            let text = scalar(value);
            let row = (string_of(prefix), string_of(&text));
            proof {
                lemma_pair_views_push(out@, row);
            }
            out.push(row);
            proof {
                match value {
                    Json::Object(f) => {
                        lemma_object_view(*f);
                        assert(field_views(f@) =~= Seq::<(Seq<char>, JsonView)>::empty());
                    },
                    Json::Array(items) => {
                        lemma_items_view_len(items@, items@.len() as int);
                    },
                    _ => {},
                }
                assert(pair_views(out@) =~= start + seq![(prefix@, scalar_text(json_view(*value)))]);
            }
        },
    }
}

/// The data as display rows, one `(key, value)` per leaf, so every row is one line
/// however deep the data goes.
pub fn rows(data: &Json) -> (r: Vec<(String, String)>)
    ensures
        pair_views(r@) == rows_of(json_view(*data)),
{
    let mut out: Vec<(String, String)> = Vec::new();
    let none: Vec<char> = Vec::new();
    match data {
        Json::Object(fields) => {
            proof {
                lemma_object_view(*fields);
            }
            let ghost fv = field_views(fields@);
            let mut i: usize = 0;
            while i < fields.len()
                invariant
                    i <= fields.len(),
                    *data == Json::Object(*fields),
                    fv == field_views(fields@),
                    fv.len() == fields@.len(),
                    none@ == Seq::<char>::empty(),
                    pair_views(out@) == fields_rows(""@, fv, i as int),
                decreases fields.len() - i,
            {
                let key = chars_of(fields[i].0.as_str());
                proof {
                    reveal_strlit("");
                }
                assert(key@ == key_path(""@, fv[i as int].0));
                flatten(&key, &fields[i].1, &mut out);
                i += 1;
            }
            out
        },
        _ => {
            proof {
                reveal_strlit("");
            }
            assert(none@ =~= ""@);
            flatten(&none, data, &mut out);
            assert(pair_views(Seq::<(String, String)>::empty()) =~= Seq::<(Seq<char>, Seq<char>)>::empty());
            assert(pair_views(out@) =~= flat_rows(""@, json_view(*data)));
            out
        },
    }
}

// --- a stamped session reads back --------------------------------------------------------

/// The value under `key` among an object's fields, the first one carrying it.
pub open spec fn vfield(fields: Seq<(Seq<char>, JsonView)>, key: Seq<char>) -> Option<JsonView>
    decreases fields.len(),
{
    if fields.len() == 0 {
        None
    } else if fields[0].0 == key {
        Some(fields[0].1)
    } else {
        vfield(fields.drop_first(), key)
    }
}

/// The session an entry's data names: the string at `agent.session`.
pub open spec fn session_in(data: Option<JsonView>) -> Option<Seq<char>> {
    match data {
        Some(JsonView::Object(top)) => match vfield(top, "agent"@) {
            Some(JsonView::Object(ns)) => match vfield(ns, "session"@) {
                Some(JsonView::Str(s)) => Some(s),
                _ => None,
            },
            _ => None,
        },
        _ => None,
    }
}

/// Whether data names no session yet: its `agent` namespace, when it is an object,
/// holds no `session` key.
pub open spec fn names_no_session(data: Option<JsonView>) -> bool {
    match data {
        Some(JsonView::Object(top)) => match vfield(top, "agent"@) {
            Some(JsonView::Object(ns)) => vfield(ns, "session"@) is None,
            _ => true,
        },
        _ => true,
    }
}

proof fn lemma_field_view(f: Seq<(String, Json)>, key: Seq<char>)
    ensures
        vfield(field_views(f), key) == match field(f, key) {
            Some(v) => Some(json_view(v)),
            None => None,
        },
    decreases f.len(),
{
    if f.len() > 0 {
        assert(field_views(f).drop_first() =~= field_views(f.drop_first()));
        lemma_field_view(f.drop_first(), key);
    }
}

/// The session read off the data is the one read off its view.
pub proof fn lemma_session_view(data: Option<Json>)
    ensures
        agent_session_of(data) == session_in(data_view(data)),
{
    if let Some(Json::Object(top)) = data {
        lemma_object_view_seq(top@);
        lemma_field_view(top@, "agent"@);
        if let Some(Json::Object(ns)) = field(top@, "agent"@) {
            lemma_object_view_seq(ns@);
            lemma_field_view(ns@, "session"@);
        }
    }
}

proof fn lemma_object_view_seq(f: Seq<(String, Json)>)
    ensures
        forall|v: Vec<(String, Json)>| v@ == f ==> #[trigger] json_view(Json::Object(v)) == JsonView::Object(field_views(f)),
{
    assert forall|v: Vec<(String, Json)>| v@ == f implies #[trigger] json_view(Json::Object(v)) == JsonView::Object(field_views(f)) by {
        lemma_object_view(v);
    }
}

proof fn lemma_seq_lt_irreflexive(a: Seq<char>)
    ensures
        !seq_lt(a, a),
    decreases a.len(),
{
    if a.len() > 0 {
        lemma_seq_lt_irreflexive(a.drop_first());
    }
}

/// Every key before `key_pos` sorts before `key`, so none is `key` itself.
proof fn lemma_before_key_pos<V>(list: Seq<(Seq<char>, V)>, key: Seq<char>)
    ensures
        forall|i: int| 0 <= i < key_pos(keys_of(list), key) ==> (#[trigger] list[i]).0 != key,
        key_pos(keys_of(list), key) <= list.len(),
    decreases list.len(),
{
    lemma_seq_lt_irreflexive(key);
    if list.len() > 0 {
        let rest = list.drop_first();
        assert(keys_of(list).drop_first() =~= keys_of(rest));
        lemma_before_key_pos(rest, key);
        assert forall|i: int| 0 <= i < key_pos(keys_of(list), key) implies (#[trigger] list[i]).0 != key by {
            if i > 0 {
                assert(list[i] == rest[i - 1]);
            } else {
                assert(keys_of(list)[0] == list[0].0);
            }
        }
    }
}

/// A pair placed at `k`, with no pair before it carrying its key, is the one found.
proof fn lemma_vfield_at(fields: Seq<(Seq<char>, JsonView)>, key: Seq<char>, k: int)
    requires
        0 <= k < fields.len(),
        fields[k].0 == key,
        forall|i: int| 0 <= i < k ==> (#[trigger] fields[i]).0 != key,
    ensures
        vfield(fields, key) == Some(fields[k].1),
    decreases k,
{
    if k > 0 {
        let rest = fields.drop_first();
        assert forall|i: int| 0 <= i < k - 1 implies (#[trigger] rest[i]).0 != key by {
            assert(rest[i] == fields[i + 1]);
        }
        lemma_vfield_at(rest, key, k - 1);
    }
}

/// The fields with `key` set by `add_key` when it was absent: the new value is the
/// one found under it.
proof fn lemma_add_key_found(fields: Seq<(Seq<char>, JsonView)>, key: Seq<char>, value: JsonView)
    requires
        vfield(fields, key) is None,
    ensures
        vfield(add_key(fields, key, value), key) == Some(value),
{
    let q = key_pos(keys_of(fields), key) as int;
    lemma_before_key_pos(fields, key);
    lemma_vfield_none(fields, key);
    let g = fields.insert(q, (key, value));
    assert(!found_at(fields, key, q));
    assert forall|i: int| 0 <= i < q implies (#[trigger] g[i]).0 != key by {
        assert(g[i] == fields[i]);
    }
    lemma_vfield_at(g, key, q);
}

proof fn lemma_vfield_none(fields: Seq<(Seq<char>, JsonView)>, key: Seq<char>)
    requires
        vfield(fields, key) is None,
    ensures
        forall|i: int| 0 <= i < fields.len() ==> (#[trigger] fields[i]).0 != key,
    decreases fields.len(),
{
    if fields.len() > 0 {
        lemma_vfield_none(fields.drop_first(), key);
        assert forall|i: int| 0 <= i < fields.len() implies (#[trigger] fields[i]).0 != key by {
            if i > 0 {
                assert(fields[i] == fields.drop_first()[i - 1]);
            }
        }
    }
}

/// Stamping a session onto data that names none yet makes the data name that
/// session: what lets an entry cover the session it was logged for.
pub proof fn lemma_a_stamped_session_reads_back(data: Option<JsonView>, s: Seq<char>)
    requires
        names_no_session(data),
    ensures
        stamped(data, "session"@, s) matches Ok(v) ==> session_in(Some(v)) == Some(s),
{
    let fields = match data {
        Some(JsonView::Object(f)) => f,
        _ => seq![],
    };
    let k = key_pos(keys_of(fields), "agent"@) as int;
    lemma_before_key_pos(fields, "agent"@);
    if found_at(fields, "agent"@, k) {
        lemma_vfield_at(fields, "agent"@, k);
        if let JsonView::Object(ns) = fields[k].1 {
            lemma_add_key_found(ns, "session"@, JsonView::Str(s));
            let g = fields.update(k, ("agent"@, JsonView::Object(add_key(ns, "session"@, JsonView::Str(s)))));
            assert forall|i: int| 0 <= i < k implies (#[trigger] g[i]).0 != "agent"@ by {
                assert(g[i] == fields[i]);
            }
            lemma_vfield_at(g, "agent"@, k);
        }
    } else {
        let ns = seq![("session"@, JsonView::Str(s))];
        lemma_vfield_at(ns, "session"@, 0);
        let g = fields.insert(k, ("agent"@, JsonView::Object(ns)));
        assert forall|i: int| 0 <= i < k implies (#[trigger] g[i]).0 != "agent"@ by {
            assert(g[i] == fields[i]);
        }
        lemma_vfield_at(g, "agent"@, k);
    }
}

// --- stamping keeps every key ---------------------------------------------------------------

/// An object's keys strictly ascending, as the store's JSON map keeps them.
pub open spec fn keys_ascending(fields: Seq<(Seq<char>, JsonView)>) -> bool {
    forall|i: int, j: int| 0 <= i < j < fields.len() ==> seq_lt((#[trigger] fields[i]).0, (#[trigger] fields[j]).0)
}

proof fn lemma_key_pos_stops<V>(list: Seq<(Seq<char>, V)>, key: Seq<char>)
    ensures
        key_pos(keys_of(list), key) < list.len() ==> !seq_lt(list[key_pos(keys_of(list), key) as int].0, key),
        forall|i: int| 0 <= i < key_pos(keys_of(list), key) ==> seq_lt((#[trigger] list[i]).0, key),
    decreases list.len(),
{
    lemma_before_key_pos(list, key);
    if list.len() > 0 {
        let rest = list.drop_first();
        assert(keys_of(list).drop_first() =~= keys_of(rest));
        assert(keys_of(list)[0] == list[0].0);
        lemma_key_pos_stops(rest, key);
        assert forall|i: int| 0 <= i < key_pos(keys_of(list), key) implies seq_lt((#[trigger] list[i]).0, key) by {
            if i > 0 {
                assert(list[i] == rest[i - 1]);
            }
        }
        if seq_lt(list[0].0, key) && key_pos(keys_of(list), key) < list.len() {
            assert(list[key_pos(keys_of(list), key) as int] == rest[key_pos(keys_of(rest), key) as int]);
        }
    }
}

/// In ascending keys, a key that is there is where `key_pos` looks.
proof fn lemma_present_is_found(fields: Seq<(Seq<char>, JsonView)>, key: Seq<char>)
    requires
        keys_ascending(fields),
        vfield(fields, key) is Some,
    ensures
        found_at(fields, key, key_pos(keys_of(fields), key) as int),
        vfield(fields, key) == Some(fields[key_pos(keys_of(fields), key) as int].1),
{
    let k = key_pos(keys_of(fields), key) as int;
    lemma_key_pos_stops(fields, key);
    lemma_before_key_pos(fields, key);
    let m = lemma_vfield_index(fields, key);
    if m > k {
        assert(seq_lt(fields[k].0, fields[m].0));
    }
    if m < k {
        assert(fields[m].0 != key);
    }
    assert(m == k);
}

/// Where `vfield` found its value.
proof fn lemma_vfield_index(fields: Seq<(Seq<char>, JsonView)>, key: Seq<char>) -> (m: int)
    requires
        vfield(fields, key) is Some,
    ensures
        0 <= m < fields.len(),
        fields[m].0 == key,
        vfield(fields, key) == Some(fields[m].1),
        forall|i: int| 0 <= i < m ==> (#[trigger] fields[i]).0 != key,
    decreases fields.len(),
{
    if fields[0].0 == key {
        0
    } else {
        let rest = fields.drop_first();
        let m1 = lemma_vfield_index(rest, key);
        assert forall|i: int| 0 <= i < m1 + 1 implies (#[trigger] fields[i]).0 != key by {
            if i > 0 {
                assert(fields[i] == rest[i - 1]);
            }
        }
        m1 + 1
    }
}

/// The object's fields, or none for data that is no object.
pub open spec fn top_fields(data: Option<JsonView>) -> Seq<(Seq<char>, JsonView)> {
    match data {
        Some(JsonView::Object(f)) => f,
        _ => seq![],
    }
}

/// The namespace's fields before stamping: the `agent` object's, else none.
pub open spec fn namespace_fields(data: Option<JsonView>) -> Seq<(Seq<char>, JsonView)> {
    match vfield(top_fields(data), "agent"@) {
        Some(JsonView::Object(ns)) => ns,
        _ => seq![],
    }
}

proof fn lemma_add_key_keeps(fields: Seq<(Seq<char>, JsonView)>, key: Seq<char>, value: JsonView)
    requires
        keys_ascending(fields),
    ensures
        forall|p: (Seq<char>, JsonView)| fields.contains(p) ==> #[trigger] add_key(fields, key, value).contains(p),
        vfield(fields, key) is Some ==> vfield(add_key(fields, key, value), key) == vfield(fields, key),
        vfield(fields, key) is None ==> vfield(add_key(fields, key, value), key) == Some(value),
{
    let q = key_pos(keys_of(fields), key) as int;
    lemma_before_key_pos(fields, key);
    if vfield(fields, key) is Some {
        lemma_present_is_found(fields, key);
    } else {
        lemma_add_key_found(fields, key, value);
        lemma_vfield_none(fields, key);
        let g = fields.insert(q, (key, value));
        assert forall|p: (Seq<char>, JsonView)| fields.contains(p) implies #[trigger] g.contains(p) by {
            let j = choose|j: int| 0 <= j < fields.len() && fields[j] == p;
            if j < q {
                assert(g[j] == p);
            } else {
                assert(g[j + 1] == p);
            }
        }
    }
}

/// Stamping merges key by key and never replaces: every top-level key but
/// `agent` survives unchanged, every key already under `agent` survives, the
/// stamped key is there afterwards, and one the caller wrote itself wins.
pub proof fn lemma_stamping_keeps_every_key(data: Option<JsonView>, key: Seq<char>, value: Seq<char>)
    requires
        keys_ascending(top_fields(data)),
        keys_ascending(namespace_fields(data)),
    ensures
        stamped(data, key, value) matches Ok(JsonView::Object(g)) ==> {
            &&& forall|p: (Seq<char>, JsonView)|
                top_fields(data).contains(p) && p.0 != "agent"@ ==> #[trigger] g.contains(p)
            &&& vfield(g, "agent"@) matches Some(JsonView::Object(ns)) && {
                &&& forall|p: (Seq<char>, JsonView)| namespace_fields(data).contains(p) ==> #[trigger] ns.contains(p)
                &&& vfield(ns, key) is Some
                &&& vfield(namespace_fields(data), key) is Some ==> vfield(ns, key) == vfield(namespace_fields(data), key)
            }
        },
{
    let fields = top_fields(data);
    let k = key_pos(keys_of(fields), "agent"@) as int;
    lemma_before_key_pos(fields, "agent"@);
    if found_at(fields, "agent"@, k) {
        lemma_vfield_at(fields, "agent"@, k);
        if let JsonView::Object(ns) = fields[k].1 {
            assert(namespace_fields(data) == ns);
            lemma_add_key_keeps(ns, key, JsonView::Str(value));
            let ns2 = add_key(ns, key, JsonView::Str(value));
            let g = fields.update(k, ("agent"@, JsonView::Object(ns2)));
            assert forall|i: int| 0 <= i < k implies (#[trigger] g[i]).0 != "agent"@ by {
                assert(g[i] == fields[i]);
            }
            lemma_vfield_at(g, "agent"@, k);
            assert forall|p: (Seq<char>, JsonView)| fields.contains(p) && p.0 != "agent"@ implies #[trigger] g.contains(p) by {
                let j = choose|j: int| 0 <= j < fields.len() && fields[j] == p;
                assert(j != k);
                assert(g[j] == p);
            }
        }
    } else {
        if vfield(fields, "agent"@) is Some {
            lemma_present_is_found(fields, "agent"@);
        }
        assert(namespace_fields(data) == Seq::<(Seq<char>, JsonView)>::empty());
        let ns = seq![(key, JsonView::Str(value))];
        lemma_vfield_at(ns, key, 0);
        let g = fields.insert(k, ("agent"@, JsonView::Object(ns)));
        assert forall|i: int| 0 <= i < k implies (#[trigger] g[i]).0 != "agent"@ by {
            assert(g[i] == fields[i]);
        }
        lemma_vfield_at(g, "agent"@, k);
        assert forall|p: (Seq<char>, JsonView)| fields.contains(p) && p.0 != "agent"@ implies #[trigger] g.contains(p) by {
            let j = choose|j: int| 0 <= j < fields.len() && fields[j] == p;
            if j < k {
                assert(g[j] == p);
            } else {
                assert(g[j + 1] == p);
            }
        }
    }
}

} // verus!
