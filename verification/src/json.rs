//! JSON documents as the gateway and the log scanner see them.
//!
//! `JsonValue` is the executable tree; `Json` is its mathematical model.
//! Object members keep the order in which they were read or inserted, and a
//! number is kept as its canonical text.

use vstd::prelude::*;

verus! {

/// A JSON document.
#[derive(Debug)]
pub enum JsonValue {
    Null,
    Bool(bool),
    /// The number's canonical text, such as `42` or `1.5`.
    Number(String),
    Str(String),
    Array(Vec<JsonValue>),
    Object(Vec<(String, JsonValue)>),
}

/// The model of a JSON document.
pub enum Json {
    Null,
    Bool(bool),
    Num(Seq<char>),
    Str(Seq<char>),
    Arr(Seq<Json>),
    Obj(Seq<(Seq<char>, Json)>),
}

impl JsonValue {
    pub open spec fn model(&self) -> Json
        decreases self,
    {
        match self {
            JsonValue::Null => Json::Null,
            JsonValue::Bool(b) => Json::Bool(*b),
            JsonValue::Number(t) => Json::Num(t@),
            JsonValue::Str(s) => Json::Str(s@),
            JsonValue::Array(items) => Json::Arr(models_of(items@)),
            JsonValue::Object(ms) => Json::Obj(members_of(ms@)),
        }
    }
}

/// The models of a sequence of documents.
pub open spec fn models_of(items: Seq<JsonValue>) -> Seq<Json>
    decreases items,
{
    if items.len() == 0 {
        Seq::empty()
    } else {
        models_of(items.drop_last()).push(items.last().model())
    }
}

/// The models of a sequence of object members.
pub open spec fn members_of(ms: Seq<(String, JsonValue)>) -> Seq<(Seq<char>, Json)>
    decreases ms,
{
    if ms.len() == 0 {
        Seq::empty()
    } else {
        members_of(ms.drop_last()).push((ms.last().0@, ms.last().1.model()))
    }
}


pub proof fn lemma_models_of(items: Seq<JsonValue>)
    ensures
        models_of(items).len() == items.len(),
        forall|i: int| 0 <= i < items.len() ==> #[trigger] models_of(items)[i] == items[i].model(),
    decreases items.len(),
{
    if items.len() > 0 {
        lemma_models_of(items.drop_last());
    }
}

pub proof fn lemma_members_of(ms: Seq<(String, JsonValue)>)
    ensures
        members_of(ms).len() == ms.len(),
        forall|i: int|
            0 <= i < ms.len() ==> #[trigger] members_of(ms)[i] == (ms[i].0@, ms[i].1.model()),
    decreases ms.len(),
{
    if ms.len() > 0 {
        lemma_members_of(ms.drop_last());
    }
}

// ---------------------------------------------------------------------------
// Reading a document
// ---------------------------------------------------------------------------

/// Position `i` holds the first member named `key`.
pub open spec fn first_key_at(ms: Seq<(Seq<char>, Json)>, key: Seq<char>, i: int) -> bool {
    &&& 0 <= i < ms.len()
    &&& ms[i].0 == key
    &&& forall|j: int| 0 <= j < i ==> ms[j].0 != key
}

/// The value of the first member named `key` (`Map::get`).
pub open spec fn member(ms: Seq<(Seq<char>, Json)>, key: Seq<char>) -> Option<Json> {
    if exists|i: int| first_key_at(ms, key, i) {
        Some(ms[choose|i: int| first_key_at(ms, key, i)].1)
    } else {
        None
    }
}

/// `Value::get` with a key: the member of an object, `None` for anything else.
pub open spec fn field(v: Json, key: Seq<char>) -> Option<Json> {
    match v {
        Json::Obj(ms) => member(ms, key),
        _ => None,
    }
}

/// `Value::as_str`.
pub open spec fn as_text(v: Option<Json>) -> Option<Seq<char>> {
    match v {
        Some(Json::Str(s)) => Some(s),
        _ => None,
    }
}

/// `Value::as_bool`.
pub open spec fn as_flag(v: Option<Json>) -> Option<bool> {
    match v {
        Some(Json::Bool(b)) => Some(b),
        _ => None,
    }
}

/// The members after `ms[key]` is set to `val`: an existing member keeps its
/// place, a new one goes last (`Map::insert`).
pub open spec fn set_member(ms: Seq<(Seq<char>, Json)>, key: Seq<char>, val: Json) -> Seq<(Seq<char>, Json)> {
    if exists|i: int| first_key_at(ms, key, i) {
        ms.update(choose|i: int| first_key_at(ms, key, i), (key, val))
    } else {
        ms.push((key, val))
    }
}

pub proof fn lemma_first_key_unique(ms: Seq<(Seq<char>, Json)>, key: Seq<char>, i: int, j: int)
    requires
        first_key_at(ms, key, i),
        first_key_at(ms, key, j),
    ensures
        i == j,
{
    if i < j {
        assert(ms[i].0 != key);
    } else if j < i {
        assert(ms[j].0 != key);
    }
}

/// The member at `i` is the first one named `key`: reading `key` gives it.
pub proof fn lemma_member_at(ms: Seq<(Seq<char>, Json)>, key: Seq<char>, i: int)
    requires
        0 <= i < ms.len(),
        ms[i].0 == key,
        forall|j: int| 0 <= j < i ==> ms[j].0 != key,
    ensures
        member(ms, key) == Some(ms[i].1),
{
    assert(first_key_at(ms, key, i));
    let c = choose|k: int| first_key_at(ms, key, k);
    lemma_first_key_unique(ms, key, i, c);
}

/// No member is named `key`: reading `key` gives nothing.
pub proof fn lemma_member_absent(ms: Seq<(Seq<char>, Json)>, key: Seq<char>)
    requires
        forall|j: int| 0 <= j < ms.len() ==> ms[j].0 != key,
    ensures
        member(ms, key) is None,
{
}

/// A member named `key` at `j` means there is a first one.
pub proof fn lemma_first_key_exists(ms: Seq<(Seq<char>, Json)>, key: Seq<char>, j: int)
    requires
        0 <= j < ms.len(),
        ms[j].0 == key,
    ensures
        exists|i: int| first_key_at(ms, key, i),
    decreases j,
{
    if exists|k: int| 0 <= k < j && ms[k].0 == key {
        let k = choose|k: int| 0 <= k < j && ms[k].0 == key;
        lemma_first_key_exists(ms, key, k);
    } else {
        assert(first_key_at(ms, key, j));
    }
}

/// Where `set_member` puts `key`: its first position, or the end.
proof fn lemma_set_member_slot(ms: Seq<(Seq<char>, Json)>, key: Seq<char>, val: Json) -> (i: int)
    ensures
        first_key_at(set_member(ms, key, val), key, i),
        set_member(ms, key, val)[i] == (key, val),
        set_member(ms, key, val).len() == (if exists|k: int| first_key_at(ms, key, k) { ms.len() } else { ms.len() + 1 }),
        forall|j: int| 0 <= j < ms.len() && j != i ==> #[trigger] set_member(ms, key, val)[j] == ms[j],
        forall|j: int| 0 <= j < set_member(ms, key, val).len() ==> (#[trigger] set_member(ms, key, val)[j]).0 == key
            ==> j >= i,
{
    let t = set_member(ms, key, val);
    if exists|k: int| first_key_at(ms, key, k) {
        let i = choose|k: int| first_key_at(ms, key, k);
        assert(t == ms.update(i, (key, val)));
        i
    } else {
        assert forall|j: int| 0 <= j < ms.len() implies ms[j].0 != key by {
            if ms[j].0 == key {
                lemma_first_key_exists(ms, key, j);
            }
        }
        ms.len() as int
    }
}

/// Reading a member just set gives the value it was set to.
pub proof fn law_get_after_set(ms: Seq<(Seq<char>, Json)>, key: Seq<char>, val: Json)
    ensures
        member(set_member(ms, key, val), key) == Some(val),
{
    let t = set_member(ms, key, val);
    let i = lemma_set_member_slot(ms, key, val);
    let c = choose|k: int| first_key_at(t, key, k);
    lemma_first_key_unique(t, key, i, c);
}

/// Setting a member leaves every other member as it was.
pub proof fn law_set_keeps_others(ms: Seq<(Seq<char>, Json)>, key: Seq<char>, other: Seq<char>, val: Json)
    requires
        other != key,
    ensures
        member(set_member(ms, key, val), other) == member(ms, other),
{
    let t = set_member(ms, key, val);
    let i = lemma_set_member_slot(ms, key, val);
    assert forall|j: int| #[trigger] first_key_at(t, other, j) <==> first_key_at(ms, other, j) by {
        if first_key_at(t, other, j) {
            assert(j != i);
            assert(j < ms.len()) by {
                if j >= ms.len() {
                    assert(t[j] == (key, val));
                }
            }
            assert forall|k: int| 0 <= k < j implies ms[k].0 != other by {
                if k != i {
                    assert(t[k] == ms[k]);
                } else if k < ms.len() {
                    assert(ms[k].0 == key);
                }
            }
            assert(t[j] == ms[j]);
        }
        if first_key_at(ms, other, j) {
            assert(ms[j].0 == other);
            if j == i {
                assert(ms[j].0 == key);
            }
            assert(t[j] == ms[j]);
            assert forall|k: int| 0 <= k < j implies t[k].0 != other by {
                if k == i {
                    assert(t[k].0 == key);
                } else {
                    assert(t[k] == ms[k]);
                }
            }
        }
    }
    if exists|j: int| first_key_at(ms, other, j) {
        let j = choose|j: int| first_key_at(ms, other, j);
        assert(first_key_at(t, other, j));
        let c = choose|k: int| first_key_at(t, other, k);
        lemma_first_key_unique(t, other, j, c);
        assert(first_key_at(ms, other, c));
        assert(t[c] == ms[c]);
    }
}

/// Setting a member to the value it already has changes nothing.
pub proof fn lemma_set_existing(ms: Seq<(Seq<char>, Json)>, key: Seq<char>, val: Json)
    requires
        member(ms, key) == Some(val),
    ensures
        set_member(ms, key, val) == ms,
{
    let i = choose|i: int| first_key_at(ms, key, i);
    assert(ms.update(i, (key, val)) =~= ms);
}

/// Setting a member to the same value again changes nothing.
pub proof fn law_set_idempotent(ms: Seq<(Seq<char>, Json)>, key: Seq<char>, val: Json)
    ensures
        set_member(set_member(ms, key, val), key, val) == set_member(ms, key, val),
{
    let t = set_member(ms, key, val);
    let i = lemma_set_member_slot(ms, key, val);
    let c = choose|k: int| first_key_at(t, key, k);
    lemma_first_key_unique(t, key, i, c);
    assert(t.update(i, (key, val)) =~= t);
}

/// Whether two texts are equal.
pub fn str_eq(a: &str, b: &str) -> (r: bool)
    ensures
        r == (a@ == b@),
{
    let x = crate::text::chars_of(a);
    let y = crate::text::chars_of(b);
    if x.len() != y.len() {
        return false;
    }
    let n = x.len();
    for i in 0..n
        invariant
            n == x@.len(),
            n == y@.len(),
            x@ == a@,
            y@ == b@,
            forall|j: int| 0 <= j < i ==> x@[j] == y@[j],
    {
        if x[i] != y[i] {
            assert(x@[i as int] != y@[i as int]);
            return false;
        }
    }
    assert(x@ =~= y@);
    true
}

/// Index of the first member named `key`.
pub fn find_member(ms: &Vec<(String, JsonValue)>, key: &str) -> (r: Option<usize>)
    ensures
        match r {
            Some(i) => first_key_at(members_of(ms@), key@, i as int),
            None => forall|i: int| !first_key_at(members_of(ms@), key@, i),
        },
{
    proof {
        lemma_members_of(ms@);
    }
    let n = ms.len();
    for i in 0..n
        invariant
            n == ms@.len(),
            members_of(ms@).len() == n,
            forall|j: int| 0 <= j < i ==> (#[trigger] members_of(ms@)[j]).0 != key@,
    {
        proof {
            lemma_members_of(ms@);
        }
        if str_eq(ms[i].0.as_str(), key) {
            return Some(i);
        }
    }
    proof {
        lemma_members_of(ms@);
    }
    None
}

impl JsonValue {
    /// `Value::get` with a key.
    pub fn get(&self, key: &str) -> (r: Option<&JsonValue>)
        ensures
            match r {
                Some(x) => field(self.model(), key@) == Some(x.model()),
                None => field(self.model(), key@) is None,
            },
    {
        match self {
            JsonValue::Object(ms) => {
                proof {
                    lemma_members_of(ms@);
                }
                match find_member(ms, key) {
                    Some(i) => {
                        proof {
                            let m = members_of(ms@);
                            assert(first_key_at(m, key@, i as int));
                            let c = choose|k: int| first_key_at(m, key@, k);
                            lemma_first_key_unique(m, key@, i as int, c);
                        }
                        Some(&ms[i].1)
                    },
                    None => None,
                }
            },
            _ => None,
        }
    }

    /// `Value::as_str`.
    pub fn as_str(&self) -> (r: Option<&str>)
        ensures
            match r {
                Some(s) => self.model() == Json::Str(s@),
                None => !(self.model() is Str),
            },
    {
        match self {
            JsonValue::Str(s) => Some(s.as_str()),
            _ => None,
        }
    }

    /// An independent copy.
    pub fn copy(&self) -> (r: JsonValue)
        ensures
            r.model() == self.model(),
        decreases self,
    {
        match self {
            JsonValue::Null => JsonValue::Null,
            JsonValue::Bool(b) => JsonValue::Bool(*b),
            JsonValue::Number(t) => JsonValue::Number(t.clone()),
            JsonValue::Str(t) => JsonValue::Str(t.clone()),
            JsonValue::Array(items) => {
                let mut out: Vec<JsonValue> = Vec::new();
                let n = items.len();
                for i in 0..n
                    invariant
                        n == items@.len(),
                        *self == JsonValue::Array(*items),
                        models_of(out@) == models_of(items@.take(i as int)),
                {
                    proof {
                        assert(decreases_to!(*self => self->Array_0));
                        assert(decreases_to!(*items => items@));
                        assert(decreases_to!(items@ => items@[i as int]));
                    }
                    let c = items[i].copy();
                    let ghost before = out@;
                    out.push(c);
                    assert(out@.drop_last() == before);
                    assert(items@.take(i + 1).drop_last() == items@.take(i as int));
                }
                assert(items@.take(n as int) == items@);
                JsonValue::Array(out)
            },
            JsonValue::Object(ms) => {
                let mut out: Vec<(String, JsonValue)> = Vec::new();
                let n = ms.len();
                for i in 0..n
                    invariant
                        n == ms@.len(),
                        *self == JsonValue::Object(*ms),
                        members_of(out@) == members_of(ms@.take(i as int)),
                {
                    proof {
                        assert(decreases_to!(*self => self->Object_0));
                        assert(decreases_to!(*ms => ms@));
                        assert(decreases_to!(ms@ => ms@[i as int]));
                        assert(decreases_to!(ms@[i as int] => ms@[i as int].1));
                    }
                    let v = ms[i].1.copy();
                    let k = ms[i].0.clone();
                    let ghost before = out@;
                    out.push((k, v));
                    assert(out@.drop_last() == before);
                    assert(ms@.take(i + 1).drop_last() == ms@.take(i as int));
                }
                assert(ms@.take(n as int) == ms@);
                JsonValue::Object(out)
            },
        }
    }
}


/// Sets member `key` to `val`: an existing member keeps its place, a new one
/// goes last (`Map::insert`).
pub fn set_field(ms: &mut Vec<(String, JsonValue)>, key: &str, val: JsonValue)
    ensures
        members_of(final(ms)@) == set_member(members_of(old(ms)@), key@, val.model()),
{
    proof {
        lemma_members_of(ms@);
    }
    let ghost m0 = members_of(ms@);
    match find_member(ms, key) {
        Some(i) => {
            let ghost vm = val.model();
            ms.set(i, (owned(key), val));
            proof {
                lemma_members_of(ms@);
                let c = choose|k: int| first_key_at(m0, key@, k);
                lemma_first_key_unique(m0, key@, i as int, c);
                assert(members_of(ms@) =~= m0.update(i as int, (key@, vm)));
            }
        },
        None => {
            let ghost vm = val.model();
            let ghost before = ms@;
            ms.push((owned(key), val));
            proof {
                assert(ms@.drop_last() == before);
                assert(members_of(ms@) == m0.push((key@, vm)));
            }
        },
    }
}

// ---------------------------------------------------------------------------
// Compact text
// ---------------------------------------------------------------------------

/// A lower-case hexadecimal digit.
pub open spec fn hex_digit(d: nat) -> char {
    if d < 10 {
        ((d + 48) as u32) as char
    } else {
        ((d + 87) as u32) as char
    }
}

/// How one character is written inside a JSON string: `"` and `\` and the
/// control characters below U+0020 escaped (the short forms `\b \t \n \f
/// \r` where there is one, else `\u00XX`), every other character as it is.
pub open spec fn escaped_char(c: char) -> Seq<char> {
    if c == '"' {
        seq!['\\', '"']
    } else if c == '\\' {
        seq!['\\', '\\']
    } else if c == '\u{8}' {
        seq!['\\', 'b']
    } else if c == '\t' {
        seq!['\\', 't']
    } else if c == '\n' {
        seq!['\\', 'n']
    } else if c == '\u{c}' {
        seq!['\\', 'f']
    } else if c == '\r' {
        seq!['\\', 'r']
    } else if (c as u32) < 0x20 {
        seq!['\\', 'u', '0', '0', hex_digit((c as u32) as nat / 16), hex_digit((c as u32) as nat % 16)]
    } else {
        seq![c]
    }
}

/// The escaped characters of a text.
pub open spec fn escaped(s: Seq<char>) -> Seq<char>
    decreases s.len(),
{
    if s.len() == 0 {
        Seq::empty()
    } else {
        escaped(s.drop_last()) + escaped_char(s.last())
    }
}

/// A text as a JSON string literal.
pub open spec fn quoted(s: Seq<char>) -> Seq<char> {
    seq!['"'] + escaped(s) + seq!['"']
}

/// `serde_json::to_string` on a `str`: the text in double quotes with each
/// character written as `escaped_char` says (serde_json's escape table).
/// Serialising a `str` into memory cannot fail.
#[verifier::external_body]
fn quote(s: &str) -> (r: String)
    ensures
        r@ == quoted(s@),
{
    serde_json::to_string(s).unwrap_or_default()
}

/// The compact text of a document, as `Display` for `serde_json::Value`
/// writes it: no white space, members in the document's order.
pub open spec fn json_text(v: Json) -> Seq<char>
    decreases v,
{
    match v {
        Json::Null => "null"@,
        Json::Bool(b) => if b { "true"@ } else { "false"@ },
        Json::Num(t) => t,
        Json::Str(s) => quoted(s),
        Json::Arr(items) => "["@ + items_text(items) + "]"@,
        Json::Obj(ms) => "{"@ + members_text(ms) + "}"@,
    }
}

/// The texts of `items`, separated by commas.
pub open spec fn items_text(items: Seq<Json>) -> Seq<char>
    decreases items,
{
    if items.len() == 0 {
        Seq::empty()
    } else if items.len() == 1 {
        json_text(items[0])
    } else {
        items_text(items.drop_last()) + ","@ + json_text(items.last())
    }
}

/// The texts of `ms` as `"key":value`, separated by commas.
pub open spec fn members_text(ms: Seq<(Seq<char>, Json)>) -> Seq<char>
    decreases ms,
{
    if ms.len() == 0 {
        Seq::empty()
    } else if ms.len() == 1 {
        quoted(ms[0].0) + ":"@ + json_text(ms[0].1)
    } else {
        members_text(ms.drop_last()) + ","@ + quoted(ms.last().0) + ":"@ + json_text(ms.last().1)
    }
}

/// A `String` holding the text of a literal.
pub fn owned(s: &str) -> (r: String)
    ensures
        r@ == s@,
{
    String::from_str(s)
}

/// Appends the characters of `s` to `out`.
pub fn push_str(out: &mut Vec<char>, s: &str)
    ensures
        final(out)@ == old(out)@ + s@,
{
    let cs = crate::text::chars_of(s);
    crate::text::extend_chars(out, cs.as_slice());
}

/// Appends the compact text of `v` to `out`.
pub fn write_json(v: &JsonValue, out: &mut Vec<char>)
    ensures
        final(out)@ == old(out)@ + json_text(v.model()),
    decreases v,
{
    match v {
        JsonValue::Null => push_str(out, "null"),
        JsonValue::Bool(b) => if *b { push_str(out, "true") } else { push_str(out, "false") },
        JsonValue::Number(t) => push_str(out, t.as_str()),
        JsonValue::Str(t) => {
            let q = quote(t.as_str());
            push_str(out, q.as_str());
        },
        JsonValue::Array(items) => {
            let ghost start = out@;
            push_str(out, "[");
            let n = items.len();
            proof {
                lemma_models_of(items@);
            }
            for i in 0..n
                invariant
                    n == items@.len(),
                    *v == JsonValue::Array(*items),
                    out@ == start + "["@ + items_text(models_of(items@).take(i as int)),
            {
                proof {
                    lemma_models_of(items@);
                    assert(decreases_to!(*v => v->Array_0));
                    assert(decreases_to!(*items => items@));
                    assert(decreases_to!(items@ => items@[i as int]));
                }
                if i != 0 {
                    push_str(out, ",");
                }
                write_json(&items[i], out);
                let ghost m = models_of(items@);
                assert(m.take(i + 1).drop_last() == m.take(i as int));
                assert(m.take(i + 1).last() == items@[i as int].model());
                if i == 0 {
                    assert(m.take(1)[0] == items@[0].model());
                }
            }
            proof {
                assert(models_of(items@).take(n as int) == models_of(items@));
            }
            push_str(out, "]");
        },
        JsonValue::Object(ms) => {
            let ghost start = out@;
            push_str(out, "{");
            let n = ms.len();
            proof {
                lemma_members_of(ms@);
            }
            for i in 0..n
                invariant
                    n == ms@.len(),
                    *v == JsonValue::Object(*ms),
                    out@ == start + "{"@ + members_text(members_of(ms@).take(i as int)),
            {
                proof {
                    lemma_members_of(ms@);
                    assert(decreases_to!(*v => v->Object_0));
                    assert(decreases_to!(*ms => ms@));
                    assert(decreases_to!(ms@ => ms@[i as int]));
                    assert(decreases_to!(ms@[i as int] => ms@[i as int].1));
                }
                if i != 0 {
                    push_str(out, ",");
                }
                let q = quote(ms[i].0.as_str());
                push_str(out, q.as_str());
                push_str(out, ":");
                write_json(&ms[i].1, out);
                let ghost m = members_of(ms@);
                assert(m.take(i + 1).drop_last() == m.take(i as int));
                assert(m.take(i + 1).last() == (ms@[i as int].0@, ms@[i as int].1.model()));
                if i == 0 {
                    assert(m.take(1)[0] == (ms@[0].0@, ms@[0].1.model()));
                }
            }
            proof {
                assert(members_of(ms@).take(n as int) == members_of(ms@));
            }
            push_str(out, "}");
        },
    }
}

/// The compact text of a document (`Value::to_string`).
pub fn to_json_text(v: &JsonValue) -> (r: String)
    ensures
        r@ == json_text(v.model()),
{
    let mut out: Vec<char> = Vec::new();
    write_json(v, &mut out);
    crate::text::string_of(out.as_slice())
}

} // verus!
