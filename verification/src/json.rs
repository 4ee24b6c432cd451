//! A JSON document model held as plain values, with the object operations
//! the rewriting logic needs.

use vstd::prelude::*;

verus! {

/// A JSON number, kept the way the JSON layer distinguishes it: a
/// non-negative integer, a negative integer, or a finite float held by its
/// shortest decimal text, from which it is read back exactly.
#[derive(Debug, PartialEq)]
pub enum JsonNumber {
    PosInt(u64),
    NegInt(i64),
    Float(String),
}

/// The mathematical model of a JSON number.
pub enum NumberModel {
    PosInt(u64),
    NegInt(i64),
    Float(Seq<char>),
}

impl View for JsonNumber {
    type V = NumberModel;

    open spec fn view(&self) -> NumberModel {
        match self {
            JsonNumber::PosInt(u) => NumberModel::PosInt(*u),
            JsonNumber::NegInt(i) => NumberModel::NegInt(*i),
            JsonNumber::Float(t) => NumberModel::Float(t@),
        }
    }
}

impl JsonNumber {
    /// The value as a `u64`, present exactly for non-negative integers.
    pub fn as_u64(&self) -> (r: Option<u64>)
        ensures
            r == number_as_u64(self@),
    {
        match self {
            JsonNumber::PosInt(u) => Some(*u),
            _ => None,
        }
    }
}

pub open spec fn number_as_u64(n: NumberModel) -> Option<u64> {
    match n {
        NumberModel::PosInt(u) => Some(u),
        _ => None,
    }
}

} // verus!

verus! {

/// A JSON value held as plain values. An object is a list of key/value
/// entries; when a key occurs more than once, the later entry is the one
/// that counts, as when the entries are inserted one by one into a map.
#[derive(Debug, PartialEq)]
pub enum JsonValue {
    Null,
    Bool(bool),
    Number(JsonNumber),
    Str(String),
    Array(Vec<JsonValue>),
    Object(Vec<(String, JsonValue)>),
}

/// The mathematical model of a JSON value: objects are finite maps from
/// keys to values.
pub enum Json {
    Null,
    Bool(bool),
    Num(NumberModel),
    Str(Seq<char>),
    Arr(Seq<Json>),
    Obj(Map<Seq<char>, Json>),
}

pub open spec fn json_view(v: JsonValue) -> Json
    decreases v,
{
    match v {
        JsonValue::Null => Json::Null,
        JsonValue::Bool(b) => Json::Bool(b),
        JsonValue::Number(n) => Json::Num(n@),
        JsonValue::Str(s) => Json::Str(s@),
        JsonValue::Array(items) => Json::Arr(items_view(items@)),
        JsonValue::Object(entries) => Json::Obj(entries_view(entries@)),
    }
}

/// The models of a sequence of values, element by element.
pub open spec fn items_view(s: Seq<JsonValue>) -> Seq<Json>
    decreases s,
{
    if s.len() == 0 {
        Seq::empty()
    } else {
        items_view(s.drop_last()).push(json_view(s.last()))
    }
}

/// The map that inserting the entries one by one, in order, produces.
pub open spec fn entries_view(s: Seq<(String, JsonValue)>) -> Map<Seq<char>, Json>
    decreases s,
{
    if s.len() == 0 {
        Map::empty()
    } else {
        entries_view(s.drop_last()).insert(s.last().0@, json_view(s.last().1))
    }
}

impl View for JsonValue {
    type V = Json;

    open spec fn view(&self) -> Json {
        json_view(*self)
    }
}

} // verus!

verus! {

/// Index of the last entry whose key is `k`, if there is one.
pub open spec fn last_index_of(s: Seq<(String, JsonValue)>, k: Seq<char>) -> Option<int>
    decreases s.len(),
{
    if s.len() == 0 {
        None
    } else if s.last().0@ == k {
        Some(s.len() - 1)
    } else {
        last_index_of(s.drop_last(), k)
    }
}

proof fn lemma_last_index_of(s: Seq<(String, JsonValue)>, k: Seq<char>)
    ensures
        match last_index_of(s, k) {
            Some(i) => {
                &&& 0 <= i < s.len()
                &&& s[i].0@ == k
                &&& forall|j: int| i < j < s.len() ==> s[j].0@ != k
                &&& entries_view(s).contains_key(k)
                &&& entries_view(s)[k] == json_view(s[i].1)
            },
            None => {
                &&& forall|j: int| 0 <= j < s.len() ==> s[j].0@ != k
                &&& !entries_view(s).contains_key(k)
            },
        },
    decreases s.len(),
{
    if s.len() > 0 {
        let dl = s.drop_last();
        lemma_last_index_of(dl, k);
        assert(forall|j: int| 0 <= j < dl.len() ==> dl[j] == s[j]);
        assert(entries_view(s) == entries_view(dl).insert(s.last().0@, json_view(s.last().1)));
    }
}

/// Removing an entry whose key is `k` does not change what the entries
/// say about the other keys.
proof fn lemma_remove_entry_with_key(s: Seq<(String, JsonValue)>, i: int, k: Seq<char>)
    requires
        0 <= i < s.len(),
        s[i].0@ == k,
    ensures
        entries_view(s.remove(i)).remove(k) =~= entries_view(s).remove(k),
    decreases s.len(),
{
    let dl = s.drop_last();
    let last = s.last();
    assert(entries_view(s) == entries_view(dl).insert(last.0@, json_view(last.1)));
    if i == s.len() - 1 {
        assert(s.remove(i) =~= dl);
        assert(entries_view(s.remove(i)).remove(k) =~= entries_view(s).remove(k));
    } else {
        lemma_remove_entry_with_key(dl, i, k);
        let r = s.remove(i);
        assert(r =~= dl.remove(i).push(last));
        assert(r.drop_last() =~= dl.remove(i));
        assert(r.last() == last);
        assert(entries_view(r) == entries_view(dl.remove(i)).insert(last.0@, json_view(last.1)));
        if last.0@ == k {
            assert(entries_view(r).remove(k) =~= entries_view(dl.remove(i)).remove(k));
            assert(entries_view(s).remove(k) =~= entries_view(dl).remove(k));
        } else {
            assert(entries_view(r).remove(k) =~= entries_view(dl.remove(i)).remove(k).insert(
                last.0@,
                json_view(last.1),
            ));
            assert(entries_view(s).remove(k) =~= entries_view(dl).remove(k).insert(
                last.0@,
                json_view(last.1),
            ));
        }
    }
}

/// Position of the last entry with the given key.
pub fn find_last(entries: &Vec<(String, JsonValue)>, key: &String) -> (r: Option<usize>)
    ensures
        r matches Some(i) ==> last_index_of(entries@, key@) == Some(i as int),
        r is None ==> last_index_of(entries@, key@) is None,
{
    proof {
        lemma_last_index_of(entries@, key@);
    }
    let mut i = entries.len();
    while i > 0
        invariant
            i <= entries.len(),
            forall|j: int| i <= j < entries.len() ==> entries@[j].0@ != key@,
            last_index_of(entries@, key@) matches Some(x) ==> x < i,
            last_index_of(entries@, key@) matches Some(x) ==> entries@[x].0@ == key@,
        decreases i,
    {
        i = i - 1;
        if entries[i].0 == *key {
            proof {
                lemma_last_index_of(entries@, key@);
            }
            return Some(i);
        }
    }
    None
}

/// Looks up a key in an object's entries.
pub fn obj_get<'a>(entries: &'a Vec<(String, JsonValue)>, key: &String) -> (r: Option<&'a JsonValue>)
    ensures
        r is Some <==> entries_view(entries@).contains_key(key@),
        r matches Some(v) ==> v@ == entries_view(entries@)[key@],
{
    proof {
        lemma_last_index_of(entries@, key@);
    }
    match find_last(entries, key) {
        Some(i) => Some(&entries[i].1),
        None => None,
    }
}

/// Whether an object's entries hold the key.
pub fn obj_contains(entries: &Vec<(String, JsonValue)>, key: &String) -> (r: bool)
    ensures
        r == entries_view(entries@).contains_key(key@),
{
    obj_get(entries, key).is_some()
}

/// Removes every entry with the key and hands back the value that counted.
pub fn obj_remove(entries: &mut Vec<(String, JsonValue)>, key: &String) -> (r: Option<JsonValue>)
    ensures
        entries_view(final(entries)@) == entries_view(old(entries)@).remove(key@),
        r is Some <==> entries_view(old(entries)@).contains_key(key@),
        r matches Some(v) ==> v@ == entries_view(old(entries)@)[key@],
{
    let ghost orig = entries@;
    proof {
        lemma_last_index_of(orig, key@);
    }
    let removed = match find_last(entries, key) {
        Some(i) => {
            proof {
                lemma_remove_entry_with_key(entries@, i as int, key@);
            }
            entries.remove(i).1
        },
        None => {
            proof {
                assert(entries_view(orig).remove(key@) =~= entries_view(orig));
            }
            return None;
        },
    };
    loop
        invariant
            entries_view(entries@).remove(key@) == entries_view(orig).remove(key@),
            orig == old(entries)@,
            entries_view(orig).contains_key(key@),
            removed@ == entries_view(orig)[key@],
        decreases entries@.len(),
    {
        match find_last(entries, key) {
            Some(i) => {
                proof {
                    lemma_last_index_of(entries@, key@);
                    lemma_remove_entry_with_key(entries@, i as int, key@);
                }
                let _ = entries.remove(i);
            },
            None => {
                proof {
                    lemma_last_index_of(entries@, key@);
                    assert(entries_view(entries@).remove(key@) =~= entries_view(entries@));
                }
                return Some(removed);
            },
        }
    }
}

/// Sets the key to the value, replacing what it held.
pub fn obj_insert(entries: &mut Vec<(String, JsonValue)>, key: String, value: JsonValue)
    ensures
        entries_view(final(entries)@) == entries_view(old(entries)@).insert(key@, value@),
{
    let _ = obj_remove(entries, &key);
    let ghost before = entries@;
    entries.push((key, value));
    proof {
        assert(entries@.drop_last() =~= before);
        assert(entries_view(entries@) =~= entries_view(old(entries)@).insert(key@, value@));
    }
}

} // verus!

verus! {

impl JsonNumber {
    /// A copy of the number.
    pub fn copy(&self) -> (r: JsonNumber)
        ensures
            r@ == self@,
    {
        match self {
            JsonNumber::PosInt(u) => JsonNumber::PosInt(*u),
            JsonNumber::NegInt(i) => JsonNumber::NegInt(*i),
            JsonNumber::Float(t) => JsonNumber::Float(t.clone()),
        }
    }
}

impl JsonValue {
    /// A deep copy of the value.
    pub fn copy(&self) -> (r: JsonValue)
        ensures
            r@ == self@,
        decreases self,
    {
        match self {
            JsonValue::Null => JsonValue::Null,
            JsonValue::Bool(b) => JsonValue::Bool(*b),
            JsonValue::Number(n) => JsonValue::Number(n.copy()),
            JsonValue::Str(s) => JsonValue::Str(s.clone()),
            JsonValue::Array(items) => JsonValue::Array(copy_items(items)),
            JsonValue::Object(entries) => JsonValue::Object(copy_entries(entries)),
        }
    }
}

fn copy_items(items: &Vec<JsonValue>) -> (r: Vec<JsonValue>)
    ensures
        items_view(r@) == items_view(items@),
    decreases items,
{
    let mut out: Vec<JsonValue> = Vec::new();
    let mut i: usize = 0;
    while i < items.len()
        invariant
            i <= items.len(),
            items_view(out@) == items_view(items@.take(i as int)),
        decreases items.len() - i,
    {
        proof {
            assert(decreases_to!(items => items@[i as int]));
        }
        let c = items[i].copy();
        let ghost before = out@;
        out.push(c);
        proof {
            assert(out@.drop_last() =~= before);
            assert(items@.take(i + 1).drop_last() =~= items@.take(i as int));
        }
        i = i + 1;
    }
    proof {
        assert(items@.take(i as int) =~= items@);
    }
    out
}

pub(crate) fn copy_entries(entries: &Vec<(String, JsonValue)>) -> (r: Vec<(String, JsonValue)>)
    ensures
        entries_view(r@) == entries_view(entries@),
    decreases entries,
{
    let mut out: Vec<(String, JsonValue)> = Vec::new();
    let mut i: usize = 0;
    while i < entries.len()
        invariant
            i <= entries.len(),
            entries_view(out@) == entries_view(entries@.take(i as int)),
        decreases entries.len() - i,
    {
        proof {
            assert(decreases_to!(entries => entries@[i as int].1));
        }
        let v = entries[i].1.copy();
        let k = entries[i].0.clone();
        let ghost before = out@;
        out.push((k, v));
        proof {
            assert(out@.drop_last() =~= before);
            assert(entries@.take(i + 1).drop_last() =~= entries@.take(i as int));
        }
        i = i + 1;
    }
    proof {
        assert(entries@.take(i as int) =~= entries@);
    }
    out
}

} // verus!

verus! {

#[verifier::external_type_specification]
#[verifier::external_body]
pub struct ExSerdeValue(serde_json::Value);

/// What `serde_json::from_str::<serde_json::Value>` reads from a text,
/// taken as a model: `None` where it refuses the text.
pub uninterp spec fn json_parse(text: Seq<char>) -> Option<Json>;

/// What `serde_json::to_string` writes for a value: `None` where it fails.
pub uninterp spec fn json_render(v: Json) -> Option<Seq<char>>;

#[verifier::external_type_specification]
#[verifier::external_body]
pub struct ExSerdeNumber(serde_json::Number);

/// Converts a number of the JSON layer, told apart by `as_u64` and
/// `as_i64`; a float is kept as the text `Display` writes for it, the
/// shortest decimal that reads back as the same float.
#[verifier::external_body]
fn number_from_serde(n: &serde_json::Number) -> JsonNumber {
    match (n.as_u64(), n.as_i64()) {
        (Some(u), _) => JsonNumber::PosInt(u),
        (None, Some(i)) => JsonNumber::NegInt(i),
        (None, None) => JsonNumber::Float(n.to_string()),
    }
}

/// Converts a number back. A float's text is read by std's correctly
/// rounded float parser (`str::parse`, its type fixed by `Number::from_f64`),
/// so it gives back the float it was written from; text that std refuses,
/// or a float that is not finite, becomes null.
#[verifier::external_body]
fn number_to_serde(n: &JsonNumber) -> serde_json::Value {
    match n {
        JsonNumber::PosInt(u) => serde_json::Value::Number((*u).into()),
        JsonNumber::NegInt(i) => serde_json::Value::Number((*i).into()),
        JsonNumber::Float(t) => match t.parse() {
            Ok(x) => match serde_json::Number::from_f64(x) {
                Some(m) => serde_json::Value::Number(m),
                None => serde_json::Value::Null,
            },
            Err(_) => serde_json::Value::Null,
        },
    }
}

/// Converts a value of the JSON layer into the library's own model, one
/// variant for one.
#[verifier::external_body]
fn from_serde(v: serde_json::Value) -> JsonValue {
    match v {
        serde_json::Value::Null => JsonValue::Null,
        serde_json::Value::Bool(b) => JsonValue::Bool(b),
        serde_json::Value::Number(n) => JsonValue::Number(number_from_serde(&n)),
        serde_json::Value::String(s) => JsonValue::Str(s),
        serde_json::Value::Array(a) => JsonValue::Array(a.into_iter().map(from_serde).collect()),
        serde_json::Value::Object(m) => JsonValue::Object(
            m.into_iter().map(|(k, v)| (k, from_serde(v))).collect(),
        ),
    }
}

/// Converts the library's model back into a value of the JSON layer, one
/// variant for one; object entries are inserted one by one with
/// `Map::insert`, so a later entry replaces an earlier one with the same key.
#[verifier::external_body]
fn to_serde(v: &JsonValue) -> serde_json::Value {
    match v {
        JsonValue::Null => serde_json::Value::Null,
        JsonValue::Bool(b) => serde_json::Value::Bool(*b),
        JsonValue::Number(n) => number_to_serde(n),
        JsonValue::Str(s) => serde_json::Value::String(s.clone()),
        JsonValue::Array(a) => serde_json::Value::Array(a.iter().map(to_serde).collect()),
        JsonValue::Object(es) => {
            let mut m = serde_json::Map::new();
            for (k, x) in es {
                m.insert(k.clone(), to_serde(x));
            }
            serde_json::Value::Object(m)
        },
    }
}

/// Reads a JSON text with `serde_json::from_str`. The contract claims only
/// that the outcome is a function of the text (`json_parse`); what that
/// function is, is `serde_json`'s grammar and is not stated here.
#[verifier::external_body]
pub(crate) fn parse_json(text: &str) -> (r: Option<JsonValue>)
    ensures
        match r {
            Some(v) => json_parse(text@) == Some(v@),
            None => json_parse(text@) is None,
        },
{
    match serde_json::from_str::<serde_json::Value>(text) {
        Ok(v) => Some(from_serde(v)),
        Err(_) => None,
    }
}

/// Writes a value as compact JSON text with `serde_json::to_string`. The
/// contract claims only that the outcome is a function of the value's model
/// (`json_render`): [`to_serde`] keeps the last entry of each key, and
/// `serde_json`'s object map (a `BTreeMap`, the `preserve_order` feature
/// being off) walks keys in sorted order, so the order of the entries does
/// not reach the text. The text itself is not stated here.
#[verifier::external_body]
pub(crate) fn render_json(v: &JsonValue) -> (r: Option<String>)
    ensures
        match r {
            Some(s) => json_render(v@) == Some(s@),
            None => json_render(v@) is None,
        },
{
    match serde_json::to_string(&to_serde(v)) {
        Ok(s) => Some(s),
        Err(_) => None,
    }
}

} // verus!
