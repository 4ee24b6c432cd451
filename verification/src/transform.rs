//! Rewriting a client's chat-completion request into the body sent
//! upstream, by the rules of the model's registry entry.

use vstd::prelude::*;
use crate::json::{
    obj_contains, obj_get, obj_insert, obj_remove, entries_view, number_as_u64, Json, JsonNumber,
    JsonValue, NumberModel,
};
use crate::models::{keys_ascending, texts_view, EntryModel, ModelEntry};
use crate::text::{
    lemma_split_on_nonempty, lemma_split_prefix_text_lt, lemma_text_lt_irreflexive,
    lemma_text_lt_transitive, split_at_char, split_on, text_lt,
};

verus! {

/// Removes each listed key in turn.
pub open spec fn strip_all(m: Map<Seq<char>, Json>, keys: Seq<Seq<char>>) -> Map<Seq<char>, Json>
    decreases keys.len(),
{
    if keys.len() == 0 {
        m
    } else {
        strip_all(m, keys.drop_last()).remove(keys.last())
    }
}

/// Sets each listed key the map does not hold yet, in turn.
pub open spec fn apply_defaults(m: Map<Seq<char>, Json>, ps: Seq<(Seq<char>, Json)>) -> Map<
    Seq<char>,
    Json,
>
    decreases ps.len(),
{
    if ps.len() == 0 {
        m
    } else {
        let m1 = apply_defaults(m, ps.drop_last());
        let (k, v) = ps.last();
        if m1.contains_key(k) {
            m1
        } else {
            m1.insert(k, v)
        }
    }
}

/// `max_tokens` lowered to the cap when it is a non-negative integer above it.
pub open spec fn clamp_max_tokens(m: Map<Seq<char>, Json>, cap: Option<u32>) -> Map<Seq<char>, Json> {
    match cap {
        Some(c) => if m.contains_key("max_tokens"@) && m["max_tokens"@] is Num && number_as_u64(
            m["max_tokens"@]->Num_0,
        ) is Some {
            let v = number_as_u64(m["max_tokens"@]->Num_0)->Some_0;
            m.insert(
                "max_tokens"@,
                Json::Num(NumberModel::PosInt(if v <= c as u64 { v } else { c as u64 })),
            )
        } else {
            m
        },
        None => m,
    }
}

/// The map with `v` stored under the path of keys; objects along the path
/// are created where a key is missing.
pub open spec fn set_path(m: Map<Seq<char>, Json>, path: Seq<Seq<char>>, v: Json) -> Map<
    Seq<char>,
    Json,
>
    decreases path.len(),
{
    if path.len() == 0 {
        m
    } else if path.len() == 1 {
        m.insert(path[0], v)
    } else {
        let child = if m.contains_key(path[0]) && m[path[0]] is Obj {
            m[path[0]]->Obj_0
        } else {
            Map::empty()
        };
        m.insert(path[0], Json::Obj(set_path(child, path.drop_first(), v)))
    }
}

/// Whether a key before the last one of the path holds something other than
/// an object, so that the path cannot be followed.
pub open spec fn path_blocked(m: Map<Seq<char>, Json>, path: Seq<Seq<char>>) -> bool
    decreases path.len(),
{
    if path.len() <= 1 {
        false
    } else if !m.contains_key(path[0]) {
        false
    } else {
        match m[path[0]] {
            Json::Obj(c) => path_blocked(c, path.drop_first()),
            _ => true,
        }
    }
}

/// The path a dotted key names: its pieces between dots.
pub open spec fn key_path(k: Seq<char>) -> Seq<Seq<char>> {
    split_on(k, '.')
}

/// Stores each injected parameter at the path its dotted key names, in turn.
pub open spec fn inject_all(m: Map<Seq<char>, Json>, ps: Seq<(Seq<char>, Json)>) -> Map<
    Seq<char>,
    Json,
>
    decreases ps.len(),
{
    if ps.len() == 0 {
        m
    } else {
        set_path(inject_all(m, ps.drop_last()), key_path(ps.last().0), ps.last().1)
    }
}

/// Whether some injected parameter meets a blocked path when its turn comes.
pub open spec fn inject_blocked(m: Map<Seq<char>, Json>, ps: Seq<(Seq<char>, Json)>) -> bool
    decreases ps.len(),
{
    if ps.len() == 0 {
        false
    } else {
        inject_blocked(m, ps.drop_last()) || path_blocked(
            inject_all(m, ps.drop_last()),
            key_path(ps.last().0),
        )
    }
}

/// The request object after the model is set, parameters are stripped,
/// defaults are filled in and `max_tokens` is clamped: what injection
/// starts from.
pub open spec fn before_injection(m: Map<Seq<char>, Json>, e: EntryModel) -> Map<Seq<char>, Json> {
    let m1 = m.insert("model"@, Json::Str(e.backend_id));
    let m2 = strip_all(m1, e.strip_params);
    let m3 = apply_defaults(m2, e.default_params);
    clamp_max_tokens(m3, e.max_tokens_cap)
}

/// The upstream body for a request body: `None` when the body is not an
/// object.
pub open spec fn transform_spec(body: Json, e: EntryModel) -> Option<Json> {
    match body {
        Json::Obj(m) => Some(Json::Obj(inject_all(before_injection(m, e), e.injected_params))),
        _ => None,
    }
}

/// Whether rewriting the body would meet an injected path that runs
/// through a value that is not an object.
pub open spec fn transform_blocked(body: Json, e: EntryModel) -> bool {
    match body {
        Json::Obj(m) => inject_blocked(before_injection(m, e), e.injected_params),
        _ => false,
    }
}

/// Why a request body could not be rewritten.
#[derive(Debug, PartialEq, Eq)]
pub enum TransformError {
    /// The body is not a JSON object.
    NotAnObject,
}

impl TransformError {
    /// The text the error is reported with.
    pub fn message(&self) -> (r: String)
        ensures
            r@ == "Request body must be a JSON object"@,
    {
        "Request body must be a JSON object".to_string()
    }
}

} // verus!

verus! {

fn set_path_from(
    entries: &mut Vec<(String, JsonValue)>,
    parts: &Vec<String>,
    i: usize,
    value: JsonValue,
)
    requires
        i < parts@.len(),
        !path_blocked(entries_view(old(entries)@), texts_view(parts@).skip(i as int)),
    ensures
        entries_view(final(entries)@) == set_path(
            entries_view(old(entries)@),
            texts_view(parts@).skip(i as int),
            value@,
        ),
    decreases parts@.len() - i,
{
    let ghost path = texts_view(parts@).skip(i as int);
    let ghost m = entries_view(entries@);
    proof {
        assert(path[0] == parts@[i as int]@);
        assert(path.drop_first() =~= texts_view(parts@).skip(i + 1));
    }
    if i == parts.len() - 1 {
        obj_insert(entries, parts[i].clone(), value);
    } else {
        let child = obj_remove(entries, &parts[i]);
        let mut inner: Vec<(String, JsonValue)> = match child {
            Some(JsonValue::Object(c)) => c,
            Some(_) => {
                proof {
                    assert(path_blocked(m, path));
                }
                Vec::new()
            },
            None => Vec::new(),
        };
        proof {
            assert(entries_view(inner@) =~= (if m.contains_key(path[0]) && m[path[0]] is Obj {
                m[path[0]]->Obj_0
            } else {
                Map::<Seq<char>, Json>::empty()
            }));
        }
        set_path_from(&mut inner, parts, i + 1, value);
        obj_insert(entries, parts[i].clone(), JsonValue::Object(inner));
        proof {
            assert(entries_view(entries@) =~= set_path(m, path, value@));
        }
    }
}

/// Stores `value` at the path a dotted key such as
/// `chat_template_kwargs.thinking` names, creating objects along the way.
pub fn set_nested(entries: &mut Vec<(String, JsonValue)>, key: &str, value: JsonValue)
    requires
        !path_blocked(entries_view(old(entries)@), key_path(key@)),
    ensures
        entries_view(final(entries)@) == set_path(
            entries_view(old(entries)@),
            key_path(key@),
            value@,
        ),
{
    let parts = split_at_char(key, '.');
    proof {
        lemma_split_on_nonempty(key@, '.');
        assert(texts_view(parts@).skip(0) =~= key_path(key@));
    }
    set_path_from(entries, &parts, 0, value);
}

} // verus!

verus! {

/// Rewrites an incoming OpenAI-compatible chat-completion request into the
/// upstream body, by the model entry's rules, in this order: set `model` to
/// the upstream id; remove the stripped parameters; fill in defaults the
/// request lacks; clamp `max_tokens` to the cap; store the injected
/// parameters, dotted keys naming nested paths.
pub fn transform_request(body: JsonValue, model: &ModelEntry) -> (r: Result<JsonValue, TransformError>)
    requires
        !transform_blocked(body@, model@),
    ensures
        match transform_spec(body@, model@) {
            Some(j) => r matches Ok(v) && v@ == j,
            None => r == Err::<JsonValue, TransformError>(TransformError::NotAnObject),
        },
{
    let mut obj = match body {
        JsonValue::Object(es) => es,
        _ => {
            return Err(TransformError::NotAnObject);
        },
    };
    let ghost m0 = entries_view(obj@);
    let ghost e = model@;
    proof {
        assert(transform_blocked(body@, e) == inject_blocked(
            before_injection(entries_view(obj@), e),
            e.injected_params,
        ));
    }
    prepare_entries(&mut obj, model);
    let ghost m4 = entries_view(obj@);
    let mut i: usize = 0;
    while i < model.injected_params.len()
        invariant
            e == model@,
            i <= model.injected_params@.len(),
            entries_view(obj@) == inject_all(m4, e.injected_params.take(i as int)),
            !inject_blocked(m4, e.injected_params),
        decreases model.injected_params@.len() - i,
    {
        proof {
            assert(e.injected_params.take(i + 1).drop_last() =~= e.injected_params.take(i as int));
            lemma_inject_blocked_prefix(m4, e.injected_params, i + 1);
        }
        let v = model.injected_params.value(i).copy();
        set_nested(&mut obj, model.injected_params.key(i).as_str(), v);
        i = i + 1;
    }
    proof {
        assert(e.injected_params.take(i as int) =~= e.injected_params);
    }
    Ok(JsonValue::Object(obj))
}


/// The steps before injection: set `model`, strip, fill in defaults, clamp.
fn prepare_entries(obj: &mut Vec<(String, JsonValue)>, model: &ModelEntry)
    ensures
        entries_view(final(obj)@) == before_injection(entries_view(old(obj)@), model@),
{
    let ghost m0 = entries_view(obj@);
    let ghost e = model@;
    obj_insert(obj, "model".to_string(), JsonValue::Str(model.backend_id.clone()));
    let ghost m1 = entries_view(obj@);
    proof {
        assert(m1 == m0.insert("model"@, Json::Str(e.backend_id)));
    }

    let mut i: usize = 0;
    while i < model.strip_params.len()
        invariant
            e == model@,
            i <= model.strip_params@.len(),
            entries_view(obj@) == strip_all(m1, e.strip_params.take(i as int)),
        decreases model.strip_params.len() - i,
    {
        let _ = obj_remove(obj, &model.strip_params[i]);
        proof {
            assert(e.strip_params.take(i + 1).drop_last() =~= e.strip_params.take(i as int));
        }
        i = i + 1;
    }
    proof {
        assert(e.strip_params.take(i as int) =~= e.strip_params);
    }
    let ghost m2 = entries_view(obj@);

    let mut i: usize = 0;
    while i < model.default_params.len()
        invariant
            e == model@,
            i <= model.default_params@.len(),
            entries_view(obj@) == apply_defaults(m2, e.default_params.take(i as int)),
        decreases model.default_params@.len() - i,
    {
        let key = model.default_params.key(i);
        proof {
            assert(e.default_params.take(i + 1).drop_last() =~= e.default_params.take(i as int));
        }
        if !obj_contains(obj, key) {
            let v = model.default_params.value(i).copy();
            obj_insert(obj, key.clone(), v);
        }
        i = i + 1;
    }
    proof {
        assert(e.default_params.take(i as int) =~= e.default_params);
    }

    if let Some(cap) = model.max_tokens_cap {
        let key = "max_tokens".to_string();
        let clamped: Option<u64> = match obj_get(obj, &key) {
            Some(JsonValue::Number(n)) => match n.as_u64() {
                Some(v) => if v <= cap as u64 {
                    Some(v)
                } else {
                    Some(cap as u64)
                },
                None => None,
            },
            _ => None,
        };
        if let Some(c) = clamped {
            obj_insert(obj, key, JsonValue::Number(JsonNumber::PosInt(c)));
        }
    }
    proof {
        assert(entries_view(obj@) == before_injection(m0, e));
    }

}

proof fn lemma_inject_blocked_prefix(m: Map<Seq<char>, Json>, ps: Seq<(Seq<char>, Json)>, n: int)
    requires
        0 <= n <= ps.len(),
        !inject_blocked(m, ps),
    ensures
        !inject_blocked(m, ps.take(n)),
    decreases ps.len() - n,
{
    if n == ps.len() {
        assert(ps.take(n) =~= ps);
    } else {
        assert(ps.drop_last().take(n) =~= ps.take(n));
        lemma_inject_blocked_prefix(m, ps.drop_last(), n);
    }
}

} // verus!

verus! {

fn path_blocked_from(entries: &Vec<(String, JsonValue)>, parts: &Vec<String>, i: usize) -> (r: bool)
    requires
        i < parts@.len(),
    ensures
        r == path_blocked(entries_view(entries@), texts_view(parts@).skip(i as int)),
    decreases parts@.len() - i,
{
    let ghost path = texts_view(parts@).skip(i as int);
    proof {
        assert(path[0] == parts@[i as int]@);
        assert(path.drop_first() =~= texts_view(parts@).skip(i + 1));
    }
    if i == parts.len() - 1 {
        return false;
    }
    match obj_get(entries, &parts[i]) {
        None => false,
        Some(JsonValue::Object(c)) => path_blocked_from(c, parts, i + 1),
        Some(_) => true,
    }
}

/// Whether rewriting `body` for `model` would run an injected parameter's
/// path through a value that is not an object (the case that
/// [`transform_request`] does not accept).
pub fn injection_conflict(body: &JsonValue, model: &ModelEntry) -> (r: bool)
    ensures
        r == transform_blocked(body@, model@),
{
    let mut obj = match body {
        JsonValue::Object(es) => crate::json::copy_entries(es),
        _ => {
            return false;
        },
    };
    let ghost e = model@;
    proof {
        assert(transform_blocked(body@, e) == inject_blocked(
            before_injection(entries_view(obj@), e),
            e.injected_params,
        ));
    }
    prepare_entries(&mut obj, model);
    let ghost m4 = entries_view(obj@);
    let mut i: usize = 0;
    while i < model.injected_params.len()
        invariant
            e == model@,
            i <= model.injected_params@.len(),
            entries_view(obj@) == inject_all(m4, e.injected_params.take(i as int)),
            !inject_blocked(m4, e.injected_params.take(i as int)),
            transform_blocked(body@, e) == inject_blocked(m4, e.injected_params),
        decreases model.injected_params@.len() - i,
    {
        proof {
            assert(e.injected_params.take(i + 1).drop_last() =~= e.injected_params.take(i as int));
            lemma_split_on_nonempty(e.injected_params[i as int].0, '.');
        }
        let parts = split_at_char(model.injected_params.key(i).as_str(), '.');
        proof {
            assert(texts_view(parts@).skip(0) =~= key_path(e.injected_params[i as int].0));
        }
        if path_blocked_from(&obj, &parts, 0) {
            proof {
                assert(e.injected_params.take(i + 1).last() == e.injected_params[i as int]);
                assert(inject_blocked(m4, e.injected_params.take(i + 1)));
                lemma_inject_blocked_grows(m4, e.injected_params, i + 1);
            }
            return true;
        }
        let v = model.injected_params.value(i).copy();
        set_nested(&mut obj, model.injected_params.key(i).as_str(), v);
        i = i + 1;
    }
    proof {
        assert(e.injected_params.take(i as int) =~= e.injected_params);
    }
    false
}

proof fn lemma_inject_blocked_grows(m: Map<Seq<char>, Json>, ps: Seq<(Seq<char>, Json)>, n: int)
    requires
        0 <= n <= ps.len(),
        inject_blocked(m, ps.take(n)),
    ensures
        inject_blocked(m, ps),
    decreases ps.len() - n,
{
    if n == ps.len() {
        assert(ps.take(n) =~= ps);
    } else {
        assert(ps.drop_last().take(n) =~= ps.take(n));
        lemma_inject_blocked_grows(m, ps.drop_last(), n);
    }
}

} // verus!

verus! {

/// The value stored at a path of keys, following nested objects.
pub open spec fn get_path(m: Map<Seq<char>, Json>, path: Seq<Seq<char>>) -> Option<Json>
    decreases path.len(),
{
    if path.len() == 0 || !m.contains_key(path[0]) {
        None
    } else if path.len() == 1 {
        Some(m[path[0]])
    } else {
        match m[path[0]] {
            Json::Obj(c) => get_path(c, path.drop_first()),
            _ => None,
        }
    }
}

/// The first key of the path a dotted parameter name denotes.
pub open spec fn head_key(k: Seq<char>) -> Seq<char> {
    key_path(k)[0]
}

/// Whether some injected parameter's path starts at key `k`.
pub open spec fn injects_at(ps: Seq<(Seq<char>, Json)>, k: Seq<char>) -> bool {
    exists|i: int| 0 <= i < ps.len() && #[trigger] head_key(ps[i].0) == k
}

/// Whether some parameter of the list has key `k`.
pub open spec fn lists_key(ps: Seq<(Seq<char>, Json)>, k: Seq<char>) -> bool {
    exists|i: int| 0 <= i < ps.len() && #[trigger] ps[i].0 == k
}

proof fn lemma_strip_all(m: Map<Seq<char>, Json>, ks: Seq<Seq<char>>, k: Seq<char>)
    ensures
        strip_all(m, ks).contains_key(k) == (m.contains_key(k) && !ks.contains(k)),
        strip_all(m, ks).contains_key(k) ==> strip_all(m, ks)[k] == m[k],
    decreases ks.len(),
{
    if ks.len() > 0 {
        lemma_strip_all(m, ks.drop_last(), k);
        if ks.drop_last().contains(k) {
            let i = choose|i: int| 0 <= i < ks.drop_last().len() && ks.drop_last()[i] == k;
            assert(ks[i] == k);
        }
        if ks.contains(k) && ks.last() != k {
            let i = choose|i: int| 0 <= i < ks.len() && ks[i] == k;
            assert(ks.drop_last()[i] == k);
        }
    }
}

proof fn lemma_defaults(m: Map<Seq<char>, Json>, ps: Seq<(Seq<char>, Json)>, k: Seq<char>)
    ensures
        apply_defaults(m, ps).contains_key(k) == (m.contains_key(k) || lists_key(ps, k)),
        m.contains_key(k) ==> apply_defaults(m, ps)[k] == m[k],
        !lists_key(ps, k) ==> apply_defaults(m, ps).contains_key(k) == m.contains_key(k)
            && (m.contains_key(k) ==> apply_defaults(m, ps)[k] == m[k]),
    decreases ps.len(),
{
    if ps.len() > 0 {
        let dl = ps.drop_last();
        lemma_defaults(m, dl, k);
        if lists_key(dl, k) {
            let i = choose|i: int| 0 <= i < dl.len() && #[trigger] dl[i].0 == k;
            assert(ps[i].0 == k);
        }
        if lists_key(ps, k) && ps.last().0 != k {
            let i = choose|i: int| 0 <= i < ps.len() && #[trigger] ps[i].0 == k;
            assert(dl[i].0 == k);
        }
        if ps.last().0 == k {
            assert(ps[ps.len() - 1].0 == k);
        }
    }
}

proof fn lemma_set_path_other(m: Map<Seq<char>, Json>, p: Seq<Seq<char>>, v: Json, k: Seq<char>)
    requires
        p.len() >= 1,
    ensures
        set_path(m, p, v).contains_key(p[0]),
        p[0] != k ==> set_path(m, p, v).contains_key(k) == m.contains_key(k),
        p[0] != k && m.contains_key(k) ==> set_path(m, p, v)[k] == m[k],
{
}

proof fn lemma_inject_other(m: Map<Seq<char>, Json>, ps: Seq<(Seq<char>, Json)>, k: Seq<char>)
    ensures
        m.contains_key(k) ==> inject_all(m, ps).contains_key(k),
        !injects_at(ps, k) ==> inject_all(m, ps).contains_key(k) == m.contains_key(k) && (
        m.contains_key(k) ==> inject_all(m, ps)[k] == m[k]),
    decreases ps.len(),
{
    if ps.len() > 0 {
        let dl = ps.drop_last();
        lemma_inject_other(m, dl, k);
        let p = key_path(ps.last().0);
        lemma_split_on_nonempty(ps.last().0, '.');
        lemma_set_path_other(inject_all(m, dl), p, ps.last().1, k);
        if !injects_at(ps, k) {
            assert(head_key(ps[ps.len() - 1].0) != k);
            assert forall|i: int| 0 <= i < dl.len() implies #[trigger] head_key(dl[i].0) != k by {
                assert(dl[i] == ps[i]);
            }
        }
    }
}

proof fn lemma_clamp_other(m: Map<Seq<char>, Json>, cap: Option<u32>, k: Seq<char>)
    ensures
        clamp_max_tokens(m, cap).contains_key(k) == m.contains_key(k),
        k != "max_tokens"@ && m.contains_key(k) ==> clamp_max_tokens(m, cap)[k] == m[k],
{
}

/// Law: the upstream body names the model's upstream id, unless the entry
/// strips `model` or injects something under it.
pub proof fn law_model_is_backend(body: Map<Seq<char>, Json>, e: EntryModel)
    requires
        !e.strip_params.contains("model"@),
        !injects_at(e.injected_params, "model"@),
    ensures
        transform_spec(Json::Obj(body), e) matches Some(Json::Obj(out)) && out.contains_key(
            "model"@,
        ) && out["model"@] == Json::Str(e.backend_id),
{
    let m1 = body.insert("model"@, Json::Str(e.backend_id));
    lemma_strip_all(m1, e.strip_params, "model"@);
    let m2 = strip_all(m1, e.strip_params);
    lemma_defaults(m2, e.default_params, "model"@);
    let m3 = apply_defaults(m2, e.default_params);
    reveal_strlit("model");
    reveal_strlit("max_tokens");
    lemma_clamp_other(m3, e.max_tokens_cap, "model"@);
    lemma_inject_other(before_injection(body, e), e.injected_params, "model"@);
}

/// Law: a stripped parameter is absent from the upstream body unless a
/// default or an injected parameter puts it back.
pub proof fn law_stripped_absent(body: Map<Seq<char>, Json>, e: EntryModel, k: Seq<char>)
    requires
        e.strip_params.contains(k),
        !lists_key(e.default_params, k),
        !injects_at(e.injected_params, k),
    ensures
        transform_spec(Json::Obj(body), e) matches Some(Json::Obj(out)) && !out.contains_key(k),
{
    let m1 = body.insert("model"@, Json::Str(e.backend_id));
    lemma_strip_all(m1, e.strip_params, k);
    let m2 = strip_all(m1, e.strip_params);
    lemma_defaults(m2, e.default_params, k);
    let m3 = apply_defaults(m2, e.default_params);
    lemma_clamp_other(m3, e.max_tokens_cap, k);
    lemma_inject_other(before_injection(body, e), e.injected_params, k);
}

/// Law: every default parameter is present in the upstream body, and a
/// value the client sent is kept rather than replaced by the default, unless
/// the key is `model` or `max_tokens`, is stripped, or is injected under.
pub proof fn law_defaults(body: Map<Seq<char>, Json>, e: EntryModel, k: Seq<char>)
    ensures
        lists_key(e.default_params, k) ==> (transform_spec(Json::Obj(body), e) matches Some(
            Json::Obj(out),
        ) && out.contains_key(k)),
        body.contains_key(k) && k != "model"@ && k != "max_tokens"@ && !e.strip_params.contains(k)
            && !injects_at(e.injected_params, k) ==> (transform_spec(Json::Obj(body), e) matches Some(
            Json::Obj(out),
        ) && out.contains_key(k) && out[k] == body[k]),
{
    let m1 = body.insert("model"@, Json::Str(e.backend_id));
    lemma_strip_all(m1, e.strip_params, k);
    let m2 = strip_all(m1, e.strip_params);
    lemma_defaults(m2, e.default_params, k);
    let m3 = apply_defaults(m2, e.default_params);
    lemma_clamp_other(m3, e.max_tokens_cap, k);
    lemma_inject_other(before_injection(body, e), e.injected_params, k);
}

/// Law: with a cap, a non-negative integer `max_tokens` in the upstream
/// body is at most the cap, unless something is injected under
/// `max_tokens`; one the client sent, when not stripped, becomes the
/// smaller of itself and the cap.
pub proof fn law_max_tokens_capped(body: Map<Seq<char>, Json>, e: EntryModel)
    requires
        e.max_tokens_cap is Some,
        !injects_at(e.injected_params, "max_tokens"@),
    ensures
        transform_spec(Json::Obj(body), e) matches Some(Json::Obj(out)) && (out.contains_key(
            "max_tokens"@,
        ) && out["max_tokens"@] is Num ==> match number_as_u64(out["max_tokens"@]->Num_0) {
            Some(v) => v <= e.max_tokens_cap->Some_0,
            None => true,
        }),
        ({
            let c = e.max_tokens_cap->Some_0 as u64;
            body.contains_key("max_tokens"@) && body["max_tokens"@] is Num && number_as_u64(
                body["max_tokens"@]->Num_0,
            ) is Some && !e.strip_params.contains("max_tokens"@) ==> {
                let v = number_as_u64(body["max_tokens"@]->Num_0)->Some_0;
                transform_spec(Json::Obj(body), e) matches Some(Json::Obj(out)) && out.contains_key(
                    "max_tokens"@,
                ) && out["max_tokens"@] == Json::Num(
                    NumberModel::PosInt(if v <= c { v } else { c }),
                )
            }
        }),
{
    reveal_strlit("model");
    reveal_strlit("max_tokens");
    let k = "max_tokens"@;
    let m1 = body.insert("model"@, Json::Str(e.backend_id));
    lemma_strip_all(m1, e.strip_params, k);
    let m2 = strip_all(m1, e.strip_params);
    lemma_defaults(m2, e.default_params, k);
    let m3 = apply_defaults(m2, e.default_params);
    assert(k.len() != "model"@.len());
    if body.contains_key(k) && !e.strip_params.contains(k) {
        assert(m1[k] == body[k]);
        assert(m2[k] == body[k]);
        assert(m3[k] == body[k]);
    }
    lemma_inject_other(before_injection(body, e), e.injected_params, k);
}

proof fn lemma_get_set_path(m: Map<Seq<char>, Json>, p: Seq<Seq<char>>, v: Json)
    requires
        p.len() >= 1,
    ensures
        get_path(set_path(m, p, v), p) == Some(v),
    decreases p.len(),
{
    if p.len() > 1 {
        let child = if m.contains_key(p[0]) && m[p[0]] is Obj {
            m[p[0]]->Obj_0
        } else {
            Map::empty()
        };
        lemma_get_set_path(child, p.drop_first(), v);
    }
}

/// Law: the last injected parameter is found at the path its dotted key
/// names in the upstream body.
pub proof fn law_last_injection_visible(body: Map<Seq<char>, Json>, e: EntryModel)
    requires
        e.injected_params.len() > 0,
    ensures
        transform_spec(Json::Obj(body), e) matches Some(Json::Obj(out)) && get_path(
            out,
            key_path(e.injected_params.last().0),
        ) == Some(e.injected_params.last().1),
{
    lemma_split_on_nonempty(e.injected_params.last().0, '.');
    lemma_get_set_path(
        inject_all(before_injection(body, e), e.injected_params.drop_last()),
        key_path(e.injected_params.last().0),
        e.injected_params.last().1,
    );
}

} // verus!

verus! {

proof fn lemma_clamp_max_tokens(m: Map<Seq<char>, Json>, cap: Option<u32>)
    ensures
        clamp_max_tokens(m, cap).contains_key("max_tokens"@) == m.contains_key("max_tokens"@),
        clamp_max_tokens(clamp_max_tokens(m, cap), cap) == clamp_max_tokens(m, cap),
{
    if let Some(c) = cap {
        let k = "max_tokens"@;
        if m.contains_key(k) && m[k] is Num && number_as_u64(m[k]->Num_0) is Some {
            let v = number_as_u64(m[k]->Num_0)->Some_0;
            let w: u64 = if v <= c as u64 { v } else { c as u64 };
            let m1 = clamp_max_tokens(m, cap);
            assert(m1[k] == Json::Num(NumberModel::PosInt(w)));
            assert(m1.insert(k, Json::Num(NumberModel::PosInt(w))) =~= m1);
        }
    }
}

/// Whether two maps hold the same thing under key `k`.
pub open spec fn agree_at(a: Map<Seq<char>, Json>, b: Map<Seq<char>, Json>, k: Seq<char>) -> bool {
    a.contains_key(k) == b.contains_key(k) && (a.contains_key(k) ==> a[k] == b[k])
}

proof fn lemma_strip_local(a: Map<Seq<char>, Json>, b: Map<Seq<char>, Json>, ks: Seq<Seq<char>>, k: Seq<char>)
    requires
        agree_at(a, b, k) || ks.contains(k),
    ensures
        agree_at(strip_all(a, ks), strip_all(b, ks), k),
{
    lemma_strip_all(a, ks, k);
    lemma_strip_all(b, ks, k);
}

proof fn lemma_defaults_local(
    a: Map<Seq<char>, Json>,
    b: Map<Seq<char>, Json>,
    ps: Seq<(Seq<char>, Json)>,
    k: Seq<char>,
)
    requires
        agree_at(a, b, k),
    ensures
        agree_at(apply_defaults(a, ps), apply_defaults(b, ps), k),
    decreases ps.len(),
{
    if ps.len() > 0 {
        lemma_defaults_local(a, b, ps.drop_last(), k);
    }
}

proof fn lemma_clamp_local(a: Map<Seq<char>, Json>, b: Map<Seq<char>, Json>, cap: Option<u32>, k: Seq<char>)
    requires
        agree_at(a, b, k),
        agree_at(a, b, "max_tokens"@),
    ensures
        agree_at(clamp_max_tokens(a, cap), clamp_max_tokens(b, cap), k),
{
}

proof fn lemma_agree_everywhere(a: Map<Seq<char>, Json>, b: Map<Seq<char>, Json>)
    requires
        forall|k: Seq<char>| #[trigger] agree_at(a, b, k),
    ensures
        a == b,
{
    assert forall|k: Seq<char>| a.dom().contains(k) <==> b.dom().contains(k) by {
        assert(agree_at(a, b, k));
    }
    assert forall|k: Seq<char>| a.dom().contains(k) implies a[k] == b[k] by {
        assert(agree_at(a, b, k));
    }
    assert(a =~= b);
}

/// Law: the steps before injection (set `model`, strip, fill in defaults,
/// clamp `max_tokens`) change nothing when applied a second time.
pub proof fn law_before_injection_idempotent(m: Map<Seq<char>, Json>, e: EntryModel)
    ensures
        before_injection(before_injection(m, e), e) == before_injection(m, e),
{
    reveal_strlit("model");
    reveal_strlit("max_tokens");
    let x = before_injection(m, e);
    let y = before_injection(x, e);
    let m1 = m.insert("model"@, Json::Str(e.backend_id));
    let m2 = strip_all(m1, e.strip_params);
    let m3 = apply_defaults(m2, e.default_params);
    let x1 = x.insert("model"@, Json::Str(e.backend_id));
    let x2 = strip_all(x1, e.strip_params);
    let x3 = apply_defaults(x2, e.default_params);
    let mt = "max_tokens"@;
    assert(mt != "model"@) by {
        assert(mt.len() != "model"@.len());
    }
    lemma_clamp_max_tokens(m3, e.max_tokens_cap);
    assert forall|k: Seq<char>| #[trigger] agree_at(y, x, k) by {
        lemma_strip_all(x1, e.strip_params, k);
        lemma_strip_all(m1, e.strip_params, k);
        lemma_defaults(m2, e.default_params, k);
        lemma_defaults(m3, e.default_params, k);
        lemma_defaults(x, e.default_params, k);
        lemma_clamp_other(m3, e.max_tokens_cap, k);
        lemma_clamp_other(x3, e.max_tokens_cap, k);
        if k == "model"@ || e.strip_params.contains(k) {
            lemma_strip_local(m1, x1, e.strip_params, k);
            lemma_defaults_local(m2, x2, e.default_params, k);
            if k == mt {
                lemma_clamp_local(m3, x3, e.max_tokens_cap, k);
            }
        } else {
            if k == mt {
                assert(agree_at(x2, x, k));
                lemma_defaults_local(x2, x, e.default_params, k);
                lemma_clamp_local(x3, x, e.max_tokens_cap, k);
            } else {
                assert(agree_at(x2, m3, k));
                lemma_defaults_local(x2, m3, e.default_params, k);
            }
        }
    }
    lemma_agree_everywhere(y, x);
}


/// The object under `k`, or an empty one when `k` holds something else:
/// where `set_path` continues below `k`.
pub open spec fn child_at(m: Map<Seq<char>, Json>, k: Seq<char>) -> Map<Seq<char>, Json> {
    if m.contains_key(k) && m[k] is Obj {
        m[k]->Obj_0
    } else {
        Map::empty()
    }
}

proof fn lemma_set_path_twice(m: Map<Seq<char>, Json>, p: Seq<Seq<char>>, v: Json)
    requires
        p.len() >= 1,
    ensures
        set_path(set_path(m, p, v), p, v) == set_path(m, p, v),
    decreases p.len(),
{
    let once = set_path(m, p, v);
    if p.len() == 1 {
        assert(once.insert(p[0], v) =~= once);
    } else {
        let c = child_at(m, p[0]);
        lemma_set_path_twice(c, p.drop_first(), v);
        assert(child_at(once, p[0]) == set_path(c, p.drop_first(), v));
        assert(set_path(once, p, v) =~= once);
    }
}

/// Two maps that `set_path(_, p, v)` makes equal stay so when the same
/// path is set in both before.
proof fn lemma_set_path_absorb(
    u: Map<Seq<char>, Json>,
    w: Map<Seq<char>, Json>,
    p: Seq<Seq<char>>,
    v: Json,
    q: Seq<Seq<char>>,
    t: Json,
)
    requires
        p.len() >= 1,
        q.len() >= 1,
        set_path(u, p, v) == set_path(w, p, v),
    ensures
        set_path(set_path(u, q, t), p, v) == set_path(set_path(w, q, t), p, v),
    decreases p.len(),
{
    let h = p[0];
    let su = set_path(u, p, v);
    let sw = set_path(w, p, v);
    assert forall|k: Seq<char>| k != h implies #[trigger] agree_at(u, w, k) by {
        assert(su.contains_key(k) == u.contains_key(k));
        assert(sw.contains_key(k) == w.contains_key(k));
        if u.contains_key(k) {
            assert(su[k] == u[k]);
        }
        if w.contains_key(k) {
            assert(sw[k] == w[k]);
        }
    }
    let qu = set_path(u, q, t);
    let qw = set_path(w, q, t);
    let l = set_path(qu, p, v);
    let r = set_path(qw, p, v);
    if q[0] != h {
        assert(agree_at(u, w, q[0]));
        assert(child_at(u, q[0]) == child_at(w, q[0]));
        assert forall|k: Seq<char>| #[trigger] agree_at(l, r, k) by {
            if k == h {
                assert(child_at(qu, h) == child_at(u, h));
                assert(child_at(qw, h) == child_at(w, h));
                assert(agree_at(su, sw, h));
            } else if k == q[0] {
            } else {
                assert(agree_at(u, w, k));
            }
        }
        lemma_agree_everywhere(l, r);
    } else if p.len() == 1 {
        assert forall|k: Seq<char>| #[trigger] agree_at(l, r, k) by {
            if k != h {
                assert(agree_at(u, w, k));
            }
        }
        lemma_agree_everywhere(l, r);
    } else if q.len() == 1 {
        assert forall|k: Seq<char>| #[trigger] agree_at(l, r, k) by {
            if k != h {
                assert(agree_at(u, w, k));
            } else {
                assert(child_at(qu, h) == child_at(qw, h));
            }
        }
        lemma_agree_everywhere(l, r);
    } else {
        let cu = child_at(u, h);
        let cw = child_at(w, h);
        assert(su[h] == Json::Obj(set_path(cu, p.drop_first(), v)));
        assert(sw[h] == Json::Obj(set_path(cw, p.drop_first(), v)));
        lemma_set_path_absorb(cu, cw, p.drop_first(), v, q.drop_first(), t);
        assert(child_at(qu, h) == set_path(cu, q.drop_first(), t));
        assert(child_at(qw, h) == set_path(cw, q.drop_first(), t));
        assert forall|k: Seq<char>| #[trigger] agree_at(l, r, k) by {
            if k != h {
                assert(agree_at(u, w, k));
            }
        }
        lemma_agree_everywhere(l, r);
    }
}

proof fn lemma_inject_absorb(
    u: Map<Seq<char>, Json>,
    w: Map<Seq<char>, Json>,
    p: Seq<Seq<char>>,
    v: Json,
    ps: Seq<(Seq<char>, Json)>,
)
    requires
        p.len() >= 1,
        set_path(u, p, v) == set_path(w, p, v),
    ensures
        set_path(inject_all(u, ps), p, v) == set_path(inject_all(w, ps), p, v),
    decreases ps.len(),
{
    if ps.len() > 0 {
        lemma_inject_absorb(u, w, p, v, ps.drop_last());
        lemma_split_on_nonempty(ps.last().0, '.');
        lemma_set_path_absorb(
            inject_all(u, ps.drop_last()),
            inject_all(w, ps.drop_last()),
            p,
            v,
            key_path(ps.last().0),
            ps.last().1,
        );
    }
}

/// Law: storing the injected parameters a second time changes nothing.
pub proof fn law_inject_idempotent(m: Map<Seq<char>, Json>, ps: Seq<(Seq<char>, Json)>)
    ensures
        inject_all(inject_all(m, ps), ps) == inject_all(m, ps),
    decreases ps.len(),
{
    if ps.len() > 0 {
        let dl = ps.drop_last();
        let p = key_path(ps.last().0);
        let v = ps.last().1;
        lemma_split_on_nonempty(ps.last().0, '.');
        law_inject_idempotent(m, dl);
        let w = inject_all(m, dl);
        let u = set_path(w, p, v);
        lemma_set_path_twice(w, p, v);
        lemma_inject_absorb(u, w, p, v, dl);
    }
}

proof fn lemma_set_path_local(a: Map<Seq<char>, Json>, b: Map<Seq<char>, Json>, p: Seq<Seq<char>>, v: Json, k: Seq<char>)
    requires
        p.len() >= 1,
        agree_at(a, b, k),
    ensures
        agree_at(set_path(a, p, v), set_path(b, p, v), k),
{
    if p[0] == k {
        assert(child_at(a, k) == child_at(b, k));
    }
}

proof fn lemma_inject_local(a: Map<Seq<char>, Json>, b: Map<Seq<char>, Json>, ps: Seq<(Seq<char>, Json)>, k: Seq<char>)
    requires
        agree_at(a, b, k),
    ensures
        agree_at(inject_all(a, ps), inject_all(b, ps), k),
    decreases ps.len(),
{
    if ps.len() > 0 {
        lemma_inject_local(a, b, ps.drop_last(), k);
        lemma_split_on_nonempty(ps.last().0, '.');
        lemma_set_path_local(
            inject_all(a, ps.drop_last()),
            inject_all(b, ps.drop_last()),
            key_path(ps.last().0),
            ps.last().1,
            k,
        );
    }
}

proof fn lemma_inject_head_present(m: Map<Seq<char>, Json>, ps: Seq<(Seq<char>, Json)>, k: Seq<char>)
    requires
        injects_at(ps, k),
    ensures
        inject_all(m, ps).contains_key(k),
    decreases ps.len(),
{
    let dl = ps.drop_last();
    lemma_split_on_nonempty(ps.last().0, '.');
    lemma_set_path_other(inject_all(m, dl), key_path(ps.last().0), ps.last().1, k);
    if head_key(ps.last().0) != k {
        let i = choose|i: int| 0 <= i < ps.len() && #[trigger] head_key(ps[i].0) == k;
        assert(dl[i] == ps[i]);
        assert(injects_at(dl, k));
        lemma_inject_head_present(m, dl, k);
    }
}

/// Where the injected parameters leave something other than an object
/// under `k`, that is what any body gets under `k`.
proof fn lemma_inject_scalar(a: Map<Seq<char>, Json>, b: Map<Seq<char>, Json>, ps: Seq<(Seq<char>, Json)>, k: Seq<char>)
    requires
        injects_at(ps, k),
        inject_all(a, ps).contains_key(k),
        !(inject_all(a, ps)[k] is Obj),
    ensures
        agree_at(inject_all(a, ps), inject_all(b, ps), k),
    decreases ps.len(),
{
    let dl = ps.drop_last();
    let p = key_path(ps.last().0);
    lemma_split_on_nonempty(ps.last().0, '.');
    if p[0] == k {
        lemma_set_path_other(inject_all(b, dl), p, ps.last().1, k);
    } else {
        lemma_set_path_other(inject_all(a, dl), p, ps.last().1, k);
        lemma_set_path_other(inject_all(b, dl), p, ps.last().1, k);
        let i = choose|i: int| 0 <= i < ps.len() && #[trigger] head_key(ps[i].0) == k;
        assert(dl[i] == ps[i]);
        assert(injects_at(dl, k));
        lemma_inject_scalar(a, b, dl, k);
    }
}

/// What the steps before injection leave under `k` depends only on what
/// is under `k`, and not even on that for `model` and stripped keys.
proof fn lemma_before_local(z1: Map<Seq<char>, Json>, z2: Map<Seq<char>, Json>, e: EntryModel, k: Seq<char>)
    requires
        agree_at(z1, z2, k) || k == "model"@ || e.strip_params.contains(k),
    ensures
        agree_at(before_injection(z1, e), before_injection(z2, e), k),
{
    let a1 = z1.insert("model"@, Json::Str(e.backend_id));
    let b1 = z2.insert("model"@, Json::Str(e.backend_id));
    assert(agree_at(a1, b1, k) || e.strip_params.contains(k));
    lemma_strip_local(a1, b1, e.strip_params, k);
    let a2 = strip_all(a1, e.strip_params);
    let b2 = strip_all(b1, e.strip_params);
    lemma_defaults_local(a2, b2, e.default_params, k);
    let a3 = apply_defaults(a2, e.default_params);
    let b3 = apply_defaults(b2, e.default_params);
    if k == "max_tokens"@ {
        lemma_clamp_local(a3, b3, e.max_tokens_cap, k);
    } else {
        lemma_clamp_other(a3, e.max_tokens_cap, k);
        lemma_clamp_other(b3, e.max_tokens_cap, k);
    }
}

/// A value under a key that is neither `model` nor stripped goes through
/// the steps before injection unchanged, unless it is a `max_tokens` the
/// cap may lower.
proof fn lemma_before_keeps(z: Map<Seq<char>, Json>, e: EntryModel, k: Seq<char>)
    requires
        z.contains_key(k),
        k != "model"@,
        !e.strip_params.contains(k),
        !(k == "max_tokens"@ && z[k] is Num && number_as_u64(z[k]->Num_0) is Some),
    ensures
        agree_at(before_injection(z, e), z, k),
{
    let a1 = z.insert("model"@, Json::Str(e.backend_id));
    lemma_strip_all(a1, e.strip_params, k);
    let a2 = strip_all(a1, e.strip_params);
    lemma_defaults(a2, e.default_params, k);
    let a3 = apply_defaults(a2, e.default_params);
    lemma_clamp_other(a3, e.max_tokens_cap, k);
}

/// Law: rewriting a body that was already rewritten for the same model
/// gives it back unchanged.
pub proof fn law_transform_idempotent(body: Json, e: EntryModel)
    ensures
        transform_spec(body, e) matches Some(out) ==> transform_spec(out, e) == Some(out),
{
    if let Json::Obj(m) = body {
        let ps = e.injected_params;
        let x = before_injection(m, e);
        let y = inject_all(x, ps);
        let by = before_injection(y, e);
        law_before_injection_idempotent(m, e);
        law_inject_idempotent(x, ps);
        assert forall|k: Seq<char>| #[trigger] agree_at(inject_all(by, ps), y, k) by {
            if !injects_at(ps, k) {
                lemma_inject_other(x, ps, k);
                lemma_before_local(y, x, e, k);
                lemma_inject_local(by, y, ps, k);
                lemma_inject_other(y, ps, k);
            } else if k == "model"@ || e.strip_params.contains(k) {
                lemma_before_local(y, x, e, k);
                lemma_inject_local(by, x, ps, k);
            } else {
                lemma_inject_head_present(x, ps, k);
                if k == "max_tokens"@ && y[k] is Num && number_as_u64(y[k]->Num_0) is Some {
                    lemma_inject_scalar(y, by, ps, k);
                } else {
                    lemma_before_keeps(y, e, k);
                    lemma_inject_local(by, y, ps, k);
                }
            }
        }
        lemma_agree_everywhere(inject_all(by, ps), y);
    }
}

/// Whether path `a` begins path `b` (or equals it).
pub open spec fn path_prefix(a: Seq<Seq<char>>, b: Seq<Seq<char>>) -> bool {
    a.len() <= b.len() && b.take(a.len() as int) == a
}

/// Whether path `a` begins path `b` and is shorter.
pub open spec fn path_proper_prefix(a: Seq<Seq<char>>, b: Seq<Seq<char>>) -> bool {
    a.len() < b.len() && b.take(a.len() as int) == a
}

/// Whether something other than an object is stored at the path.
pub open spec fn scalar_at(m: Map<Seq<char>, Json>, r: Seq<Seq<char>>) -> bool {
    get_path(m, r) matches Some(j) && !(j is Obj)
}

/// What lies at `rest` inside a value.
pub open spec fn get_in(v: Json, rest: Seq<Seq<char>>) -> Option<Json> {
    if rest.len() == 0 {
        Some(v)
    } else {
        match v {
            Json::Obj(c) => get_path(c, rest),
            _ => None,
        }
    }
}

proof fn lemma_path_blocked_scalar(m: Map<Seq<char>, Json>, p: Seq<Seq<char>>)
    ensures
        path_blocked(m, p) <==> exists|n: int| 1 <= n < p.len() && #[trigger] scalar_at(m, p.take(n)),
    decreases p.len(),
{
    if p.len() > 1 {
        assert(p.take(1)[0] == p[0]);
        if !m.contains_key(p[0]) {
            assert forall|n: int| 1 <= n < p.len() implies !#[trigger] scalar_at(m, p.take(n)) by {
                assert(p.take(n)[0] == p[0]);
            }
        } else {
            match m[p[0]] {
                Json::Obj(c) => {
                    let t = p.drop_first();
                    lemma_path_blocked_scalar(c, t);
                    assert forall|n: int| 1 <= n < p.len() implies #[trigger] scalar_at(m, p.take(n))
                        == (n >= 2 && scalar_at(c, t.take(n - 1))) by {
                        assert(p.take(n)[0] == p[0]);
                        if n >= 2 {
                            assert(p.take(n).drop_first() =~= t.take(n - 1));
                        }
                    }
                    if path_blocked(m, p) {
                        let k = choose|k: int| 1 <= k < t.len() && #[trigger] scalar_at(c, t.take(k));
                        assert(scalar_at(m, p.take(k + 1)));
                    }
                },
                _ => {
                    assert(scalar_at(m, p.take(1)));
                },
            }
        }
    }
}

proof fn lemma_get_set_path_at(m: Map<Seq<char>, Json>, p: Seq<Seq<char>>, v: Json, r: Seq<Seq<char>>)
    requires
        p.len() >= 1,
        r.len() >= 1,
    ensures
        path_prefix(p, r) ==> get_path(set_path(m, p, v), r) == get_in(v, r.skip(p.len() as int)),
        path_proper_prefix(r, p) ==> get_path(set_path(m, p, v), r) matches Some(Json::Obj(_)),
        !path_prefix(p, r) && !path_proper_prefix(r, p) ==> get_path(set_path(m, p, v), r)
            == get_path(m, r),
    decreases p.len(),
{
    let s = set_path(m, p, v);
    if p[0] != r[0] {
        assert(p.take(1)[0] == p[0]);
        assert(r.take(1)[0] == r[0]);
        if path_prefix(p, r) {
            assert(r.take(p.len() as int)[0] == r[0]);
        }
        if path_proper_prefix(r, p) {
            assert(p.take(r.len() as int)[0] == p[0]);
        }
    } else if p.len() == 1 {
        assert(r.take(1) =~= p);
        assert(r.skip(1) =~= r.drop_first());
    } else if r.len() == 1 {
        assert(p.take(1) =~= r);
    } else {
        let c = child_at(m, p[0]);
        let p1 = p.drop_first();
        let r1 = r.drop_first();
        lemma_get_set_path_at(c, p1, v, r1);
        assert(path_prefix(p, r) == path_prefix(p1, r1)) by {
            if path_prefix(p, r) {
                assert(r1.take(p1.len() as int) =~= r.take(p.len() as int).drop_first());
            }
            if path_prefix(p1, r1) {
                assert(r.take(p.len() as int) =~= seq![r[0]] + r1.take(p1.len() as int));
                assert(p =~= seq![p[0]] + p1);
            }
        }
        assert(path_proper_prefix(r, p) == path_proper_prefix(r1, p1)) by {
            if path_proper_prefix(r, p) {
                assert(p1.take(r1.len() as int) =~= p.take(r.len() as int).drop_first());
            }
            if path_proper_prefix(r1, p1) {
                assert(p.take(r.len() as int) =~= seq![p[0]] + p1.take(r1.len() as int));
                assert(r =~= seq![r[0]] + r1);
            }
        }
        if path_prefix(p, r) {
            assert(r.skip(p.len() as int) =~= r1.skip(p1.len() as int));
        }
    }
}

/// Whether setting path `p` touches what lies at `r`: `p` begins `r`, or
/// `r` lies on the way to `p`.
pub open spec fn touches(p: Seq<Seq<char>>, r: Seq<Seq<char>>) -> bool {
    path_prefix(p, r) || path_proper_prefix(r, p)
}

proof fn lemma_inject_untouched(m: Map<Seq<char>, Json>, ps: Seq<(Seq<char>, Json)>, r: Seq<Seq<char>>)
    requires
        r.len() >= 1,
        forall|i: int| 0 <= i < ps.len() ==> !touches(#[trigger] key_path(ps[i].0), r),
    ensures
        get_path(inject_all(m, ps), r) == get_path(m, r),
    decreases ps.len(),
{
    if ps.len() > 0 {
        let dl = ps.drop_last();
        assert forall|i: int| 0 <= i < dl.len() implies !touches(#[trigger] key_path(dl[i].0), r) by {
            assert(dl[i] == ps[i]);
        }
        lemma_inject_untouched(m, dl, r);
        lemma_split_on_nonempty(ps.last().0, '.');
        assert(!touches(key_path(ps[ps.len() - 1].0), r));
        lemma_get_set_path_at(inject_all(m, dl), key_path(ps.last().0), ps.last().1, r);
    }
}

proof fn lemma_inject_touched(
    m1: Map<Seq<char>, Json>,
    m2: Map<Seq<char>, Json>,
    ps: Seq<(Seq<char>, Json)>,
    r: Seq<Seq<char>>,
)
    requires
        r.len() >= 1,
        exists|i: int| 0 <= i < ps.len() && touches(#[trigger] key_path(ps[i].0), r),
    ensures
        scalar_at(inject_all(m1, ps), r) == scalar_at(inject_all(m2, ps), r),
    decreases ps.len(),
{
    let dl = ps.drop_last();
    let p = key_path(ps.last().0);
    lemma_split_on_nonempty(ps.last().0, '.');
    lemma_get_set_path_at(inject_all(m1, dl), p, ps.last().1, r);
    lemma_get_set_path_at(inject_all(m2, dl), p, ps.last().1, r);
    if !touches(p, r) {
        let i = choose|i: int| 0 <= i < ps.len() && touches(#[trigger] key_path(ps[i].0), r);
        assert(i != ps.len() - 1);
        assert(dl[i] == ps[i]);
        assert(touches(key_path(dl[i].0), r));
        lemma_inject_touched(m1, m2, dl, r);
    }
}

proof fn lemma_inject_object_on_way(m: Map<Seq<char>, Json>, ps: Seq<(Seq<char>, Json)>, r: Seq<Seq<char>>)
    requires
        r.len() >= 1,
        exists|i: int| 0 <= i < ps.len() && touches(#[trigger] key_path(ps[i].0), r),
        forall|i: int|
            0 <= i < ps.len() && touches(#[trigger] key_path(ps[i].0), r) ==> path_proper_prefix(
                r,
                key_path(ps[i].0),
            ),
    ensures
        get_path(inject_all(m, ps), r) matches Some(Json::Obj(_)),
    decreases ps.len(),
{
    let dl = ps.drop_last();
    let p = key_path(ps.last().0);
    lemma_split_on_nonempty(ps.last().0, '.');
    lemma_get_set_path_at(inject_all(m, dl), p, ps.last().1, r);
    if !touches(p, r) {
        let i = choose|i: int| 0 <= i < ps.len() && touches(#[trigger] key_path(ps[i].0), r);
        assert(i != ps.len() - 1);
        assert(dl[i] == ps[i]);
        assert(touches(key_path(dl[i].0), r));
        assert forall|j: int|
            0 <= j < dl.len() && touches(#[trigger] key_path(dl[j].0), r) implies path_proper_prefix(
            r,
            key_path(dl[j].0),
        ) by {
            assert(dl[j] == ps[j]);
        }
        lemma_inject_object_on_way(m, dl, r);
    } else {
        assert(touches(key_path(ps[ps.len() - 1].0), r));
    }
}

proof fn lemma_inject_blocked_steps(m: Map<Seq<char>, Json>, ps: Seq<(Seq<char>, Json)>)
    ensures
        !inject_blocked(m, ps) <==> forall|i: int|
            0 <= i < ps.len() ==> !path_blocked(
                inject_all(m, ps.take(i)),
                #[trigger] key_path(ps[i].0),
            ),
    decreases ps.len(),
{
    if ps.len() > 0 {
        let dl = ps.drop_last();
        lemma_inject_blocked_steps(m, dl);
        assert(ps.take(ps.len() - 1) =~= dl);
        assert forall|i: int| 0 <= i < dl.len() implies ps.take(i) == dl.take(i) && ps[i] == dl[i] by {
            assert(ps.take(i) =~= dl.take(i));
        }
        if !inject_blocked(m, ps) {
            assert forall|i: int| 0 <= i < ps.len() implies !path_blocked(
                inject_all(m, ps.take(i)),
                #[trigger] key_path(ps[i].0),
            ) by {
                if i < dl.len() {
                    assert(ps.take(i) == dl.take(i) && ps[i] == dl[i]);
                    assert(!path_blocked(inject_all(m, dl.take(i)), key_path(dl[i].0)));
                }
            }
        } else {
            if !inject_blocked(m, dl) {
                assert(path_blocked(inject_all(m, ps.take(ps.len() - 1)), key_path(ps[ps.len() - 1].0)));
            } else {
                let i = choose|i: int| 0 <= i < dl.len() && path_blocked(
                    inject_all(m, dl.take(i)),
                    #[trigger] key_path(dl[i].0),
                );
                assert(ps.take(i) == dl.take(i) && ps[i] == dl[i]);
                assert(path_blocked(inject_all(m, ps.take(i)), key_path(ps[i].0)));
            }
        }
    }
}

/// In parameters listed in key order, a later dotted key never names a
/// path that begins an earlier one's: `a` comes before `a.b`.
proof fn lemma_later_not_prefix(ps: Seq<(Seq<char>, Json)>, i: int, j: int)
    requires
        keys_ascending(ps),
        0 <= i < j < ps.len(),
    ensures
        !path_proper_prefix(key_path(ps[j].0), key_path(ps[i].0)),
{
    if path_proper_prefix(key_path(ps[j].0), key_path(ps[i].0)) {
        lemma_split_prefix_text_lt(ps[j].0, ps[i].0, '.');
        lemma_text_lt_transitive(ps[i].0, ps[j].0, ps[i].0);
        lemma_text_lt_irreflexive(ps[i].0);
    }
}

proof fn lemma_get_path_local(a: Map<Seq<char>, Json>, b: Map<Seq<char>, Json>, r: Seq<Seq<char>>)
    requires
        r.len() >= 1,
        agree_at(a, b, r[0]),
    ensures
        get_path(a, r) == get_path(b, r),
{
}

/// Law: with the injected parameters in key order (as a [`ParamMap`] holds
/// them), a body rewritten without meeting a blocked path can be rewritten
/// again without meeting one.
///
/// [`ParamMap`]: crate::models::ParamMap
pub proof fn law_transform_again_unblocked(body: Json, e: EntryModel)
    requires
        keys_ascending(e.injected_params),
        !transform_blocked(body, e),
    ensures
        transform_spec(body, e) matches Some(out) ==> !transform_blocked(out, e),
{
    if let Json::Obj(m) = body {
        let ps = e.injected_params;
        let x = before_injection(m, e);
        let y = inject_all(x, ps);
        let z = before_injection(y, e);
        law_before_injection_idempotent(m, e);
        lemma_inject_blocked_steps(x, ps);
        lemma_inject_blocked_steps(z, ps);
        assert forall|i: int| 0 <= i < ps.len() implies !path_blocked(
            inject_all(z, ps.take(i)),
            #[trigger] key_path(ps[i].0),
        ) by {
            let p = key_path(ps[i].0);
            let l = ps.take(i);
            lemma_split_on_nonempty(ps[i].0, '.');
            lemma_path_blocked_scalar(inject_all(z, l), p);
            lemma_path_blocked_scalar(inject_all(x, l), p);
            assert(!path_blocked(inject_all(x, l), p));
            assert forall|n: int| 1 <= n < p.len() implies !#[trigger] scalar_at(
                inject_all(z, l),
                p.take(n),
            ) by {
                let r = p.take(n);
                assert(!scalar_at(inject_all(x, l), r));
                if exists|j: int| 0 <= j < l.len() && touches(#[trigger] key_path(l[j].0), r) {
                    lemma_inject_touched(z, x, l, r);
                } else {
                    lemma_inject_untouched(z, l, r);
                    lemma_inject_untouched(x, l, r);
                    assert(touches(key_path(ps[i].0), r)) by {
                        assert(p.take(r.len() as int) =~= r);
                    }
                    assert forall|j: int|
                        0 <= j < ps.len() && touches(#[trigger] key_path(ps[j].0), r) implies path_proper_prefix(
                        r,
                        key_path(ps[j].0),
                    ) by {
                        if j < i {
                            assert(l[j] == ps[j]);
                            assert(touches(key_path(l[j].0), r));
                        } else if j > i && path_prefix(key_path(ps[j].0), r) {
                            let q = key_path(ps[j].0);
                            assert(p.take(q.len() as int) =~= r.take(q.len() as int));
                            lemma_later_not_prefix(ps, i, j);
                        }
                    }
                    lemma_inject_object_on_way(x, ps, r);
                    let h = r[0];
                    assert(h == p[0]);
                    assert(head_key(ps[i].0) == h);
                    assert(injects_at(ps, h));
                    if h == "model"@ || e.strip_params.contains(h) {
                        lemma_before_local(y, x, e, h);
                        lemma_get_path_local(z, x, r);
                    } else {
                        lemma_inject_head_present(x, ps, h);
                        if h == "max_tokens"@ && y[h] is Num && number_as_u64(y[h]->Num_0) is Some {
                            assert(false);
                        } else {
                            lemma_before_keeps(y, e, h);
                            lemma_get_path_local(z, y, r);
                        }
                    }
                }
            }
        }
    }
}

/// Law: a request body rewritten for a model (whose injected parameters are
/// in key order, as a [`ParamMap`] holds them) can be rewritten again, and
/// the second rewrite gives it back unchanged.
///
/// [`ParamMap`]: crate::models::ParamMap
pub proof fn law_transform_request_idempotent(body: Json, e: EntryModel)
    requires
        keys_ascending(e.injected_params),
        !transform_blocked(body, e),
    ensures
        transform_spec(body, e) matches Some(out) ==> !transform_blocked(out, e) && transform_spec(
            out,
            e,
        ) == Some(out),
{
    law_transform_again_unblocked(body, e);
    law_transform_idempotent(body, e);
}

proof fn lemma_default_value(m: Map<Seq<char>, Json>, ps: Seq<(Seq<char>, Json)>, i: int)
    requires
        keys_ascending(ps),
        0 <= i < ps.len(),
        !m.contains_key(ps[i].0),
    ensures
        apply_defaults(m, ps).contains_key(ps[i].0),
        apply_defaults(m, ps)[ps[i].0] == ps[i].1,
    decreases ps.len(),
{
    let k = ps[i].0;
    let dl = ps.drop_last();
    assert(keys_ascending(dl)) by {
        assert forall|a: int, b: int| 0 <= a < b < dl.len() implies text_lt(dl[a].0, dl[b].0) by {
            assert(dl[a] == ps[a] && dl[b] == ps[b]);
        }
    }
    if i == ps.len() - 1 {
        assert(!lists_key(dl, k)) by {
            if lists_key(dl, k) {
                let j = choose|j: int| 0 <= j < dl.len() && #[trigger] dl[j].0 == k;
                assert(ps[j].0 == k && j < i);
                assert(text_lt(ps[j].0, ps[i].0));
                lemma_text_lt_irreflexive(k);
            }
        }
        lemma_defaults(m, dl, k);
    } else {
        assert(dl[i] == ps[i]);
        lemma_default_value(m, dl, i);
        assert(ps.last().0 != k) by {
            assert(text_lt(ps[i].0, ps[ps.len() - 1].0));
            if ps.last().0 == k {
                lemma_text_lt_irreflexive(k);
            }
        }
    }
}

/// Law: a default parameter the client did not send (or that is stripped)
/// reaches the upstream body with the value listed for its key, when the
/// key is neither `model` nor `max_tokens` and nothing is injected under
/// it; with the parameters in key order (as a [`ParamMap`] holds them)
/// each key has one value.
///
/// [`ParamMap`]: crate::models::ParamMap
pub proof fn law_default_value(body: Map<Seq<char>, Json>, e: EntryModel, i: int)
    requires
        keys_ascending(e.default_params),
        0 <= i < e.default_params.len(),
        !body.contains_key(e.default_params[i].0) || e.strip_params.contains(
            e.default_params[i].0,
        ),
        e.default_params[i].0 != "model"@,
        e.default_params[i].0 != "max_tokens"@,
        !injects_at(e.injected_params, e.default_params[i].0),
    ensures
        transform_spec(Json::Obj(body), e) matches Some(Json::Obj(out)) && out.contains_key(
            e.default_params[i].0,
        ) && out[e.default_params[i].0] == e.default_params[i].1,
{
    let k = e.default_params[i].0;
    let m1 = body.insert("model"@, Json::Str(e.backend_id));
    lemma_strip_all(m1, e.strip_params, k);
    let m2 = strip_all(m1, e.strip_params);
    lemma_default_value(m2, e.default_params, i);
    let m3 = apply_defaults(m2, e.default_params);
    lemma_clamp_other(m3, e.max_tokens_cap, k);
    lemma_inject_other(before_injection(body, e), e.injected_params, k);
}

/// Law: with no cap, `max_tokens` is never changed by the clamp step: a
/// `max_tokens` the client sent reaches the upstream body as sent, when it
/// is not stripped and nothing is injected under it.
pub proof fn law_no_cap_keeps_max_tokens(body: Map<Seq<char>, Json>, e: EntryModel)
    requires
        e.max_tokens_cap is None,
        body.contains_key("max_tokens"@),
        !e.strip_params.contains("max_tokens"@),
        !injects_at(e.injected_params, "max_tokens"@),
    ensures
        forall|m: Map<Seq<char>, Json>| clamp_max_tokens(m, None) == m,
        transform_spec(Json::Obj(body), e) matches Some(Json::Obj(out)) && out.contains_key(
            "max_tokens"@,
        ) && out["max_tokens"@] == body["max_tokens"@],
{
    reveal_strlit("model");
    reveal_strlit("max_tokens");
    let k = "max_tokens"@;
    assert(k != "model"@) by {
        assert(k.len() != "model"@.len());
    }
    let m1 = body.insert("model"@, Json::Str(e.backend_id));
    lemma_strip_all(m1, e.strip_params, k);
    let m2 = strip_all(m1, e.strip_params);
    lemma_defaults(m2, e.default_params, k);
    let m3 = apply_defaults(m2, e.default_params);
    assert(m1[k] == body[k]);
    lemma_inject_other(before_injection(body, e), e.injected_params, k);
}

/// Law: with a cap, `max_tokens` at or below it is left as sent; only a
/// value above it is lowered, to the cap.
pub proof fn law_cap_only_lowers(m: Map<Seq<char>, Json>, c: u32)
    requires
        m.contains_key("max_tokens"@),
        m["max_tokens"@] is Num,
        number_as_u64(m["max_tokens"@]->Num_0) is Some,
    ensures
        ({
            let v = number_as_u64(m["max_tokens"@]->Num_0)->Some_0;
            let out = clamp_max_tokens(m, Some(c));
            &&& out.dom() == m.dom()
            &&& v <= c ==> out["max_tokens"@] == Json::Num(NumberModel::PosInt(v))
            &&& v > c ==> out["max_tokens"@] == Json::Num(NumberModel::PosInt(c as u64))
            &&& forall|k: Seq<char>| k != "max_tokens"@ && m.contains_key(k) ==> out[k] == m[k]
        }),
{
    assert(clamp_max_tokens(m, Some(c)).dom() =~= m.dom());
}

} // verus!
