//! The model registry: the entries that map the names clients see to
//! upstream models and to the request rewriting each one needs.

use vstd::prelude::*;
use crate::json::{json_view, Json, JsonValue};
use crate::text::{lemma_text_lt_irreflexive, lemma_text_lt_total, lemma_text_lt_transitive, text_eq, text_less, text_lt};

verus! {

/// Keys in strictly increasing [`text_lt`] order; so no key occurs twice.
pub open spec fn keys_ascending(s: Seq<(Seq<char>, Json)>) -> bool {
    forall|i: int, j: int| 0 <= i < j < s.len() ==> text_lt(s[i].0, s[j].0)
}

/// Number of leading parameters whose key comes before `k`: in an ordered
/// list, the place where the key belongs.
pub open spec fn key_place(s: Seq<(Seq<char>, Json)>, k: Seq<char>) -> int
    decreases s.len(),
{
    if s.len() == 0 {
        0
    } else if text_lt(s[0].0, k) {
        1 + key_place(s.drop_first(), k)
    } else {
        0
    }
}

/// An ordered parameter list with `k` set to `v`: the value of an existing
/// key is replaced in place, a new key is put at its place.
pub open spec fn param_insert(s: Seq<(Seq<char>, Json)>, k: Seq<char>, v: Json) -> Seq<(Seq<char>, Json)> {
    let p = key_place(s, k);
    if p < s.len() && s[p].0 == k {
        s.update(p, (k, v))
    } else {
        s.insert(p, (k, v))
    }
}

pub open spec fn params_view(s: Seq<(String, JsonValue)>) -> Seq<(Seq<char>, Json)> {
    Seq::new(s.len(), |i: int| (s[i].0@, json_view(s[i].1)))
}

pub proof fn lemma_key_place(s: Seq<(Seq<char>, Json)>, k: Seq<char>)
    requires
        keys_ascending(s),
    ensures
        0 <= key_place(s, k) <= s.len(),
        forall|i: int| 0 <= i < key_place(s, k) ==> text_lt(#[trigger] s[i].0, k),
        forall|i: int| key_place(s, k) <= i < s.len() ==> !text_lt(#[trigger] s[i].0, k),
    decreases s.len(),
{
    if s.len() > 0 {
        let t = s.drop_first();
        assert(keys_ascending(t)) by {
            assert forall|i: int, j: int| 0 <= i < j < t.len() implies text_lt(t[i].0, t[j].0) by {
                assert(t[i] == s[i + 1] && t[j] == s[j + 1]);
            }
        }
        lemma_key_place(t, k);
        if text_lt(s[0].0, k) {
            assert forall|i: int| 0 <= i < key_place(s, k) implies text_lt(#[trigger] s[i].0, k) by {
                if i > 0 {
                    assert(s[i] == t[i - 1]);
                }
            }
            assert forall|i: int| key_place(s, k) <= i < s.len() implies !text_lt(#[trigger] s[i].0, k) by {
                assert(s[i] == t[i - 1]);
            }
        } else {
            assert forall|i: int| 0 <= i < s.len() implies !text_lt(#[trigger] s[i].0, k) by {
                if i > 0 && text_lt(s[i].0, k) {
                    lemma_text_lt_transitive(s[0].0, s[i].0, k);
                }
            }
        }
    }
}

/// Law: setting a parameter keeps the keys in order, each once.
pub proof fn law_param_insert_ordered(s: Seq<(Seq<char>, Json)>, k: Seq<char>, v: Json)
    requires
        keys_ascending(s),
    ensures
        keys_ascending(param_insert(s, k, v)),
{
    let p = key_place(s, k);
    lemma_key_place(s, k);
    let r = param_insert(s, k, v);
    if p < s.len() && s[p].0 == k {
        assert forall|i: int, j: int| 0 <= i < j < r.len() implies text_lt(r[i].0, r[j].0) by {
            assert(r[i].0 == s[i].0 && r[j].0 == s[j].0);
        }
    } else {
        if p < s.len() {
            lemma_text_lt_total(s[p].0, k);
        }
        assert forall|i: int, j: int| 0 <= i < j < r.len() implies text_lt(r[i].0, r[j].0) by {
            if j < p {
                assert(r[i] == s[i] && r[j] == s[j]);
            } else if j == p {
                assert(r[i] == s[i]);
            } else if i == p {
                assert(r[j] == s[j - 1]);
                if j - 1 > p {
                    lemma_text_lt_transitive(k, s[p].0, s[j - 1].0);
                }
            } else if i < p {
                assert(r[i] == s[i] && r[j] == s[j - 1]);
            } else {
                assert(r[i] == s[i - 1] && r[j] == s[j - 1]);
            }
        }
    }
}

/// Law: after setting `k` to `v`, `k` is found with `v`, and every other
/// key keeps its value.
pub proof fn law_param_insert_lookup(s: Seq<(Seq<char>, Json)>, k: Seq<char>, v: Json)
    requires
        keys_ascending(s),
    ensures
        exists|i: int| 0 <= i < param_insert(s, k, v).len() && #[trigger] param_insert(s, k, v)[i] == (k, v),
        forall|q: (Seq<char>, Json)| q.0 != k ==> (param_insert(s, k, v).contains(q) <==> s.contains(q)),
{
    let p = key_place(s, k);
    lemma_key_place(s, k);
    let r = param_insert(s, k, v);
    assert(r[p] == (k, v));
    assert forall|q: (Seq<char>, Json)| q.0 != k implies (r.contains(q) <==> s.contains(q)) by {
        if r.contains(q) {
            let i = choose|i: int| 0 <= i < r.len() && r[i] == q;
            if p < s.len() && s[p].0 == k {
                assert(s[i] == q);
            } else if i < p {
                assert(s[i] == q);
            } else {
                assert(s[i - 1] == q);
            }
        }
        if s.contains(q) {
            let i = choose|i: int| 0 <= i < s.len() && s[i] == q;
            if p < s.len() && s[p].0 == k {
                assert(r[i] == q);
            } else if i < p {
                assert(r[i] == q);
            } else {
                assert(r[i + 1] == q);
            }
        }
    }
}

/// Parameters by name, held in increasing key order with each key once,
/// as the registry file's tables give them.
#[derive(Debug)]
pub struct ParamMap {
    entries: Vec<(String, JsonValue)>,
}

impl ParamMap {
    #[verifier::type_invariant]
    closed spec fn ordered(self) -> bool {
        keys_ascending(params_view(self.entries@))
    }
}

impl View for ParamMap {
    type V = Seq<(Seq<char>, Json)>;

    closed spec fn view(&self) -> Seq<(Seq<char>, Json)> {
        params_view(self.entries@)
    }
}

impl ParamMap {
    /// No parameters.
    pub fn new() -> (r: ParamMap)
        ensures
            r@ == Seq::<(Seq<char>, Json)>::empty(),
    {
        let r = ParamMap { entries: Vec::new() };
        proof {
            assert(r@ =~= Seq::<(Seq<char>, Json)>::empty());
        }
        r
    }

    /// The number of parameters; their keys are in increasing order.
    pub fn len(&self) -> (r: usize)
        ensures
            r == self@.len(),
            keys_ascending(self@),
    {
        proof {
            use_type_invariant(self);
        }
        self.entries.len()
    }

    /// The key of the `i`-th parameter in key order.
    pub fn key(&self, i: usize) -> (r: &String)
        requires
            i < self@.len(),
        ensures
            r@ == self@[i as int].0,
    {
        &self.entries[i].0
    }

    /// The value of the `i`-th parameter in key order.
    pub fn value(&self, i: usize) -> (r: &JsonValue)
        requires
            i < self@.len(),
        ensures
            json_view(*r) == self@[i as int].1,
    {
        &self.entries[i].1
    }

    /// Sets `key` to `value`, replacing the value the key had.
    pub fn insert(&mut self, key: String, value: JsonValue)
        ensures
            final(self)@ == param_insert(old(self)@, key@, json_view(value)),
            keys_ascending(final(self)@),
    {
        proof {
            use_type_invariant(&*self);
        }
        let mut v: Vec<(String, JsonValue)> = Vec::new();
        std::mem::swap(&mut v, &mut self.entries);
        let ghost s = params_view(v@);
        let mut p: usize = 0;
        loop
            invariant
                p <= v@.len(),
                s == params_view(v@),
                forall|j: int| 0 <= j < p ==> text_lt(#[trigger] s[j].0, key@),
            ensures
                p <= v@.len(),
                forall|j: int| 0 <= j < p ==> text_lt(#[trigger] s[j].0, key@),
                p == v@.len() || !text_lt(s[p as int].0, key@),
            decreases v.len() - p,
        {
            if p == v.len() {
                break;
            }
            if !text_less(v[p].0.as_str(), key.as_str()) {
                break;
            }
            p = p + 1;
        }
        proof {
            lemma_key_place(s, key@);
            if p < key_place(s, key@) {
                assert(!text_lt(s[p as int].0, key@));
            }
            if key_place(s, key@) < p {
                assert(text_lt(s[key_place(s, key@)].0, key@));
            }
            law_param_insert_ordered(s, key@, json_view(value));
        }
        let ghost kv = key@;
        let ghost jv = json_view(value);
        if p < v.len() && text_eq(v[p].0.as_str(), key.as_str()) {
            v.remove(p);
            v.insert(p, (key, value));
            proof {
                assert(params_view(v@) =~= s.update(p as int, (kv, jv)));
            }
        } else {
            v.insert(p, (key, value));
            proof {
                assert(params_view(v@) =~= s.insert(p as int, (kv, jv)));
            }
        }
        self.entries = v;
    }

    /// A deep copy.
    pub fn copy(&self) -> (r: ParamMap)
        ensures
            r@ == self@,
    {
        proof {
            use_type_invariant(self);
        }
        let mut out: Vec<(String, JsonValue)> = Vec::new();
        let mut i: usize = 0;
        while i < self.entries.len()
            invariant
                i <= self.entries@.len(),
                out@.len() == i,
                forall|j: int| 0 <= j < i ==> #[trigger] out@[j].0@ == self.entries@[j].0@ && json_view(out@[j].1) == json_view(self.entries@[j].1),
            decreases self.entries.len() - i,
        {
            let k = self.entries[i].0.clone();
            let v = self.entries[i].1.copy();
            out.push((k, v));
            i = i + 1;
        }
        proof {
            assert(params_view(out@) =~= params_view(self.entries@));
        }
        ParamMap { entries: out }
    }
}

/// One model of the registry. `openai_id` is what clients see;
/// `backend_id` is what is sent upstream.
#[derive(Debug)]
pub struct ModelEntry {
    pub openai_id: String,
    pub backend_id: String,
    pub description: String,
    pub max_tokens_cap: Option<u32>,
    pub default_params: ParamMap,
    pub injected_params: ParamMap,
    pub strip_params: Vec<String>,
    pub supports_streaming: bool,
    pub supports_tools: bool,
    pub status_poll_path: Option<String>,
}

/// The mathematical model of a [`ModelEntry`].
pub struct EntryModel {
    pub openai_id: Seq<char>,
    pub backend_id: Seq<char>,
    pub description: Seq<char>,
    pub max_tokens_cap: Option<u32>,
    pub default_params: Seq<(Seq<char>, Json)>,
    pub injected_params: Seq<(Seq<char>, Json)>,
    pub strip_params: Seq<Seq<char>>,
    pub supports_streaming: bool,
    pub supports_tools: bool,
    pub status_poll_path: Option<Seq<char>>,
}

pub open spec fn texts_view(s: Seq<String>) -> Seq<Seq<char>> {
    Seq::new(s.len(), |i: int| s[i]@)
}

pub open spec fn opt_text_view(o: Option<String>) -> Option<Seq<char>> {
    match o {
        Some(s) => Some(s@),
        None => None,
    }
}

impl View for ModelEntry {
    type V = EntryModel;

    open spec fn view(&self) -> EntryModel {
        EntryModel {
            openai_id: self.openai_id@,
            backend_id: self.backend_id@,
            description: self.description@,
            max_tokens_cap: self.max_tokens_cap,
            default_params: self.default_params@,
            injected_params: self.injected_params@,
            strip_params: texts_view(self.strip_params@),
            supports_streaming: self.supports_streaming,
            supports_tools: self.supports_tools,
            status_poll_path: opt_text_view(self.status_poll_path),
        }
    }
}

/// The default of `supports_streaming` and `supports_tools` when the
/// registry file leaves them out.
pub fn default_true() -> (r: bool)
    ensures
        r,
{
    true
}

fn copy_texts(p: &Vec<String>) -> (r: Vec<String>)
    ensures
        texts_view(r@) == texts_view(p@),
{
    let mut out: Vec<String> = Vec::new();
    let mut i: usize = 0;
    while i < p.len()
        invariant
            i <= p.len(),
            out@.len() == i,
            forall|j: int| 0 <= j < i ==> #[trigger] out@[j]@ == p@[j]@,
        decreases p.len() - i,
    {
        out.push(p[i].clone());
        i = i + 1;
    }
    proof {
        assert(texts_view(out@) =~= texts_view(p@));
    }
    out
}

impl ModelEntry {
    /// A deep copy of the entry.
    pub fn copy(&self) -> (r: ModelEntry)
        ensures
            r@ == self@,
    {
        ModelEntry {
            openai_id: self.openai_id.clone(),
            backend_id: self.backend_id.clone(),
            description: self.description.clone(),
            max_tokens_cap: self.max_tokens_cap,
            default_params: self.default_params.copy(),
            injected_params: self.injected_params.copy(),
            strip_params: copy_texts(&self.strip_params),
            supports_streaming: self.supports_streaming,
            supports_tools: self.supports_tools,
            status_poll_path: match &self.status_poll_path {
                Some(p) => Some(p.clone()),
                None => None,
            },
        }
    }
}

} // verus!

verus! {

/// The registry as it is read from and written to the registry file.
#[derive(Debug)]
pub struct ModelRegistryFile {
    pub models: Vec<ModelEntry>,
}

pub open spec fn entries_model(v: Seq<ModelEntry>) -> Seq<EntryModel> {
    Seq::new(v.len(), |i: int| v[i]@)
}

impl View for ModelRegistryFile {
    type V = Seq<EntryModel>;

    open spec fn view(&self) -> Seq<EntryModel> {
        entries_model(self.models@)
    }
}

/// Entries in strictly increasing order of `openai_id`; so no id occurs twice.
pub open spec fn sorted_by_id(s: Seq<EntryModel>) -> bool {
    forall|i: int, j: int| 0 <= i < j < s.len() ==> text_lt(s[i].openai_id, s[j].openai_id)
}

/// Number of leading entries whose id comes before `id`: in a sorted
/// sequence, the place where an entry with that id belongs.
pub open spec fn lower_bound(s: Seq<EntryModel>, id: Seq<char>) -> int
    decreases s.len(),
{
    if s.len() == 0 {
        0
    } else if text_lt(s[0].openai_id, id) {
        1 + lower_bound(s.drop_first(), id)
    } else {
        0
    }
}

/// The registry that the entries build when inserted one by one into a map
/// keyed by `openai_id`, listed in key order; `Err(i)` names the first
/// entry whose id was already taken.
pub open spec fn build_registry(es: Seq<EntryModel>) -> Result<Seq<EntryModel>, int>
    decreases es.len(),
{
    if es.len() == 0 {
        Ok(Seq::empty())
    } else {
        match build_registry(es.drop_last()) {
            Err(i) => Err(i),
            Ok(s) => {
                let e = es.last();
                let p = lower_bound(s, e.openai_id);
                if p < s.len() && s[p].openai_id == e.openai_id {
                    Err(es.len() - 1)
                } else {
                    Ok(s.insert(p, e))
                }
            },
        }
    }
}

/// The entry with the given id, searching from the front.
pub open spec fn find_id(s: Seq<EntryModel>, id: Seq<char>) -> Option<EntryModel>
    decreases s.len(),
{
    if s.len() == 0 {
        None
    } else if s[0].openai_id == id {
        Some(s[0])
    } else {
        find_id(s.drop_first(), id)
    }
}

pub proof fn lemma_lower_bound(s: Seq<EntryModel>, id: Seq<char>)
    requires
        sorted_by_id(s),
    ensures
        0 <= lower_bound(s, id) <= s.len(),
        forall|i: int| 0 <= i < lower_bound(s, id) ==> text_lt(#[trigger] s[i].openai_id, id),
        forall|i: int| lower_bound(s, id) <= i < s.len() ==> !text_lt(#[trigger] s[i].openai_id, id),
    decreases s.len(),
{
    if s.len() > 0 {
        let t = s.drop_first();
        assert(sorted_by_id(t)) by {
            assert forall|i: int, j: int| 0 <= i < j < t.len() implies text_lt(
                t[i].openai_id,
                t[j].openai_id,
            ) by {
                assert(t[i] == s[i + 1] && t[j] == s[j + 1]);
            }
        }
        lemma_lower_bound(t, id);
        if text_lt(s[0].openai_id, id) {
            assert forall|i: int| 0 <= i < lower_bound(s, id) implies text_lt(
                #[trigger] s[i].openai_id,
                id,
            ) by {
                if i > 0 {
                    assert(s[i] == t[i - 1]);
                }
            }
            assert forall|i: int| lower_bound(s, id) <= i < s.len() implies !text_lt(
                #[trigger] s[i].openai_id,
                id,
            ) by {
                assert(s[i] == t[i - 1]);
            }
        } else {
            assert forall|i: int| 0 <= i < s.len() implies !text_lt(
                #[trigger] s[i].openai_id,
                id,
            ) by {
                if i > 0 && text_lt(s[i].openai_id, id) {
                    lemma_text_lt_transitive(s[0].openai_id, s[i].openai_id, id);
                }
            }
        }
    }
}

/// Inserting an entry with a new id at its place keeps a sequence sorted.
pub proof fn lemma_insert_sorted(s: Seq<EntryModel>, e: EntryModel)
    requires
        sorted_by_id(s),
        lower_bound(s, e.openai_id) == s.len() || s[lower_bound(s, e.openai_id)].openai_id
            != e.openai_id,
    ensures
        sorted_by_id(s.insert(lower_bound(s, e.openai_id), e)),
{
    let p = lower_bound(s, e.openai_id);
    lemma_lower_bound(s, e.openai_id);
    let r = s.insert(p, e);
    if p < s.len() {
        lemma_text_lt_total(s[p].openai_id, e.openai_id);
    }
    assert forall|i: int, j: int| 0 <= i < j < r.len() implies text_lt(
        r[i].openai_id,
        r[j].openai_id,
    ) by {
        if j < p {
            assert(r[i] == s[i] && r[j] == s[j]);
        } else if j == p {
            assert(r[i] == s[i]);
        } else if i == p {
            assert(r[j] == s[j - 1]);
            if j - 1 > p {
                lemma_text_lt_transitive(e.openai_id, s[p].openai_id, s[j - 1].openai_id);
            }
        } else if i < p {
            assert(r[i] == s[i] && r[j] == s[j - 1]);
        } else {
            assert(r[i] == s[i - 1] && r[j] == s[j - 1]);
        }
    }
}

/// Law: what the registry is built from the entries lists them in
/// strictly increasing order of id.
pub proof fn law_registry_sorted(es: Seq<EntryModel>)
    ensures
        build_registry(es) matches Ok(s) ==> sorted_by_id(s),
    decreases es.len(),
{
    if es.len() > 0 {
        law_registry_sorted(es.drop_last());
        if let Ok(s) = build_registry(es.drop_last()) {
            let e = es.last();
            let p = lower_bound(s, e.openai_id);
            lemma_lower_bound(s, e.openai_id);
            if !(p < s.len() && s[p].openai_id == e.openai_id) {
                lemma_insert_sorted(s, e);
            }
        }
    }
}

} // verus!

verus! {

/// Why a registry file was refused.
#[derive(Debug)]
pub enum RegistryError {
    /// Two entries share this `openai_id`.
    DuplicateId(String),
}

impl RegistryError {
    /// The text the error is reported with.
    pub fn message(&self) -> (r: String)
        ensures
            match self {
                RegistryError::DuplicateId(id) => r@ == "Duplicate openai_id in registry: "@ + id@,
            },
    {
        match self {
            RegistryError::DuplicateId(id) => {
                let mut m = "Duplicate openai_id in registry: ".to_string();
                m.append(id.as_str());
                m
            },
        }
    }
}

/// The registry in memory: entries kept in increasing order of
/// `openai_id`, each id once.
#[derive(Debug)]
pub struct ModelRegistry {
    models: Vec<ModelEntry>,
}

impl ModelRegistry {
    #[verifier::type_invariant]
    closed spec fn ordered(self) -> bool {
        sorted_by_id(entries_model(self.models@))
    }
}

impl View for ModelRegistry {
    type V = Seq<EntryModel>;

    closed spec fn view(&self) -> Seq<EntryModel> {
        entries_model(self.models@)
    }
}

impl Default for ModelRegistry {
    fn default() -> (r: ModelRegistry)
        ensures
            r@ == Seq::<EntryModel>::empty(),
    {
        let r = ModelRegistry { models: Vec::new() };
        proof {
            assert(r@ =~= Seq::<EntryModel>::empty());
        }
        r
    }
}

proof fn lemma_build_err_extends(es: Seq<EntryModel>, n: int)
    requires
        0 < n <= es.len(),
        build_registry(es.take(n)) is Err,
    ensures
        build_registry(es) == build_registry(es.take(n)),
    decreases es.len() - n,
{
    if n == es.len() {
        assert(es.take(n) =~= es);
    } else {
        let dl = es.drop_last();
        assert(dl.take(n) =~= es.take(n));
        lemma_build_err_extends(dl, n);
    }
}

impl ModelRegistry {
    /// Builds the registry from the file's entries, refusing the file when
    /// two entries share an `openai_id` (the first entry whose id was
    /// already taken is named).
    pub fn from_file(file: &ModelRegistryFile) -> (r: Result<ModelRegistry, RegistryError>)
        ensures
            match r {
                Ok(reg) => build_registry(file@) == Ok::<Seq<EntryModel>, int>(reg@),
                Err(RegistryError::DuplicateId(id)) => build_registry(file@) matches Err(i) && 0
                    <= i < file@.len() && id@ == file@[i].openai_id,
            },
    {
        let mut models: Vec<ModelEntry> = Vec::new();
        let mut i: usize = 0;
        proof {
            assert(file@.take(0) =~= Seq::<EntryModel>::empty());
            assert(entries_model(models@) =~= Seq::<EntryModel>::empty());
        }
        while i < file.models.len()
            invariant
                i <= file.models@.len(),
                build_registry(file@.take(i as int)) == Ok::<Seq<EntryModel>, int>(
                    entries_model(models@),
                ),
                sorted_by_id(entries_model(models@)),
            decreases file.models.len() - i,
        {
            let e = &file.models[i];
            let ghost s = entries_model(models@);
            let mut p: usize = 0;
            loop
                invariant
                    p <= models@.len(),
                    s == entries_model(models@),
                    forall|j: int| 0 <= j < p ==> text_lt(#[trigger] s[j].openai_id, e@.openai_id),
                ensures
                    p <= models@.len(),
                    forall|j: int| 0 <= j < p ==> text_lt(#[trigger] s[j].openai_id, e@.openai_id),
                    p == models@.len() || !text_lt(s[p as int].openai_id, e@.openai_id),
                decreases models.len() - p,
            {
                if p == models.len() {
                    break;
                }
                if !text_less(models[p].openai_id.as_str(), e.openai_id.as_str()) {
                    break;
                }
                p = p + 1;
            }
            proof {
                lemma_lower_bound(s, e@.openai_id);
                assert(file@.take(i + 1).drop_last() =~= file@.take(i as int));
                assert(file@.take(i + 1).last() == e@);
                if p < models@.len() {
                    assert(s[p as int] == models@[p as int]@);
                }
                assert(lower_bound(s, e@.openai_id) == p);
            }
            if p < models.len() && text_eq(models[p].openai_id.as_str(), e.openai_id.as_str()) {
                proof {
                    assert(build_registry(file@.take(i + 1)) == Err::<Seq<EntryModel>, int>(
                        i as int,
                    ));
                    lemma_build_err_extends(file@, i + 1);
                }
                return Err(RegistryError::DuplicateId(e.openai_id.clone()));
            }
            let c = e.copy();
            models.insert(p, c);
            proof {
                lemma_insert_sorted(s, e@);
                assert(entries_model(models@) =~= s.insert(p as int, e@));
            }
            i = i + 1;
        }
        proof {
            assert(file@.take(i as int) =~= file@);
        }
        Ok(ModelRegistry { models })
    }

    /// The entries as a registry file, in increasing order of `openai_id`.
    pub fn to_file(&self) -> (r: ModelRegistryFile)
        ensures
            r@ == self@,
            sorted_by_id(r@),
    {
        proof {
            use_type_invariant(self);
        }
        let mut out: Vec<ModelEntry> = Vec::new();
        let mut i: usize = 0;
        while i < self.models.len()
            invariant
                i <= self.models@.len(),
                out@.len() == i,
                forall|j: int| 0 <= j < i ==> #[trigger] out@[j]@ == self.models@[j]@,
            decreases self.models.len() - i,
        {
            out.push(self.models[i].copy());
            i = i + 1;
        }
        let r = ModelRegistryFile { models: out };
        proof {
            assert(r@ =~= self@);
        }
        r
    }

    /// The entry a client name refers to.
    pub fn get(&self, openai_id: &str) -> (r: Option<&ModelEntry>)
        ensures
            match r {
                Some(e) => find_id(self@, openai_id@) == Some(e@),
                None => find_id(self@, openai_id@) is None,
            },
    {
        let mut i: usize = 0;
        proof {
            assert(self@.skip(0) =~= self@);
        }
        while i < self.models.len()
            invariant
                i <= self.models@.len(),
                find_id(self@, openai_id@) == find_id(self@.skip(i as int), openai_id@),
            decreases self.models.len() - i,
        {
            let m = &self.models[i];
            proof {
                assert(self@.skip(i as int)[0] == m@);
                assert(self@.skip(i as int).drop_first() =~= self@.skip(i + 1));
            }
            if text_eq(m.openai_id.as_str(), openai_id) {
                return Some(m);
            }
            i = i + 1;
        }
        None
    }

    /// All entries, in increasing order of `openai_id`.
    pub fn list(&self) -> (r: Vec<&ModelEntry>)
        ensures
            r@.len() == self@.len(),
            forall|i: int| 0 <= i < r@.len() ==> (#[trigger] r@[i])@ == self@[i],
            sorted_by_id(self@),
    {
        proof {
            use_type_invariant(self);
        }
        let mut out: Vec<&ModelEntry> = Vec::new();
        let mut i: usize = 0;
        while i < self.models.len()
            invariant
                i <= self.models@.len(),
                out@.len() == i,
                forall|j: int| 0 <= j < i ==> (#[trigger] out@[j])@ == self.models@[j]@,
            decreases self.models.len() - i,
        {
            out.push(&self.models[i]);
            i = i + 1;
        }
        out
    }
}

} // verus!

verus! {

/// No two entries share an `openai_id`.
pub open spec fn ids_distinct(es: Seq<EntryModel>) -> bool {
    forall|i: int, j: int| 0 <= i < j < es.len() ==> es[i].openai_id != es[j].openai_id
}

proof fn lemma_sorted_prefix(s: Seq<EntryModel>)
    requires
        s.len() > 0,
        sorted_by_id(s),
    ensures
        sorted_by_id(s.drop_last()),
{
    let dl = s.drop_last();
    assert forall|i: int, j: int| 0 <= i < j < dl.len() implies text_lt(
        dl[i].openai_id,
        dl[j].openai_id,
    ) by {
        assert(dl[i] == s[i] && dl[j] == s[j]);
    }
}

/// In a sorted sequence, an id is present exactly when the entry at its
/// place carries it.
proof fn lemma_lower_bound_member(s: Seq<EntryModel>, id: Seq<char>)
    requires
        sorted_by_id(s),
    ensures
        (exists|i: int| 0 <= i < s.len() && #[trigger] s[i].openai_id == id) <==> (lower_bound(
            s,
            id,
        ) < s.len() && s[lower_bound(s, id)].openai_id == id),
{
    lemma_lower_bound(s, id);
    let p = lower_bound(s, id);
    if exists|i: int| 0 <= i < s.len() && #[trigger] s[i].openai_id == id {
        let i = choose|i: int| 0 <= i < s.len() && #[trigger] s[i].openai_id == id;
        if i < p {
            lemma_text_lt_irreflexive(id);
        } else if i > p {
            assert(text_lt(s[p].openai_id, s[i].openai_id));
        }
    }
}

/// Law: a registry written out in order and read back is the same
/// registry: building from entries already in strictly increasing id
/// order gives those entries back unchanged.
pub proof fn law_registry_roundtrip(s: Seq<EntryModel>)
    requires
        sorted_by_id(s),
    ensures
        build_registry(s) == Ok::<Seq<EntryModel>, int>(s),
    decreases s.len(),
{
    if s.len() > 0 {
        let dl = s.drop_last();
        lemma_sorted_prefix(s);
        law_registry_roundtrip(dl);
        let e = s.last();
        lemma_lower_bound(dl, e.openai_id);
        let p = lower_bound(dl, e.openai_id);
        if p < dl.len() {
            assert(dl[p] == s[p]);
            assert(text_lt(s[p].openai_id, s[s.len() - 1].openai_id));
        }
        assert(p == dl.len());
        assert(dl.insert(dl.len() as int, e) =~= s);
    } else {
        assert(s =~= Seq::<EntryModel>::empty());
    }
}

/// Law: building keeps exactly the entries it was given (on success, each
/// given entry is listed and each listed entry was given).
pub proof fn law_registry_contents(es: Seq<EntryModel>)
    ensures
        build_registry(es) matches Ok(s) ==> forall|x: EntryModel|
            s.contains(x) <==> es.contains(x),
    decreases es.len(),
{
    if es.len() > 0 {
        let dl = es.drop_last();
        law_registry_contents(dl);
        if let Ok(s0) = build_registry(dl) {
            let e = es.last();
            let p = lower_bound(s0, e.openai_id);
            law_registry_sorted(dl);
            lemma_lower_bound(s0, e.openai_id);
            if !(p < s0.len() && s0[p].openai_id == e.openai_id) {
                let s = s0.insert(p, e);
                assert forall|x: EntryModel| s.contains(x) <==> es.contains(x) by {
                    if s.contains(x) {
                        let k = choose|k: int| 0 <= k < s.len() && s[k] == x;
                        if k < p {
                            assert(s0[k] == x);
                            assert(s0.contains(x));
                            let m = choose|m: int| 0 <= m < dl.len() && dl[m] == x;
                            assert(es[m] == x);
                        } else if k == p {
                            assert(es[es.len() - 1] == x);
                        } else {
                            assert(s0[k - 1] == x);
                            assert(s0.contains(x));
                            let m = choose|m: int| 0 <= m < dl.len() && dl[m] == x;
                            assert(es[m] == x);
                        }
                    }
                    if es.contains(x) {
                        let k = choose|k: int| 0 <= k < es.len() && es[k] == x;
                        if k == es.len() - 1 {
                            assert(s[p] == x);
                        } else {
                            assert(dl[k] == x);
                            assert(dl.contains(x));
                            let m = choose|m: int| 0 <= m < s0.len() && s0[m] == x;
                            if m < p {
                                assert(s[m] == x);
                            } else {
                                assert(s[m + 1] == x);
                            }
                        }
                    }
                }
            }
        }
    }
}

/// Law: the registry file is refused exactly when two entries share an
/// `openai_id`, and the entry named is the first one whose id was already
/// taken by an earlier entry.
pub proof fn law_registry_refuses_duplicates(es: Seq<EntryModel>)
    ensures
        build_registry(es) is Ok <==> ids_distinct(es),
        build_registry(es) matches Err(i) ==> {
            &&& 0 <= i < es.len()
            &&& ids_distinct(es.take(i))
            &&& exists|j: int| 0 <= j < i && es[j].openai_id == es[i].openai_id
        },
    decreases es.len(),
{
    if es.len() > 0 {
        let dl = es.drop_last();
        let e = es.last();
        law_registry_refuses_duplicates(dl);
        law_registry_contents(dl);
        match build_registry(dl) {
            Err(i) => {
                assert(dl.take(i) =~= es.take(i));
                assert(dl[i] == es[i]);
                let j = choose|j: int| 0 <= j < i && dl[j].openai_id == dl[i].openai_id;
                assert(es[j] == dl[j]);
                assert(!ids_distinct(es));
            },
            Ok(s0) => {
                law_registry_sorted(dl);
                lemma_lower_bound_member(s0, e.openai_id);
                let in_s0 = exists|i: int| 0 <= i < s0.len() && #[trigger] s0[i].openai_id == e.openai_id;
                let in_dl = exists|j: int| 0 <= j < dl.len() && #[trigger] dl[j].openai_id == e.openai_id;
                if in_s0 {
                    let i = choose|i: int| 0 <= i < s0.len() && #[trigger] s0[i].openai_id == e.openai_id;
                    assert(s0.contains(s0[i]));
                    let j = choose|j: int| 0 <= j < dl.len() && dl[j] == s0[i];
                    assert(dl[j].openai_id == e.openai_id);
                    assert(es[j] == dl[j]);
                    assert(es.take(es.len() - 1) =~= dl);
                }
                if in_dl {
                    let j = choose|j: int| 0 <= j < dl.len() && #[trigger] dl[j].openai_id == e.openai_id;
                    assert(dl.contains(dl[j]));
                    let i = choose|i: int| 0 <= i < s0.len() && s0[i] == dl[j];
                    assert(s0[i].openai_id == e.openai_id);
                }
                assert(in_s0 == in_dl);
                if ids_distinct(es) {
                    if in_dl {
                        let j = choose|j: int| 0 <= j < dl.len() && #[trigger] dl[j].openai_id == e.openai_id;
                        assert(es[j] == dl[j]);
                    }
                } else {
                    let (a, b) = choose|a: int, b: int| 0 <= a < b < es.len() && es[a].openai_id == es[b].openai_id;
                    if b < es.len() - 1 {
                        assert(dl[a] == es[a] && dl[b] == es[b]);
                    } else {
                        assert(dl[a] == es[a]);
                    }
                }
                assert(es.take(es.len() - 1) =~= dl);
            },
        }
    }
}

/// Law: looking an id up in a registry finds the entry listed with that id,
/// and finds nothing only when no listed entry has it.
pub proof fn law_find_id(s: Seq<EntryModel>, id: Seq<char>)
    ensures
        match find_id(s, id) {
            Some(e) => s.contains(e) && e.openai_id == id,
            None => forall|i: int| 0 <= i < s.len() ==> s[i].openai_id != id,
        },
    decreases s.len(),
{
    if s.len() > 0 {
        let t = s.drop_first();
        law_find_id(t, id);
        if s[0].openai_id != id {
            if let Some(e) = find_id(t, id) {
                let k = choose|k: int| 0 <= k < t.len() && t[k] == e;
                assert(s[k + 1] == e);
            } else {
                assert forall|i: int| 0 <= i < s.len() implies s[i].openai_id != id by {
                    if i > 0 {
                        assert(s[i] == t[i - 1]);
                    }
                }
            }
        } else {
            assert(s[0] == s[0]);
        }
    }
}

} // verus!

verus! {

/// The registry shipped with the program, as the registry file holds it.
pub const DEFAULT_MODELS_TOML: &'static str = "[[models]]
openai_id = \"glm-5.1\"
backend_id = \"z-ai/glm-5.1\"
description = \"Zhipu GLM\"
supports_streaming = true
supports_tools = true

[[models]]
openai_id = \"kimi-k2.6\"
backend_id = \"moonshotai/kimi-k2.6\"
description = \"Kimi K2.6 base model\"
max_tokens_cap = 65536
supports_streaming = true
supports_tools = true

[[models]]
openai_id = \"kimi-k2.6-thinking\"
backend_id = \"moonshotai/kimi-k2.6\"
description = \"Kimi K2.6 with reasoning\"
max_tokens_cap = 65536
supports_streaming = true
supports_tools = true

[models.injected_params]
\"chat_template_kwargs.thinking\" = true

[[models]]
openai_id = \"minimax-m3\"
backend_id = \"minimaxai/minimax-m3\"
description = \"MiniMax M3\"
strip_params = [\"stop\"]
supports_streaming = true
supports_tools = true

[[models]]
openai_id = \"minimax-m3-thinking\"
backend_id = \"minimaxai/minimax-m3\"
description = \"MiniMax M3 with reasoning\"
strip_params = [\"stop\"]
supports_streaming = true
supports_tools = true

[models.injected_params]
\"chat_template_kwargs.thinking_mode\" = \"enabled\"
";

/// The default registry, as the text of a registry file.
pub fn default_models_toml() -> (r: String)
    ensures
        r@ == DEFAULT_MODELS_TOML@,
{
    DEFAULT_MODELS_TOML.to_string()
}

} // verus!
