//! Rewriting the server-sent-event stream of a chat completion:
//! `reasoning_content` is copied to `content` where a delta has reasoning
//! but no content, and comment lines that carry JSON are dropped.

use vstd::prelude::*;
use crate::json::{
    copy_entries, entries_view, items_view, json_parse, json_render, json_view, obj_get,
    obj_insert, obj_remove, parse_json, render_json, Json, JsonValue,
};
use crate::text::{chars_of, string_from_chars};

verus! {

/// Whether a blank line (`\n\n`) starts at position `j`.
pub open spec fn blank_at(s: Seq<u8>, j: int) -> bool {
    0 <= j && j + 1 < s.len() && s[j] == 10 && s[j + 1] == 10
}

/// The position of the first blank line (`\n\n`) in a buffer: where an
/// event ends.
pub fn find_sse_event_end(buf: &[u8]) -> (r: Option<usize>)
    ensures
        match r {
            Some(i) => blank_at(buf@, i as int) && forall|j: int| 0 <= j < i ==> !#[trigger] blank_at(buf@, j),
            None => forall|j: int| !#[trigger] blank_at(buf@, j),
        },
{
    let mut i: usize = 0;
    while i < buf.len() && i + 1 < buf.len()
        invariant
            i <= buf@.len(),
            forall|j: int| 0 <= j < i ==> !#[trigger] blank_at(buf@, j),
        decreases buf.len() - i,
    {
        if buf[i] == 10 && buf[i + 1] == 10 {
            return Some(i);
        }
        i = i + 1;
    }
    proof {
        assert forall|j: int| !#[trigger] blank_at(buf@, j) by {
            if 0 <= j < i {
            }
        }
    }
    None
}

/// Whether the key is present with a value other than null.
pub open spec fn present(d: Map<Seq<char>, Json>, k: Seq<char>) -> bool {
    d.contains_key(k) && !(d[k] is Null)
}

/// The choice with `reasoning_content` copied to `content`, when its delta
/// has reasoning and no content; `None` when the choice is left alone.
pub open spec fn choice_mapped(c: Json) -> Option<Json> {
    match c {
        Json::Obj(cm) => if cm.contains_key("delta"@) && cm["delta"@] is Obj {
            let d = cm["delta"@]->Obj_0;
            if present(d, "reasoning_content"@) && !present(d, "content"@) {
                Some(
                    Json::Obj(
                        cm.insert(
                            "delta"@,
                            Json::Obj(d.insert("content"@, d["reasoning_content"@])),
                        ),
                    ),
                )
            } else {
                None
            }
        } else {
            None
        },
        _ => None,
    }
}

pub open spec fn map_choices(cs: Seq<Json>) -> Seq<Json> {
    Seq::new(
        cs.len(),
        |i: int|
            match choice_mapped(cs[i]) {
                Some(n) => n,
                None => cs[i],
            },
    )
}

pub open spec fn any_choice_mapped(cs: Seq<Json>) -> bool {
    exists|i: int| 0 <= i < cs.len() && #[trigger] choice_mapped(cs[i]) is Some
}

/// The payload with every choice rewritten, when it is an object with a
/// `choices` array and some choice needs rewriting; `None` otherwise.
pub open spec fn rewrite_choices(v: Json) -> Option<Json> {
    match v {
        Json::Obj(m) => if m.contains_key("choices"@) && m["choices"@] is Arr && any_choice_mapped(
            m["choices"@]->Arr_0,
        ) {
            Some(Json::Obj(m.insert("choices"@, Json::Arr(map_choices(m["choices"@]->Arr_0)))))
        } else {
            None
        },
        _ => None,
    }
}

/// The JSON text of a `data:` line after rewriting, and whether a choice was
/// rewritten. Text that is not a JSON object with a `choices` array, or
/// where no choice needs rewriting, is kept as it is.
pub open spec fn data_transform(s: Seq<char>) -> (Seq<char>, bool) {
    match json_parse(s) {
        Some(v) => match rewrite_choices(v) {
            Some(out) => (
                match json_render(out) {
                    Some(t) => t,
                    None => s,
                },
                true,
            ),
            None => (s, false),
        },
        None => (s, false),
    }
}

pub proof fn lemma_items_view(s: Seq<JsonValue>)
    ensures
        items_view(s).len() == s.len(),
        forall|i: int| 0 <= i < s.len() ==> #[trigger] items_view(s)[i] == json_view(s[i]),
    decreases s.len(),
{
    if s.len() > 0 {
        lemma_items_view(s.drop_last());
        assert forall|i: int| 0 <= i < s.len() implies #[trigger] items_view(s)[i] == json_view(
            s[i],
        ) by {
            if i < s.len() - 1 {
                assert(s.drop_last()[i] == s[i]);
            }
        }
    }
}

fn map_choice(c: &JsonValue) -> (r: Option<JsonValue>)
    ensures
        match choice_mapped(c@) {
            Some(n) => r matches Some(v) && v@ == n,
            None => r is None,
        },
{
    let cm = match c {
        JsonValue::Object(cm) => cm,
        _ => {
            return None;
        },
    };
    let delta_key = "delta".to_string();
    let d = match obj_get(cm, &delta_key) {
        Some(JsonValue::Object(d)) => d,
        _ => {
            return None;
        },
    };
    let rkey = "reasoning_content".to_string();
    let ckey = "content".to_string();
    let reasoning = match obj_get(d, &rkey) {
        Some(v) => match v {
            JsonValue::Null => {
                return None;
            },
            _ => v,
        },
        None => {
            return None;
        },
    };
    match obj_get(d, &ckey) {
        Some(JsonValue::Null) => {},
        Some(_) => {
            return None;
        },
        None => {},
    }
    let mut nd = copy_entries(d);
    obj_insert(&mut nd, ckey, reasoning.copy());
    let mut nc = copy_entries(cm);
    obj_insert(&mut nc, delta_key, JsonValue::Object(nd));
    Some(JsonValue::Object(nc))
}

/// Copies `reasoning_content` to `content` in every choice whose delta has
/// reasoning but no content; `None` when the payload has nothing to rewrite.
pub fn map_reasoning_to_content(payload: JsonValue) -> (r: Option<JsonValue>)
    ensures
        match rewrite_choices(payload@) {
            Some(j) => r matches Some(v) && v@ == j,
            None => r is None,
        },
{
    let mut entries = match payload {
        JsonValue::Object(es) => es,
        _ => {
            return None;
        },
    };
    let ghost m = entries_view(entries@);
    let key = "choices".to_string();
    let mut items = match obj_remove(&mut entries, &key) {
        Some(JsonValue::Array(items)) => items,
        _ => {
            return None;
        },
    };
    let ghost orig = items@;
    proof {
        lemma_items_view(orig);
    }
    let mut changed = false;
    let mut i: usize = 0;
    while i < items.len()
        invariant
            i <= items@.len(),
            items@.len() == orig.len(),
            forall|j: int| 0 <= j < i ==> #[trigger] json_view(items@[j]) == map_choices(items_view(orig))[j],
            forall|j: int| i <= j < items@.len() ==> #[trigger] items@[j] == orig[j],
            changed == exists|j: int| 0 <= j < i && #[trigger] choice_mapped(items_view(orig)[j]) is Some,
            items_view(orig).len() == orig.len(),
            forall|j: int| 0 <= j < orig.len() ==> #[trigger] items_view(orig)[j] == json_view(orig[j]),
        decreases items.len() - i,
    {
        let mapped = map_choice(&items[i]);
        match mapped {
            Some(n) => {
                items.set(i, n);
                changed = true;
            },
            None => {},
        }
        i = i + 1;
    }
    if !changed {
        return None;
    }
    proof {
        lemma_items_view(items@);
        assert(items_view(items@) =~= map_choices(items_view(orig)));
    }
    obj_insert(&mut entries, key, JsonValue::Array(items));
    proof {
        assert(entries_view(entries@) =~= m.insert(
            "choices"@,
            Json::Arr(map_choices(items_view(orig))),
        ));
    }
    Some(JsonValue::Object(entries))
}

/// Rewrites the JSON text of a `data:` line; the flag tells whether a
/// choice's reasoning was copied to its content. The text is read and, when
/// rewritten, written back by the JSON layer.
pub fn transform_sse_data_counted(json_str: &str) -> (r: (String, bool))
    ensures
        r.0@ == data_transform(json_str@).0,
        r.1 == data_transform(json_str@).1,
{
    let payload = match parse_json(json_str) {
        Some(v) => v,
        None => {
            return (json_str.to_string(), false);
        },
    };
    match map_reasoning_to_content(payload) {
        Some(out) => match render_json(&out) {
            Some(t) => (t, true),
            None => (json_str.to_string(), true),
        },
        None => (json_str.to_string(), false),
    }
}

/// The rewritten JSON text of a `data:` line.
pub fn transform_sse_data(json_str: &str) -> (r: String)
    ensures
        r@ == data_transform(json_str@).0,
{
    transform_sse_data_counted(json_str).0
}

} // verus!

verus! {

/// A line without its ending: one `\r` before the `\n` is dropped too.
pub open spec fn strip_cr(c: Seq<char>) -> Seq<char> {
    if c.len() > 0 && c.last() == '\r' {
        c.drop_last()
    } else {
        c
    }
}

/// The lines ended so far (without their endings) and the unfinished rest.
pub open spec fn scan_lines(s: Seq<char>) -> (Seq<Seq<char>>, Seq<char>)
    decreases s.len(),
{
    if s.len() == 0 {
        (Seq::empty(), Seq::empty())
    } else {
        let (d, c) = scan_lines(s.drop_last());
        if s.last() == '\n' {
            (d.push(strip_cr(c)), Seq::empty())
        } else {
            (d, c.push(s.last()))
        }
    }
}

/// The lines of a text as `str::lines` yields them: split at `\n` or
/// `\r\n`, the final line ending optional.
pub open spec fn lines_of(s: Seq<char>) -> Seq<Seq<char>> {
    let (d, c) = scan_lines(s);
    if c.len() == 0 {
        d
    } else {
        d.push(c)
    }
}

/// Whether the first character that is not whitespace is `{`.
pub open spec fn brace_after_space(s: Seq<char>) -> bool
    decreases s.len(),
{
    if s.len() == 0 {
        false
    } else if crate::text::white_space(s[0]) {
        brace_after_space(s.drop_first())
    } else {
        s[0] == '{'
    }
}

/// What one line of an event becomes: the text written for it, whether its
/// reasoning was copied to content, and whether it was a JSON comment that
/// was dropped. A `data:` line is written back as `data:` directly followed
/// by its (rewritten) JSON text; the optional space after the colon is not
/// kept.
pub open spec fn line_out(line: Seq<char>) -> (Seq<char>, bool, bool) {
    if crate::text::starts_with(line, "data:"@) {
        let plen: int = if crate::text::starts_with(line, "data: "@) { 6 } else { 5 };
        let (t, mapped) = data_transform(line.skip(plen));
        ("data:"@ + t + seq!['\n'], mapped, false)
    } else if crate::text::starts_with(line, ": "@) || line == ":"@ {
        let content = if line.len() > 2 { line.skip(2) } else { Seq::empty() };
        if brace_after_space(content) {
            (Seq::empty(), false, true)
        } else {
            (line + seq!['\n'], false, false)
        }
    } else {
        (line + seq!['\n'], false, false)
    }
}

/// The text written for a list of lines, with the number of lines whose
/// reasoning was copied and the number of comments dropped.
pub open spec fn process_lines(ls: Seq<Seq<char>>) -> (Seq<char>, nat, nat)
    decreases ls.len(),
{
    if ls.len() == 0 {
        (Seq::empty(), 0, 0)
    } else {
        let (o, m, c) = process_lines(ls.drop_last());
        let (t, mapped, stripped) = line_out(ls.last());
        (o + t, if mapped { m + 1 } else { m }, if stripped { c + 1 } else { c })
    }
}

/// What an event becomes: bytes that are not UTF-8, and events where nothing
/// was rewritten, are passed on unchanged.
pub open spec fn event_transform(bytes: Seq<u8>) -> (Seq<u8>, nat, nat) {
    if !vstd::utf8::valid_utf8(bytes) {
        (bytes, 0, 0)
    } else {
        let (o, m, c) = process_lines(lines_of(vstd::utf8::decode_utf8(bytes)));
        if m > 0 || c > 0 {
            (vstd::utf8::encode_utf8(o), m, c)
        } else {
            (bytes, 0, 0)
        }
    }
}

/// Reads bytes as UTF-8 text (`std::str::from_utf8`): `None` exactly when
/// they are not valid UTF-8.
#[verifier::external_body]
fn utf8_text(b: &[u8]) -> (r: Option<&str>)
    ensures
        r is Some <==> vstd::utf8::valid_utf8(b@),
        r matches Some(s) ==> s@ == vstd::utf8::decode_utf8(b@),
{
    std::str::from_utf8(b).ok()
}

fn brace_after_whitespace(s: &[char]) -> (r: bool)
    ensures
        r == brace_after_space(s@),
{
    let mut i: usize = 0;
    proof {
        assert(s@.skip(0) =~= s@);
    }
    while i < s.len()
        invariant
            i <= s@.len(),
            brace_after_space(s@) == brace_after_space(s@.skip(i as int)),
        decreases s.len() - i,
    {
        proof {
            assert(s@.skip(i as int)[0] == s@[i as int]);
            assert(s@.skip(i as int).drop_first() =~= s@.skip(i + 1));
        }
        if !crate::text::char_is_whitespace(s[i]) {
            return s[i] == '{';
        }
        i = i + 1;
    }
    false
}

fn append_chars(out: &mut Vec<char>, t: &[char])
    ensures
        final(out)@ == old(out)@ + t@,
{
    let mut i: usize = 0;
    while i < t.len()
        invariant
            i <= t@.len(),
            out@ == old(out)@ + t@.take(i as int),
        decreases t.len() - i,
    {
        out.push(t[i]);
        proof {
            assert(t@.take(i + 1) =~= t@.take(i as int).push(t@[i as int]));
        }
        i = i + 1;
    }
    proof {
        assert(t@.take(i as int) =~= t@);
    }
}

/// Writes what one line becomes onto `out`.
fn process_line(line: &Vec<char>, out: &mut Vec<char>) -> (r: (bool, bool))
    ensures
        final(out)@ == old(out)@ + line_out(line@).0,
        r.0 == line_out(line@).1,
        r.1 == line_out(line@).2,
{
    if crate::text::has_prefix(line.as_slice(), "data:") {
        let plen: usize = if crate::text::has_prefix(line.as_slice(), "data: ") { 6 } else { 5 };
        proof {
            reveal_strlit("data:");
            reveal_strlit("data: ");
        }
        let payload = string_from_chars(vstd::slice::slice_subrange(line.as_slice(), plen, line.len()));
        let (t, mapped) = transform_sse_data_counted(payload.as_str());
        let tc = chars_of(t.as_str());
        let prefix = chars_of("data:");
        append_chars(out, prefix.as_slice());
        append_chars(out, tc.as_slice());
        out.push('\n');
        proof {
            assert(line@.subrange(plen as int, line@.len() as int) =~= line@.skip(plen as int));
        }
        return (mapped, false);
    }
    let is_colon = line.len() == 1 && line[0] == ':';
    proof {
        reveal_strlit(":");
        if is_colon {
            assert(line@ =~= ":"@);
        } else if line@ == ":"@ {
            assert(line@.len() == 1 && line@[0] == ':');
        }
    }
    if crate::text::has_prefix(line.as_slice(), ": ") || is_colon {
        let content = if line.len() > 2 {
            vstd::slice::slice_subrange(line.as_slice(), 2, line.len())
        } else {
            vstd::slice::slice_subrange(line.as_slice(), 0, 0)
        };
        proof {
            if line@.len() > 2 {
                assert(content@ =~= line@.skip(2));
            } else {
                assert(content@ =~= Seq::<char>::empty());
            }
        }
        if brace_after_whitespace(content) {
            return (false, true);
        }
    }
    append_chars(out, line.as_slice());
    out.push('\n');
    (false, false)
}

} // verus!

verus! {

/// Rewrites one event: each `data:` line's JSON is rewritten, comment lines
/// (`: ...`) whose text starts with `{` are dropped; counts the lines whose
/// reasoning was copied and the comments dropped. An event that is not
/// UTF-8, or in which nothing was rewritten, is passed on byte for byte.
pub fn transform_sse_event_counted(event: &[u8]) -> (r: (Vec<u8>, u64, u64))
    ensures
        r.0@ == event_transform(event@).0,
        r.1 == event_transform(event@).1,
        r.2 == event_transform(event@).2,
{
    let text = match utf8_text(event) {
        Some(t) => t,
        None => {
            return (vstd::slice::slice_to_vec(event), 0, 0);
        },
    };
    let cs = chars_of(text);
    let mut out: Vec<char> = Vec::new();
    let mut cur: Vec<char> = Vec::new();
    let mut mapped: u64 = 0;
    let mut stripped: u64 = 0;
    let mut i: usize = 0;
    proof {
        assert(cs@.take(0) =~= Seq::<char>::empty());
    }
    while i < cs.len()
        invariant
            i <= cs@.len(),
            scan_lines(cs@.take(i as int)).1 == cur@,
            process_lines(scan_lines(cs@.take(i as int)).0) == (out@, mapped as nat, stripped as nat),
            mapped + cur@.len() <= i,
            stripped + cur@.len() <= i,
        decreases cs.len() - i,
    {
        let c = cs[i];
        let ghost d = scan_lines(cs@.take(i as int)).0;
        proof {
            assert(cs@.take(i + 1).drop_last() =~= cs@.take(i as int));
            assert(cs@.take(i + 1).last() == c);
        }
        if c == '\n' {
            if cur.len() > 0 && cur[cur.len() - 1] == '\r' {
                cur.pop();
            }
            let (m, s) = process_line(&cur, &mut out);
            if m {
                mapped = mapped + 1;
            }
            if s {
                stripped = stripped + 1;
            }
            proof {
                assert(scan_lines(cs@.take(i + 1)).0 == d.push(cur@));
                assert(d.push(cur@).drop_last() =~= d);
            }
            cur = Vec::new();
        } else {
            cur.push(c);
        }
        i = i + 1;
    }
    proof {
        assert(cs@.take(i as int) =~= cs@);
    }
    if cur.len() > 0 {
        let ghost d = scan_lines(cs@).0;
        let (m, s) = process_line(&cur, &mut out);
        if m {
            mapped = mapped + 1;
        }
        if s {
            stripped = stripped + 1;
        }
        proof {
            assert(d.push(cur@).drop_last() =~= d);
        }
    }
    if mapped > 0 || stripped > 0 {
        let s = string_from_chars(out.as_slice());
        let b = vstd::slice::slice_to_vec(s.as_str().as_bytes());
        (b, mapped, stripped)
    } else {
        (vstd::slice::slice_to_vec(event), 0, 0)
    }
}

/// The rewritten bytes of one event.
pub fn transform_sse_event(event: &[u8]) -> (r: Vec<u8>)
    ensures
        r@ == event_transform(event@).0,
{
    transform_sse_event_counted(event).0
}

} // verus!

verus! {

/// Where the first blank line (`\n\n`) of `s` starts.
pub open spec fn first_blank(s: Seq<u8>) -> Option<int>
    decreases s.len(),
{
    if s.len() < 2 {
        None
    } else if s[0] == 10 && s[1] == 10 {
        Some(0)
    } else {
        match first_blank(s.drop_first()) {
            Some(p) => Some(p + 1),
            None => None,
        }
    }
}

/// The complete events of `s`, each running up to and including its first
/// blank line, and the rest, which holds no blank line.
pub open spec fn frame(s: Seq<u8>) -> (Seq<Seq<u8>>, Seq<u8>)
    decreases s.len(),
{
    match first_blank(s) {
        Some(p) => if 0 <= p && p + 2 <= s.len() {
            let (es, r) = frame(s.skip(p + 2));
            (seq![s.take(p + 2)] + es, r)
        } else {
            (Seq::empty(), s)
        },
        None => (Seq::empty(), s),
    }
}

/// The byte sequences one after the other.
pub open spec fn flatten(ss: Seq<Seq<u8>>) -> Seq<u8>
    decreases ss.len(),
{
    if ss.len() == 0 {
        Seq::empty()
    } else {
        ss[0] + flatten(ss.drop_first())
    }
}

/// Each event rewritten.
pub open spec fn transform_events(es: Seq<Seq<u8>>) -> Seq<Seq<u8>> {
    Seq::new(es.len(), |i: int| event_transform(es[i]).0)
}

pub proof fn lemma_first_blank(s: Seq<u8>)
    ensures
        match first_blank(s) {
            Some(p) => blank_at(s, p) && forall|j: int| 0 <= j < p ==> !#[trigger] blank_at(s, j),
            None => forall|j: int| !#[trigger] blank_at(s, j),
        },
    decreases s.len(),
{
    if s.len() >= 2 {
        let t = s.drop_first();
        lemma_first_blank(t);
        assert forall|j: int| 0 <= j implies #[trigger] blank_at(t, j) == blank_at(s, j + 1) by {
            if 0 <= j && j + 1 < t.len() {
                assert(t[j] == s[j + 1] && t[j + 1] == s[j + 2]);
            }
        }
        assert forall|j: int| j != 0 && #[trigger] blank_at(s, j) implies blank_at(t, j - 1) by {
            assert(blank_at(t, j - 1) == blank_at(s, j));
        }
    }
}

proof fn lemma_first_blank_prefix(x: Seq<u8>, y: Seq<u8>)
    requires
        first_blank(x) is Some,
    ensures
        first_blank(x + y) == first_blank(x),
    decreases x.len(),
{
    let xy = x + y;
    assert(xy[0] == x[0] && xy[1] == x[1]);
    if !(x[0] == 10 && x[1] == 10) {
        lemma_first_blank_prefix(x.drop_first(), y);
        assert(xy.drop_first() =~= x.drop_first() + y);
    }
}

/// Framing splits a text into its events and a rest with no blank line,
/// losing and adding nothing.
pub proof fn lemma_frame(s: Seq<u8>)
    ensures
        flatten(frame(s).0) + frame(s).1 == s,
        first_blank(frame(s).1) is None,
        forall|i: int|
            0 <= i < frame(s).0.len() ==> #[trigger] first_blank(frame(s).0[i]) == Some(
                frame(s).0[i].len() - 2,
            ),
    decreases s.len(),
{
    lemma_first_blank(s);
    match first_blank(s) {
        Some(p) => {
            let t = s.skip(p + 2);
            let e = s.take(p + 2);
            lemma_frame(t);
            let es = frame(t).0;
            let all = seq![e] + es;
            assert(all.drop_first() =~= es);
            assert(all[0] == e);
            assert(flatten(all) == e + flatten(es));
            assert(e + t =~= s);
            assert((e + flatten(es)) + frame(t).1 =~= e + (flatten(es) + frame(t).1));
            lemma_first_blank(e);
            assert forall|j: int| #[trigger] blank_at(e, j) == (blank_at(s, j) && j + 1 < p + 2) by {
                if 0 <= j && j + 1 < e.len() {
                    assert(e[j] == s[j] && e[j + 1] == s[j + 1]);
                }
            }
            assert(first_blank(e) == Some(p)) by {
                match first_blank(e) {
                    Some(q) => {
                        assert(blank_at(s, q));
                        if q < p {
                            assert(!blank_at(s, q));
                        }
                        if q > p {
                            assert(!blank_at(e, p));
                        }
                    },
                    None => {
                        assert(blank_at(e, p));
                    },
                }
            }
            assert forall|i: int| 0 <= i < all.len() implies #[trigger] first_blank(all[i]) == Some(
                all[i].len() - 2,
            ) by {
                if i > 0 {
                    assert(all[i] == es[i - 1]);
                }
            }
        },
        None => {
            assert(flatten(Seq::<Seq<u8>>::empty()) + s =~= s);
        },
    }
}

proof fn lemma_flatten_append(a: Seq<Seq<u8>>, b: Seq<Seq<u8>>)
    ensures
        flatten(a + b) == flatten(a) + flatten(b),
    decreases a.len(),
{
    if a.len() == 0 {
        assert(a + b =~= b);
        assert(Seq::<u8>::empty() + flatten(b) =~= flatten(b));
    } else {
        assert((a + b).drop_first() =~= a.drop_first() + b);
        lemma_flatten_append(a.drop_first(), b);
        assert((a + b)[0] == a[0]);
        assert(a[0] + (flatten(a.drop_first()) + flatten(b)) =~= (a[0] + flatten(a.drop_first()))
            + flatten(b));
    }
}

proof fn lemma_transform_events_append(a: Seq<Seq<u8>>, b: Seq<Seq<u8>>)
    ensures
        flatten(transform_events(a + b)) == flatten(transform_events(a)) + flatten(
            transform_events(b),
        ),
{
    assert(transform_events(a + b) =~= transform_events(a) + transform_events(b));
    lemma_flatten_append(transform_events(a), transform_events(b));
}

/// The bytes held plus a chunk: the first complete event, when there is
/// one, and the bytes that stay held.
pub open spec fn cut_first(b: Seq<u8>) -> (Option<Seq<u8>>, Seq<u8>) {
    match first_blank(b) {
        Some(p) => (Some(b.take(p + 2)), b.skip(p + 2)),
        None => (None, b),
    }
}

/// The events cut and the bytes held after chunks arrive one by one: each
/// chunk is appended to what is held, and the first complete event, if
/// any, is cut out; further complete events stay held.
pub open spec fn run_chunks(held: Seq<u8>, chunks: Seq<Seq<u8>>) -> (Seq<Seq<u8>>, Seq<u8>)
    decreases chunks.len(),
{
    if chunks.len() == 0 {
        (Seq::empty(), held)
    } else {
        let c = cut_first(held + chunks[0]);
        let r = run_chunks(c.1, chunks.drop_first());
        (
            match c.0 {
                Some(e) => seq![e] + r.0,
                None => r.0,
            },
            r.1,
        )
    }
}

/// What the end of the stream passes on for the bytes still held: each
/// complete event rewritten, then the bytes after the last blank line as
/// they are.
pub open spec fn flush(held: Seq<u8>) -> Seq<u8> {
    flatten(transform_events(frame(held).0)) + frame(held).1
}

/// What a whole stream becomes: the events cut one per chunk, rewritten,
/// then what the end of the stream passes on.
pub open spec fn stream_output(chunks: Seq<Seq<u8>>) -> Seq<u8> {
    let (es, held) = run_chunks(Seq::empty(), chunks);
    flatten(transform_events(es)) + flush(held)
}

/// Cutting the first event off is where framing starts.
proof fn lemma_cut_first_frame(b: Seq<u8>, y: Seq<u8>)
    ensures
        ({
            let c = cut_first(b);
            &&& b == (match c.0 {
                Some(e) => e,
                None => Seq::<u8>::empty(),
            }) + c.1
            &&& frame(b + y) == (match c.0 {
                Some(e) => (seq![e] + frame(c.1 + y).0, frame(c.1 + y).1),
                None => frame(c.1 + y),
            })
        }),
{
    lemma_first_blank(b);
    match first_blank(b) {
        Some(p) => {
            lemma_first_blank_prefix(b, y);
            let x = b + y;
            assert(x.take(p + 2) =~= b.take(p + 2));
            assert(x.skip(p + 2) =~= b.skip(p + 2) + y);
            assert(b =~= b.take(p + 2) + b.skip(p + 2));
        },
        None => {
            assert(b =~= Seq::<u8>::empty() + b);
        },
    }
}

/// Law: however the stream is cut into chunks, the events cut one per chunk,
/// followed by the complete events still held, are the events of the whole
/// stream, and what stays held after them is its tail.
pub proof fn law_chunking_does_not_matter(held: Seq<u8>, chunks: Seq<Seq<u8>>)
    ensures
        ({
            let (es, h) = run_chunks(held, chunks);
            &&& es + frame(h).0 == frame(held + flatten(chunks)).0
            &&& frame(h).1 == frame(held + flatten(chunks)).1
        }),
    decreases chunks.len(),
{
    if chunks.len() == 0 {
        assert(held + flatten(chunks) =~= held);
        assert(Seq::<Seq<u8>>::empty() + frame(held).0 =~= frame(held).0);
    } else {
        let b = held + chunks[0];
        let rest = chunks.drop_first();
        let c = cut_first(b);
        lemma_cut_first_frame(b, flatten(rest));
        law_chunking_does_not_matter(c.1, rest);
        assert(held + flatten(chunks) =~= b + flatten(rest));
        let r = run_chunks(c.1, rest);
        if let Some(e) = c.0 {
            assert(seq![e] + r.0 + frame(r.1).0 =~= seq![e] + (r.0 + frame(r.1).0));
        }
    }
}

/// Law: every complete event of the stream is rewritten, whether it was cut
/// when a chunk arrived or was still held when the stream ended; only the
/// bytes after the last blank line pass as they are.
pub proof fn law_stream_rewrites_every_event(chunks: Seq<Seq<u8>>)
    ensures
        stream_output(chunks) == flatten(transform_events(frame(flatten(chunks)).0)) + frame(
            flatten(chunks),
        ).1,
{
    law_chunking_does_not_matter(Seq::empty(), chunks);
    assert(Seq::<u8>::empty() + flatten(chunks) =~= flatten(chunks));
    let (es, h) = run_chunks(Seq::empty(), chunks);
    lemma_transform_events_append(es, frame(h).0);
    let a = flatten(transform_events(es));
    let b = flatten(transform_events(frame(h).0));
    assert(a + (b + frame(h).1) =~= (a + b) + frame(h).1);
}

/// Whether a line is neither rewritten nor dropped.
pub open spec fn line_kept(l: Seq<char>) -> bool {
    !line_out(l).1 && !line_out(l).2
}

/// Whether no line of any complete event of the bytes is rewritten: none
/// is a comment carrying JSON, and no `data:` line has a choice to rewrite.
pub open spec fn nothing_to_rewrite(bytes: Seq<u8>) -> bool {
    forall|i: int, j: int|
        0 <= i < frame(bytes).0.len() && vstd::utf8::valid_utf8(frame(bytes).0[i]) && 0 <= j
            < lines_of(vstd::utf8::decode_utf8(frame(bytes).0[i])).len() ==> line_kept(
            #[trigger] lines_of(vstd::utf8::decode_utf8(frame(bytes).0[i]))[j],
        )
}

proof fn lemma_process_lines_no_counts(ls: Seq<Seq<char>>)
    requires
        forall|j: int| 0 <= j < ls.len() ==> !line_out(#[trigger] ls[j]).1 && !line_out(ls[j]).2,
    ensures
        process_lines(ls).1 == 0 && process_lines(ls).2 == 0,
    decreases ls.len(),
{
    if ls.len() > 0 {
        let dl = ls.drop_last();
        assert forall|j: int| 0 <= j < dl.len() implies !line_out(#[trigger] dl[j]).1 && !line_out(
            dl[j],
        ).2 by {
            assert(dl[j] == ls[j]);
        }
        lemma_process_lines_no_counts(dl);
        assert(ls.last() == ls[ls.len() - 1]);
    }
}

/// Law: a stream in which no line of a complete event is rewritten (no
/// comment carrying JSON, no `data:` line with a choice to rewrite) passes
/// byte for byte.
pub proof fn law_stream_byte_transparent(chunks: Seq<Seq<u8>>)
    requires
        nothing_to_rewrite(flatten(chunks)),
    ensures
        stream_output(chunks) == flatten(chunks),
{
    law_stream_rewrites_every_event(chunks);
    let es = frame(flatten(chunks)).0;
    lemma_frame(flatten(chunks));
    assert forall|i: int| 0 <= i < es.len() implies #[trigger] transform_events(es)[i] == es[i] by {
        if vstd::utf8::valid_utf8(es[i]) {
            let ls = lines_of(vstd::utf8::decode_utf8(es[i]));
            assert forall|j: int| 0 <= j < ls.len() implies !line_out(#[trigger] ls[j]).1
                && !line_out(ls[j]).2 by {
                assert(ls[j] == lines_of(vstd::utf8::decode_utf8(frame(flatten(chunks)).0[i]))[j]);
            }
            lemma_process_lines_no_counts(ls);
        }
    }
    assert(transform_events(es) =~= es);
}

proof fn lemma_scan_lines_append(a: Seq<char>, b: Seq<char>)
    requires
        scan_lines(a).1.len() == 0,
    ensures
        scan_lines(a + b) == (scan_lines(a).0 + scan_lines(b).0, scan_lines(b).1),
    decreases b.len(),
{
    if b.len() == 0 {
        assert(a + b =~= a);
        assert(scan_lines(a).0 + Seq::<Seq<char>>::empty() =~= scan_lines(a).0);
    } else {
        assert((a + b).drop_last() =~= a + b.drop_last());
        assert((a + b).last() == b.last());
        lemma_scan_lines_append(a, b.drop_last());
        let (d, c) = scan_lines(b.drop_last());
        if b.last() == '\n' {
            assert((scan_lines(a).0 + d).push(strip_cr(c)) =~= scan_lines(a).0 + d.push(strip_cr(c)));
        }
    }
}

/// The lines of a text that ends a line are followed by those of what
/// comes after it.
proof fn lemma_lines_of_append(a: Seq<char>, b: Seq<char>)
    requires
        a.len() > 0,
        a.last() == '\n',
    ensures
        lines_of(a + b) == lines_of(a) + lines_of(b),
{
    assert(a.drop_last() + seq!['\n'] =~= a);
    lemma_scan_lines_append(a, b);
    let (d, c) = scan_lines(b);
    if c.len() != 0 {
        assert((scan_lines(a).0 + d).push(c) =~= scan_lines(a).0 + d.push(c));
    }
}

proof fn lemma_boundary_after_ascii(s: Seq<u8>, i: int)
    requires
        vstd::utf8::valid_utf8(s),
        vstd::utf8::is_char_boundary(s, i),
        0 <= i < s.len(),
        s[i] <= 0x7f,
    ensures
        vstd::utf8::is_char_boundary(s, i + 1),
    decreases s.len(),
{
    reveal_with_fuel(vstd::utf8::is_char_boundary, 2);
    reveal_with_fuel(vstd::utf8::valid_utf8, 2);
    let t = vstd::utf8::pop_first_scalar(s);
    let len = vstd::utf8::length_of_first_scalar(s);
    if i > 0 {
        assert(t[i - len] == s[i]);
        lemma_boundary_after_ascii(t, i - len);
    }
}

/// Valid UTF-8 that ends with a line feed decodes to text that ends with one.
proof fn lemma_decode_ends_newline(e: Seq<u8>)
    requires
        vstd::utf8::valid_utf8(e),
        e.len() > 0,
        e.last() == 10,
    ensures
        vstd::utf8::decode_utf8(e).len() > 0,
        vstd::utf8::decode_utf8(e).last() == '\n',
{
    let n = e.len() - 1;
    vstd::utf8::is_char_boundary_iff_not_is_continuation_byte(e, n);
    vstd::utf8::decode_utf8_split(e, n);
    vstd::utf8::valid_utf8_split(e, n);
    let one = e.subrange(n, e.len() as int);
    assert(one =~= seq![10u8]);
    reveal_with_fuel(vstd::utf8::decode_utf8, 2);
    reveal_with_fuel(vstd::utf8::valid_utf8, 2);
    assert(vstd::utf8::pop_first_scalar(one) =~= Seq::<u8>::empty());
    assert((10u8 & 0x7Fu8) == 10u8) by (bit_vector);
    assert(vstd::utf8::decode_first_scalar(one) == 10u32);
    assert(vstd::utf8::decode_utf8(one) =~= seq!['\n']);
}

/// Where every line of a UTF-8 text is kept, every line of each of its
/// complete events is too.
proof fn lemma_lines_kept_events(s: Seq<u8>)
    requires
        vstd::utf8::valid_utf8(s),
        forall|j: int|
            0 <= j < lines_of(vstd::utf8::decode_utf8(s)).len() ==> line_kept(
                #[trigger] lines_of(vstd::utf8::decode_utf8(s))[j],
            ),
    ensures
        nothing_to_rewrite(s),
    decreases s.len(),
{
    lemma_first_blank(s);
    if let Some(p) = first_blank(s) {
        let e = s.take(p + 2);
        let t = s.skip(p + 2);
        vstd::utf8::is_char_boundary_iff_not_is_continuation_byte(s, p + 1);
        lemma_boundary_after_ascii(s, p + 1);
        vstd::utf8::valid_utf8_split(s, p + 2);
        vstd::utf8::decode_utf8_split(s, p + 2);
        assert(s.subrange(0, p + 2) =~= e);
        assert(s.subrange(p + 2, s.len() as int) =~= t);
        assert(e.last() == 10);
        lemma_decode_ends_newline(e);
        let de = vstd::utf8::decode_utf8(e);
        let dt = vstd::utf8::decode_utf8(t);
        lemma_lines_of_append(de, dt);
        let ls = lines_of(vstd::utf8::decode_utf8(s));
        assert(ls == lines_of(de) + lines_of(dt));
        assert forall|j: int| 0 <= j < lines_of(dt).len() implies line_kept(
            #[trigger] lines_of(dt)[j],
        ) by {
            assert(ls[lines_of(de).len() + j] == lines_of(dt)[j]);
        }
        lemma_lines_kept_events(t);
        let fs = frame(s).0;
        assert(fs == seq![e] + frame(t).0);
        assert forall|i: int, j: int|
            0 <= i < fs.len() && vstd::utf8::valid_utf8(fs[i]) && 0 <= j < lines_of(
                vstd::utf8::decode_utf8(fs[i]),
            ).len() implies line_kept(#[trigger] lines_of(vstd::utf8::decode_utf8(fs[i]))[j]) by {
            if i == 0 {
                assert(ls[j] == lines_of(de)[j]);
            } else {
                assert(fs[i] == frame(t).0[i - 1]);
                assert(line_kept(lines_of(vstd::utf8::decode_utf8(frame(t).0[i - 1]))[j]));
            }
        }
    }
}

/// Law: a UTF-8 stream none of whose lines is rewritten (no comment
/// carrying JSON, no `data:` line with a choice to rewrite) passes byte for
/// byte.
pub proof fn law_utf8_stream_byte_transparent(chunks: Seq<Seq<u8>>)
    requires
        vstd::utf8::valid_utf8(flatten(chunks)),
        forall|j: int|
            0 <= j < lines_of(vstd::utf8::decode_utf8(flatten(chunks))).len() ==> line_kept(
                #[trigger] lines_of(vstd::utf8::decode_utf8(flatten(chunks)))[j],
            ),
    ensures
        stream_output(chunks) == flatten(chunks),
{
    lemma_lines_kept_events(flatten(chunks));
    law_stream_byte_transparent(chunks);
}

/// The framing state of a response stream: bytes received and not yet
/// passed on, and whether the stream has finished.
#[derive(Debug)]
pub struct SseFramer {
    buf: Vec<u8>,
    done: bool,
}

impl View for SseFramer {
    type V = (Seq<u8>, bool);

    closed spec fn view(&self) -> (Seq<u8>, bool) {
        (self.buf@, self.done)
    }
}

impl SseFramer {
    /// A stream that has received nothing.
    pub fn new() -> (r: SseFramer)
        ensures
            r@ == (Seq::<u8>::empty(), false),
    {
        SseFramer { buf: Vec::new(), done: false }
    }

    /// Whether the stream has finished: nothing more is read or passed on.
    pub fn is_done(&self) -> (r: bool)
        ensures
            r == self@.1,
    {
        self.done
    }

    /// Takes a chunk from upstream: it is appended to the bytes held, and
    /// the first complete event, when there is one, is cut out and handed
    /// back rewritten, with its counts; everything after it stays held,
    /// further complete events included. With no complete event, `None`:
    /// the caller reads another chunk.
    pub fn on_chunk(&mut self, chunk: &[u8]) -> (r: Option<(Vec<u8>, u64, u64)>)
        requires
            !old(self)@.1,
        ensures
            !final(self)@.1,
            final(self)@.0 == cut_first(old(self)@.0 + chunk@).1,
            match cut_first(old(self)@.0 + chunk@).0 {
                Some(e) => r matches Some(o) && o.0@ == event_transform(e).0 && o.1
                    == event_transform(e).1 && o.2 == event_transform(e).2,
                None => r is None,
            },
    {
        let mut cur: Vec<u8> = Vec::new();
        std::mem::swap(&mut self.buf, &mut cur);
        let mut c = vstd::slice::slice_to_vec(chunk);
        cur.append(&mut c);
        proof {
            lemma_first_blank(cur@);
        }
        match find_sse_event_end(cur.as_slice()) {
            Some(p) => {
                let n = cur.len();
                proof {
                    lemma_first_blank_is(cur@, p as int);
                    assert(blank_at(cur@, p as int));
                    assert(p + 1 < n);
                }
                let rest = cur.split_off(p + 2);
                self.buf = rest;
                Some(transform_sse_event_counted(cur.as_slice()))
            },
            None => {
                proof {
                    if let Some(q) = first_blank(cur@) {
                        assert(blank_at(cur@, q));
                    }
                }
                self.buf = cur;
                None
            },
        }
    }

    /// The upstream stream failed: the stream finishes, and what is held is
    /// passed on as [`flush`] gives it, in place of the error; with nothing
    /// held, the error is passed on (`None`).
    pub fn on_error(&mut self) -> (r: Option<Vec<u8>>)
        ensures
            final(self)@ == (Seq::<u8>::empty(), true),
            match r {
                Some(b) => old(self)@.0.len() > 0 && b@ == flush(old(self)@.0),
                None => old(self)@.0.len() == 0,
            },
    {
        self.finish()
    }

    /// The upstream stream ended: the stream finishes, and what is held is
    /// passed on as [`flush`] gives it: each complete event rewritten, then
    /// the bytes after the last blank line.
    pub fn on_end(&mut self) -> (r: Option<Vec<u8>>)
        ensures
            final(self)@ == (Seq::<u8>::empty(), true),
            match r {
                Some(b) => old(self)@.0.len() > 0 && b@ == flush(old(self)@.0),
                None => old(self)@.0.len() == 0,
            },
    {
        self.finish()
    }

    fn finish(&mut self) -> (r: Option<Vec<u8>>)
        ensures
            final(self)@ == (Seq::<u8>::empty(), true),
            match r {
                Some(b) => old(self)@.0.len() > 0 && b@ == flush(old(self)@.0),
                None => old(self)@.0.len() == 0,
            },
    {
        let mut cur: Vec<u8> = Vec::new();
        std::mem::swap(&mut self.buf, &mut cur);
        self.done = true;
        if cur.len() == 0 {
            return None;
        }
        let ghost whole = cur@;
        let mut out: Vec<u8> = Vec::new();
        proof {
            assert(out@ + flush(cur@) =~= flush(cur@));
        }
        loop
            invariant
                out@ + flush(cur@) == flush(whole),
                whole.len() > 0,
            ensures
                out@ == flush(whole),
            decreases cur@.len(),
        {
            proof {
                lemma_first_blank(cur@);
            }
            match find_sse_event_end(cur.as_slice()) {
                Some(p) => {
                    let ghost before = cur@;
                    let n = cur.len();
                    proof {
                        lemma_first_blank_is(cur@, p as int);
                        assert(blank_at(cur@, p as int));
                        assert(p + 1 < n);
                        lemma_flush_first(cur@, p as int);
                    }
                    let rest = cur.split_off(p + 2);
                    let t = transform_sse_event(cur.as_slice());
                    let ghost o = out@;
                    let mut tv = t;
                    out.append(&mut tv);
                    cur = rest;
                    proof {
                        assert(out@ + flush(cur@) =~= o + (event_transform(before.take(p + 2)).0
                            + flush(before.skip(p + 2))));
                    }
                },
                None => {
                    proof {
                        if let Some(q) = first_blank(cur@) {
                            assert(blank_at(cur@, q));
                        }
                        assert(frame(cur@) == (Seq::<Seq<u8>>::empty(), cur@));
                        assert(transform_events(Seq::<Seq<u8>>::empty()) =~= Seq::<Seq<u8>>::empty());
                        assert(flush(cur@) =~= cur@);
                    }
                    let ghost o = out@;
                    let ghost cb = cur@;
                    out.append(&mut cur);
                    proof {
                        assert(out@ =~= o + flush(cb));
                    }
                    break;
                },
            }
        }
        Some(out)
    }
}

/// The position `find_sse_event_end` reports is where framing cuts.
proof fn lemma_first_blank_is(s: Seq<u8>, p: int)
    requires
        blank_at(s, p),
        forall|j: int| 0 <= j < p ==> !#[trigger] blank_at(s, j),
    ensures
        first_blank(s) == Some(p),
{
    lemma_first_blank(s);
    match first_blank(s) {
        Some(q) => {
            if q < p {
                assert(!blank_at(s, q));
            }
            if q > p {
                assert(!blank_at(s, p));
            }
        },
        None => {
            assert(blank_at(s, p));
        },
    }
}

/// Flushing bytes that start with a complete event is that event rewritten,
/// then flushing the rest.
proof fn lemma_flush_first(s: Seq<u8>, p: int)
    requires
        first_blank(s) == Some(p),
        blank_at(s, p),
    ensures
        flush(s) == event_transform(s.take(p + 2)).0 + flush(s.skip(p + 2)),
{
    let e = s.take(p + 2);
    let t = s.skip(p + 2);
    let es = frame(t).0;
    assert(frame(s).0 == seq![e] + es);
    lemma_transform_events_append(seq![e], es);
    assert(transform_events(seq![e]) =~= seq![event_transform(e).0]);
    let one = seq![event_transform(e).0];
    assert(one.drop_first() =~= Seq::<Seq<u8>>::empty());
    assert(flatten(one) == one[0] + flatten(one.drop_first()));
    assert(one[0] + Seq::<u8>::empty() =~= event_transform(e).0);
    let a = event_transform(e).0;
    let b = flatten(transform_events(es));
    assert(a + b + frame(t).1 =~= a + (b + frame(t).1));
}

/// Law: an event in which nothing was rewritten is passed on byte for byte.
pub proof fn law_unchanged_event_passes_through(bytes: Seq<u8>)
    ensures
        event_transform(bytes).1 == 0 && event_transform(bytes).2 == 0 ==> event_transform(
            bytes,
        ).0 == bytes,
{
}

/// Law: a `data:` payload with no choice to rewrite is passed on as it is,
/// so a delta that already has content is left alone.
pub proof fn law_data_without_mapping_unchanged(s: Seq<char>)
    ensures
        !data_transform(s).1 ==> data_transform(s).0 == s,
{
}

/// Law: a `data:` payload that was rewritten needs no second rewrite: where
/// the rewritten JSON, once written out, reads back as itself, rewriting the
/// result again gives it back unchanged.
pub proof fn law_data_transform_idempotent(s: Seq<char>)
    requires
        json_parse(s) matches Some(v) ==> (rewrite_choices(v) matches Some(out) ==> (json_render(
            out,
        ) matches Some(t) ==> json_parse(t) == Some(out))),
    ensures
        data_transform(data_transform(s).0).0 == data_transform(s).0,
{
    reveal_strlit("content");
    reveal_strlit("reasoning_content");
    if let Some(v) = json_parse(s) {
        if let Some(out) = rewrite_choices(v) {
            if let Some(t) = json_render(out) {
                let m = v->Obj_0;
                let cs = m["choices"@]->Arr_0;
                let ncs = map_choices(cs);
                assert forall|i: int| 0 <= i < ncs.len() implies #[trigger] choice_mapped(ncs[i]) is None by {
                    if let Some(n) = choice_mapped(cs[i]) {
                        let d = cs[i]->Obj_0["delta"@]->Obj_0;
                        let nd = d.insert("content"@, d["reasoning_content"@]);
                        assert(n->Obj_0["delta"@] == Json::Obj(nd));
                        assert(present(nd, "content"@));
                    }
                }
                let om = out->Obj_0;
                assert(om["choices"@] == Json::Arr(ncs));
                assert(!any_choice_mapped(ncs));
                assert(rewrite_choices(out) is None);
            }
        }
    }
}

/// Whether a choice's delta has a non-null `reasoning_content` and no
/// `content`, or a null one.
pub open spec fn needs_content(c: Json) -> bool {
    &&& c is Obj
    &&& c->Obj_0.contains_key("delta"@)
    &&& c->Obj_0["delta"@] is Obj
    &&& c->Obj_0["delta"@]->Obj_0.contains_key("reasoning_content"@)
    &&& c->Obj_0["delta"@]->Obj_0["reasoning_content"@] != Json::Null
    &&& (!c->Obj_0["delta"@]->Obj_0.contains_key("content"@) || c->Obj_0["delta"@]->Obj_0["content"@]
        == Json::Null)
}

/// Law: a payload is rewritten exactly when it is an object whose `choices`
/// is an array with a choice that needs content. Then every member other
/// than `choices` is kept with its value; `choices` keeps its length; a
/// choice that needs content gets `content` equal to its
/// `reasoning_content` in its delta, all else in it kept; every other
/// choice is kept as it is.
pub proof fn law_rewrite_choices(v: Json)
    ensures
        rewrite_choices(v) is Some <==> (v is Obj && v->Obj_0.contains_key("choices"@)
            && v->Obj_0["choices"@] is Arr && exists|i: int|
            0 <= i < v->Obj_0["choices"@]->Arr_0.len() && #[trigger] needs_content(
                v->Obj_0["choices"@]->Arr_0[i],
            )),
        rewrite_choices(v) is Some ==> ({
            let m = v->Obj_0;
            let cs = m["choices"@]->Arr_0;
            let o = rewrite_choices(v)->Some_0;
            &&& o is Obj
            &&& o->Obj_0.remove("choices"@) == m.remove("choices"@)
            &&& o->Obj_0.contains_key("choices"@)
            &&& o->Obj_0["choices"@] is Arr
            &&& o->Obj_0["choices"@]->Arr_0.len() == cs.len()
            &&& forall|i: int|
                0 <= i < cs.len() ==> {
                    let c = cs[i];
                    let n = #[trigger] o->Obj_0["choices"@]->Arr_0[i];
                    if needs_content(c) {
                        let d = c->Obj_0["delta"@]->Obj_0;
                        &&& n is Obj
                        &&& n->Obj_0.remove("delta"@) == c->Obj_0.remove("delta"@)
                        &&& n->Obj_0.contains_key("delta"@)
                        &&& n->Obj_0["delta"@] == Json::Obj(
                            d.insert("content"@, d["reasoning_content"@]),
                        )
                    } else {
                        n == c
                    }
                }
        }),
{
    reveal_strlit("content");
    reveal_strlit("reasoning_content");
    reveal_strlit("delta");
    reveal_strlit("choices");
    if let Json::Obj(m) = v {
        if m.contains_key("choices"@) && m["choices"@] is Arr {
            let cs = m["choices"@]->Arr_0;
            assert forall|i: int| 0 <= i < cs.len() implies (#[trigger] choice_mapped(cs[i]) is Some
                <==> needs_content(cs[i])) by {
                assert(present(Map::empty(), "content"@) == false);
            }
            if any_choice_mapped(cs) {
                let i = choose|i: int| 0 <= i < cs.len() && #[trigger] choice_mapped(cs[i]) is Some;
                assert(needs_content(cs[i]));
            }
            if exists|i: int| 0 <= i < cs.len() && #[trigger] needs_content(cs[i]) {
                let i = choose|i: int| 0 <= i < cs.len() && #[trigger] needs_content(cs[i]);
                assert(choice_mapped(cs[i]) is Some);
            }
            if rewrite_choices(v) is Some {
                let o = rewrite_choices(v)->Some_0->Obj_0;
                assert(o.remove("choices"@) =~= m.remove("choices"@));
                let ncs = map_choices(cs);
                assert forall|i: int| 0 <= i < cs.len() && needs_content(cs[i]) implies
                    #[trigger] ncs[i]->Obj_0.remove("delta"@) == cs[i]->Obj_0.remove("delta"@) by {
                    assert(ncs[i]->Obj_0.remove("delta"@) =~= cs[i]->Obj_0.remove("delta"@));
                }
            }
        }
    }
}

/// Law: a rewritten choice's delta gets `content` equal to its
/// `reasoning_content`, which it keeps; nothing else in the choice changes.
pub proof fn law_mapped_choice(c: Json)
    ensures
        choice_mapped(c) matches Some(n) ==> {
            let cm = c->Obj_0;
            let d = cm["delta"@]->Obj_0;
            let nm = n->Obj_0;
            let nd = nm["delta"@]->Obj_0;
            &&& nd["content"@] == d["reasoning_content"@]
            &&& nd.contains_key("reasoning_content"@)
            &&& nd["reasoning_content"@] == d["reasoning_content"@]
            &&& forall|k: Seq<char>| k != "content"@ ==> nd.contains_key(k) == d.contains_key(k)
            &&& forall|k: Seq<char>| k != "delta"@ ==> nm.contains_key(k) == cm.contains_key(k)
        },
{
    reveal_strlit("content");
    reveal_strlit("reasoning_content");
}

/// Law: a comment line whose text starts with `{` is dropped; any other
/// comment line is kept as it is.
pub proof fn law_comment_lines(line: Seq<char>)
    requires
        crate::text::starts_with(line, ": "@),
    ensures
        brace_after_space(line.skip(2)) ==> line_out(line).0 == Seq::<char>::empty() && line_out(
            line,
        ).2,
        !brace_after_space(line.skip(2)) ==> line_out(line).0 == line + seq!['\n'] && !line_out(
            line,
        ).2,
{
    reveal_strlit(": ");
    reveal_strlit("data:");
    assert(line.take(2)[0] == ": "@[0]);
    assert(line[0] == ':');
    assert(!crate::text::starts_with(line, "data:"@)) by {
        if crate::text::starts_with(line, "data:"@) {
            assert(line.take(5)[0] == 'd');
        }
    }
    if line.len() <= 2 {
        assert(line.skip(2) =~= Seq::<char>::empty());
    }
}

} // verus!
