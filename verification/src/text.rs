//! Small text operations over character sequences.

use vstd::prelude::*;

verus! {

broadcast use vstd::string::group_string_axioms;

/// The characters of a string slice, in order.
pub fn chars_of(s: &str) -> (r: Vec<char>)
    ensures
        r@ == s@,
{
    let mut out: Vec<char> = Vec::new();
    for c in it: s.chars()
        invariant
            out@.len() == it.index(),
            forall|i: int| 0 <= i < out@.len() ==> out@[i] == it.seq()[i],
            it.seq() == s@,
    {
        out.push(c);
    }
    proof {
        assert(out@ =~= s@);
    }
    out
}

} // verus!

verus! {

/// Collects characters into a `String` (`FromIterator<&char>` for `String`).
#[verifier::external_body]
pub(crate) fn string_from_chars(chars: &[char]) -> (r: String)
    ensures
        r@ == chars@,
{
    chars.iter().collect()
}

/// Whether `c` has the Unicode `White_Space` property: U+0009 to U+000D,
/// U+0020, U+0085, U+00A0, U+1680, U+2000 to U+200A, U+2028, U+2029,
/// U+202F, U+205F and U+3000.
pub open spec fn white_space(c: char) -> bool {
    let u = c as u32;
    ||| 0x09 <= u <= 0x0D
    ||| u == 0x20
    ||| u == 0x85
    ||| u == 0xA0
    ||| u == 0x1680
    ||| 0x2000 <= u <= 0x200A
    ||| u == 0x2028
    ||| u == 0x2029
    ||| u == 0x202F
    ||| u == 0x205F
    ||| u == 0x3000
}

/// Whether the character has the `White_Space` property, as
/// `char::is_whitespace` answers.
pub fn char_is_whitespace(c: char) -> (r: bool)
    ensures
        r == white_space(c),
{
    let u = c as u32;
    (0x09 <= u && u <= 0x0D) || u == 0x20 || u == 0x85 || u == 0xA0 || u == 0x1680 || (0x2000
        <= u && u <= 0x200A) || u == 0x2028 || u == 0x2029 || u == 0x202F || u == 0x205F || u
        == 0x3000
}

/// Whether `s` begins with `p`.
pub open spec fn starts_with(s: Seq<char>, p: Seq<char>) -> bool {
    p.len() <= s.len() && s.take(p.len() as int) == p
}

/// Exec form of [`starts_with`] against a prefix given as a string slice.
pub fn has_prefix(s: &[char], p: &str) -> (r: bool)
    ensures
        r == starts_with(s@, p@),
{
    let pc = chars_of(p);
    if pc.len() > s.len() {
        return false;
    }
    let mut i: usize = 0;
    while i < pc.len()
        invariant
            pc@ == p@,
            pc@.len() <= s@.len(),
            i <= pc@.len(),
            forall|j: int| 0 <= j < i ==> s@[j] == pc@[j],
        decreases pc.len() - i,
    {
        if s[i] != pc[i] {
            proof {
                assert(s@.take(pc@.len() as int)[i as int] != p@[i as int]);
            }
            return false;
        }
        i = i + 1;
    }
    proof {
        assert(s@.take(pc@.len() as int) =~= p@);
    }
    true
}

/// The pieces of `s` between occurrences of `d`, as `str::split` with a
/// character pattern yields them: never empty, with empty pieces kept.
pub open spec fn split_on(s: Seq<char>, d: char) -> Seq<Seq<char>>
    decreases s.len(),
{
    if s.len() == 0 {
        seq![Seq::<char>::empty()]
    } else {
        let p = split_on(s.drop_last(), d);
        if s.last() == d {
            p.push(Seq::<char>::empty())
        } else {
            p.update(p.len() - 1, p.last().push(s.last()))
        }
    }
}

pub proof fn lemma_split_on_nonempty(s: Seq<char>, d: char)
    ensures
        split_on(s, d).len() >= 1,
    decreases s.len(),
{
    if s.len() > 0 {
        lemma_split_on_nonempty(s.drop_last(), d);
    }
}

/// The pieces joined back with `d` between them.
pub open spec fn join_on(ps: Seq<Seq<char>>, d: char) -> Seq<char>
    decreases ps.len(),
{
    if ps.len() == 0 {
        Seq::empty()
    } else if ps.len() == 1 {
        ps[0]
    } else {
        join_on(ps.drop_last(), d) + seq![d] + ps.last()
    }
}

/// Splitting at `d` and joining with `d` gives the text back.
pub proof fn lemma_join_split(s: Seq<char>, d: char)
    ensures
        join_on(split_on(s, d), d) == s,
    decreases s.len(),
{
    if s.len() > 0 {
        let t = s.drop_last();
        lemma_join_split(t, d);
        lemma_split_on_nonempty(t, d);
        let p = split_on(t, d);
        if s.last() == d {
            assert(p.push(Seq::<char>::empty()).drop_last() =~= p);
            assert(join_on(p, d) + seq![d] + Seq::<char>::empty() =~= s);
        } else {
            let q = p.update(p.len() - 1, p.last().push(s.last()));
            if p.len() == 1 {
                assert(q[0] =~= s);
            } else {
                assert(q.drop_last() =~= p.drop_last());
                assert(join_on(p, d) == join_on(p.drop_last(), d) + seq![d] + p.last());
                assert(join_on(p.drop_last(), d) + seq![d] + p.last().push(s.last()) =~= t.push(
                    s.last(),
                ));
                assert(t.push(s.last()) =~= s);
            }
        }
    }
}

/// The first `n` pieces, joined, followed by `d`, begin the joined text.
pub proof fn lemma_join_take(ps: Seq<Seq<char>>, n: int, d: char)
    requires
        1 <= n < ps.len(),
    ensures
        starts_with(join_on(ps, d), join_on(ps.take(n), d) + seq![d]),
    decreases ps.len() - n,
{
    let dl = ps.drop_last();
    let pre = join_on(ps.take(n), d) + seq![d];
    if n == ps.len() - 1 {
        assert(ps.take(n) =~= dl);
        assert((join_on(dl, d) + seq![d] + ps.last()).take(pre.len() as int) =~= pre);
    } else {
        lemma_join_take(dl, n, d);
        assert(dl.take(n) =~= ps.take(n));
        assert((join_on(dl, d) + seq![d] + ps.last()).take(pre.len() as int) =~= join_on(dl, d).take(
            pre.len() as int,
        ));
    }
}

/// A text comes before any longer text it begins.
pub proof fn lemma_text_lt_proper_prefix(a: Seq<char>, b: Seq<char>)
    requires
        a.len() < b.len(),
        b.take(a.len() as int) == a,
    ensures
        text_lt(a, b),
    decreases a.len(),
{
    if a.len() > 0 {
        assert(b[0] == b.take(a.len() as int)[0]);
        assert(b.drop_first().take(a.len() - 1) =~= a.drop_first()) by {
            assert forall|i: int| 0 <= i < a.len() - 1 implies b.drop_first().take(a.len() - 1)[i]
                == a.drop_first()[i] by {
                assert(b.take(a.len() as int)[i + 1] == b[i + 1]);
            }
        }
        lemma_text_lt_proper_prefix(a.drop_first(), b.drop_first());
    }
}

/// When the pieces of `a` begin the pieces of `b` and are fewer, `a` comes
/// before `b`.
pub proof fn lemma_split_prefix_text_lt(a: Seq<char>, b: Seq<char>, d: char)
    requires
        split_on(a, d).len() < split_on(b, d).len(),
        split_on(b, d).take(split_on(a, d).len() as int) == split_on(a, d),
    ensures
        text_lt(a, b),
{
    let pa = split_on(a, d);
    let pb = split_on(b, d);
    lemma_split_on_nonempty(a, d);
    lemma_join_split(a, d);
    lemma_join_split(b, d);
    lemma_join_take(pb, pa.len() as int, d);
    let pre = a + seq![d];
    assert(join_on(pb.take(pa.len() as int), d) == a);
    assert(b.take(pre.len() as int) == pre);
    assert(b.take(a.len() as int) =~= pre.take(a.len() as int));
    assert(pre.take(a.len() as int) =~= a);
    lemma_text_lt_proper_prefix(a, b);
}

/// Splits `s` at every `d` (`str::split` with a character pattern).
pub fn split_at_char(s: &str, d: char) -> (r: Vec<String>)
    ensures
        r@.len() == split_on(s@, d).len(),
        forall|i: int| 0 <= i < r@.len() ==> #[trigger] r@[i]@ == split_on(s@, d)[i],
{
    let cs = chars_of(s);
    let mut done: Vec<String> = Vec::new();
    let mut cur: Vec<char> = Vec::new();
    let mut i: usize = 0;
    while i < cs.len()
        invariant
            cs@ == s@,
            i <= cs@.len(),
            done@.len() + 1 == split_on(cs@.take(i as int), d).len(),
            forall|j: int| 0 <= j < done@.len() ==> #[trigger] done@[j]@ == split_on(cs@.take(i as int), d)[j],
            cur@ == split_on(cs@.take(i as int), d).last(),
        decreases cs.len() - i,
    {
        let c = cs[i];
        proof {
            assert(cs@.take(i + 1).drop_last() =~= cs@.take(i as int));
            lemma_split_on_nonempty(cs@.take(i as int), d);
        }
        if c == d {
            let piece = string_from_chars(cur.as_slice());
            done.push(piece);
            cur = Vec::new();
        } else {
            cur.push(c);
        }
        i = i + 1;
    }
    let last = string_from_chars(cur.as_slice());
    done.push(last);
    proof {
        assert(cs@.take(i as int) =~= s@);
    }
    done
}

} // verus!

verus! {

/// Lexicographic order on character sequences, character by character by
/// code point; for UTF-8 text this is the order of `String`'s `Ord`.
pub open spec fn text_lt(a: Seq<char>, b: Seq<char>) -> bool
    decreases a.len(),
{
    if a.len() == 0 {
        b.len() > 0
    } else if b.len() == 0 {
        false
    } else if a[0] == b[0] {
        text_lt(a.drop_first(), b.drop_first())
    } else {
        (a[0] as int) < (b[0] as int)
    }
}

pub proof fn lemma_text_lt_irreflexive(a: Seq<char>)
    ensures
        !text_lt(a, a),
    decreases a.len(),
{
    if a.len() > 0 {
        lemma_text_lt_irreflexive(a.drop_first());
    }
}

pub proof fn lemma_text_lt_total(a: Seq<char>, b: Seq<char>)
    ensures
        a != b ==> text_lt(a, b) || text_lt(b, a),
        !(text_lt(a, b) && text_lt(b, a)),
    decreases a.len(),
{
    if a.len() > 0 && b.len() > 0 {
        lemma_text_lt_total(a.drop_first(), b.drop_first());
        if a[0] == b[0] && a != b {
            assert(a =~= seq![a[0]] + a.drop_first());
            assert(b =~= seq![b[0]] + b.drop_first());
        }
        if a[0] != b[0] {
            assert((a[0] as int) != (b[0] as int));
        }
    } else if a.len() == 0 && b.len() == 0 {
        assert(a =~= b);
    }
}

pub proof fn lemma_text_lt_transitive(a: Seq<char>, b: Seq<char>, c: Seq<char>)
    requires
        text_lt(a, b),
        text_lt(b, c),
    ensures
        text_lt(a, c),
    decreases a.len(),
{
    if a.len() > 0 && b.len() > 0 && c.len() > 0 {
        if a[0] == b[0] && b[0] == c[0] {
            lemma_text_lt_transitive(a.drop_first(), b.drop_first(), c.drop_first());
        }
    }
}

/// Whether two texts are equal, character by character.
pub fn text_eq(a: &str, b: &str) -> (r: bool)
    ensures
        r == (a@ == b@),
{
    let x = chars_of(a);
    let y = chars_of(b);
    if x.len() != y.len() {
        return false;
    }
    let mut i: usize = 0;
    while i < x.len()
        invariant
            x@ == a@,
            y@ == b@,
            x@.len() == y@.len(),
            i <= x@.len(),
            forall|j: int| 0 <= j < i ==> x@[j] == y@[j],
        decreases x.len() - i,
    {
        if x[i] != y[i] {
            return false;
        }
        i = i + 1;
    }
    proof {
        assert(x@ =~= y@);
    }
    true
}

/// Whether `a` comes strictly before `b` in [`text_lt`] order.
pub fn text_less(a: &str, b: &str) -> (r: bool)
    ensures
        r == text_lt(a@, b@),
{
    let x = chars_of(a);
    let y = chars_of(b);
    let mut i: usize = 0;
    proof {
        assert(a@.skip(0) =~= a@);
        assert(b@.skip(0) =~= b@);
    }
    while i < x.len() && i < y.len()
        invariant
            x@ == a@,
            y@ == b@,
            i <= x@.len(),
            i <= y@.len(),
            text_lt(a@, b@) == text_lt(a@.skip(i as int), b@.skip(i as int)),
        decreases x.len() - i,
    {
        if x[i] != y[i] {
            proof {
                assert(a@.skip(i as int)[0] == x@[i as int]);
                assert(b@.skip(i as int)[0] == y@[i as int]);
            }
            return x[i] < y[i];
        }
        proof {
            assert(a@.skip(i as int).drop_first() =~= a@.skip(i + 1));
            assert(b@.skip(i as int).drop_first() =~= b@.skip(i + 1));
        }
        i = i + 1;
    }
    proof {
        assert(a@.skip(i as int).len() == 0 || b@.skip(i as int).len() == 0);
    }
    i == x.len() && i < y.len()
}

} // verus!

verus! {

/// `s` with every non-overlapping occurrence of `pat`, found left to right,
/// replaced by `with`, as `str::replace` does for a non-empty pattern.
pub open spec fn replace_all(s: Seq<char>, pat: Seq<char>, with: Seq<char>) -> Seq<char>
    decreases s.len(),
{
    if pat.len() == 0 || s.len() < pat.len() {
        s
    } else if s.take(pat.len() as int) == pat {
        with + replace_all(s.skip(pat.len() as int), pat, with)
    } else {
        seq![s[0]] + replace_all(s.drop_first(), pat, with)
    }
}

/// Replaces every occurrence of a non-empty pattern (`str::replace`).
pub fn replace_text(s: &str, pat: &str, with: &str) -> (r: String)
    requires
        pat@.len() > 0,
    ensures
        r@ == replace_all(s@, pat@, with@),
{
    let cs = chars_of(s);
    let ps = chars_of(pat);
    let ws = chars_of(with);
    let mut out: Vec<char> = Vec::new();
    let mut i: usize = 0;
    proof {
        assert(s@.skip(0) =~= s@);
        assert(out@ =~= Seq::<char>::empty());
    }
    while i < cs.len()
        invariant
            cs@ == s@,
            ps@ == pat@,
            ws@ == with@,
            ps@.len() > 0,
            i <= cs@.len(),
            out@ + replace_all(s@.skip(i as int), pat@, with@) == replace_all(s@, pat@, with@),
        decreases cs.len() - i,
    {
        let ghost rest = s@.skip(i as int);
        let mut matched = cs.len() - i >= ps.len();
        if matched {
            let mut k: usize = 0;
            let n = cs.len();
            while k < ps.len()
                invariant
                    n == cs@.len(),
                    cs@ == s@,
                    ps@ == pat@,
                    i + ps@.len() <= cs@.len(),
                    k <= ps@.len(),
                    matched == forall|j: int| 0 <= j < k ==> cs@[i + j] == ps@[j],
                decreases ps.len() - k,
            {
                if cs[i + k] != ps[k] {
                    matched = false;
                }
                k = k + 1;
            }
            proof {
                if matched {
                    assert(rest.take(pat@.len() as int) =~= pat@);
                } else {
                    let j = choose|j: int| 0 <= j < k && cs@[i + j] != ps@[j];
                    assert(rest.take(pat@.len() as int)[j] != pat@[j]);
                }
            }
        }
        if matched {
            let ghost before = out@;
            let mut k: usize = 0;
            while k < ws.len()
                invariant
                    k <= ws@.len(),
                    out@ == before + ws@.take(k as int),
                decreases ws.len() - k,
            {
                out.push(ws[k]);
                proof {
                    assert(ws@.take(k + 1) =~= ws@.take(k as int).push(ws@[k as int]));
                }
                k = k + 1;
            }
            proof {
                assert(ws@.take(k as int) =~= with@);
                assert(rest.skip(pat@.len() as int) =~= s@.skip(i + pat@.len()));
                assert(out@ + replace_all(s@.skip(i + pat@.len()), pat@, with@) =~= before
                    + replace_all(rest, pat@, with@));
            }
            i = i + ps.len();
        } else {
            let ghost before = out@;
            out.push(cs[i]);
            proof {
                assert(rest.drop_first() =~= s@.skip(i + 1));
                assert(rest[0] == cs@[i as int]);
                assert(out@ + replace_all(s@.skip(i + 1), pat@, with@) =~= before + replace_all(
                    rest,
                    pat@,
                    with@,
                ));
            }
            i = i + 1;
        }
    }
    proof {
        assert(s@.skip(i as int) =~= Seq::<char>::empty());
        assert(out@ + Seq::<char>::empty() =~= out@);
    }
    string_from_chars(out.as_slice())
}

} // verus!
