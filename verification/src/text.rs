//! Character-sequence utilities shared by the codec, the query engine and
//! the quiz session: case folding, splitting and joining on a separator
//! character, and substring search.

use vstd::prelude::*;

verus! {

/// The Unicode lowercase folding of a character sequence: what
/// `str::to_lowercase` returns, a function of the characters alone.  It
/// has no definition here; the `lowercase` wrapper is the one place that
/// produces it.
pub uninterp spec fn lower_of(s: Seq<char>) -> Seq<char>;

/// Relies on `str::to_lowercase`: the Unicode lowercase equivalent of
/// the string, depending on its characters alone.
#[verifier::external_body]
pub(crate) fn lowercase(s: &str) -> (r: String)
    ensures
        r@ == lower_of(s@),
{
    s.to_lowercase()
}

/// Splitting a character sequence on a separator character.  Splitting
/// never yields an empty token list: the empty sequence splits into one
/// empty token, exactly as `str::split` behaves.
pub open spec fn split_on(s: Seq<char>, sep: char) -> Seq<Seq<char>>
    decreases s.len(),
{
    if s.len() == 0 {
        seq![Seq::<char>::empty()]
    } else if s[0] == sep {
        seq![Seq::<char>::empty()] + split_on(s.drop_first(), sep)
    } else {
        let r = split_on(s.drop_first(), sep);
        r.update(0, seq![s[0]] + r[0])
    }
}

/// Joining token sequences with a separator character; the inverse of
/// `split_on` for separator-free tokens.
pub open spec fn join_with(parts: Seq<Seq<char>>, sep: char) -> Seq<char>
    decreases parts.len(),
{
    if parts.len() == 0 {
        Seq::empty()
    } else if parts.len() == 1 {
        parts[0]
    } else {
        parts[0] + seq![sep] + join_with(parts.drop_first(), sep)
    }
}

pub proof fn lemma_split_nonempty(s: Seq<char>, sep: char)
    ensures
        split_on(s, sep).len() >= 1,
    decreases s.len(),
{
    if s.len() > 0 {
        lemma_split_nonempty(s.drop_first(), sep);
    }
}

/// A sequence without the separator splits into exactly one token: itself.
pub proof fn lemma_split_sep_free(s: Seq<char>, sep: char)
    requires
        !s.contains(sep),
    ensures
        split_on(s, sep) == seq![s],
    decreases s.len(),
{
    if s.len() == 0 {
        assert(split_on(s, sep) =~~= seq![s]);
    } else {
        assert(s[0] != sep);
        assert(!s.drop_first().contains(sep)) by {
            assert(forall|i: int|
                0 <= i < s.drop_first().len() ==> s.drop_first()[i] == s[i + 1]);
        }
        lemma_split_sep_free(s.drop_first(), sep);
        assert(seq![s[0]] + s.drop_first() =~= s);
        assert(split_on(s, sep) =~~= seq![s]);
    }
}

/// Splitting `a ++ sep ++ b` with a separator-free `a` yields `a` followed
/// by the tokens of `b`.
pub proof fn lemma_split_concat(a: Seq<char>, b: Seq<char>, sep: char)
    requires
        !a.contains(sep),
    ensures
        split_on(a + seq![sep] + b, sep) == seq![a] + split_on(b, sep),
    decreases a.len(),
{
    let s = a + seq![sep] + b;
    if a.len() == 0 {
        assert(s.len() > 0);
        assert(s[0] == sep);
        assert(s.drop_first() =~= b);
        assert(a =~= Seq::<char>::empty());
        assert(seq![Seq::<char>::empty()] + split_on(b, sep) =~~= seq![a] + split_on(b, sep));
    } else {
        assert(s[0] == a[0]);
        assert(a[0] != sep);
        assert(!a.drop_first().contains(sep)) by {
            assert(forall|i: int|
                0 <= i < a.drop_first().len() ==> a.drop_first()[i] == a[i + 1]);
        }
        assert(s.drop_first() =~= a.drop_first() + seq![sep] + b);
        lemma_split_concat(a.drop_first(), b, sep);
        let r = split_on(s.drop_first(), sep);
        assert(r == seq![a.drop_first()] + split_on(b, sep));
        assert(r[0] == a.drop_first());
        assert(seq![s[0]] + r[0] =~= a);
        assert(r.update(0, a) =~= seq![a] + split_on(b, sep));
    }
}

/// Splitting is a left inverse of joining, for a nonempty list of
/// separator-free tokens.
pub proof fn lemma_split_join(parts: Seq<Seq<char>>, sep: char)
    requires
        parts.len() >= 1,
        forall|k: int| 0 <= k < parts.len() ==> !(#[trigger] parts[k]).contains(sep),
    ensures
        split_on(join_with(parts, sep), sep) == parts,
    decreases parts.len(),
{
    if parts.len() == 1 {
        lemma_split_sep_free(parts[0], sep);
        assert(seq![parts[0]] =~= parts);
    } else {
        lemma_split_join(parts.drop_first(), sep);
        lemma_split_concat(parts[0], join_with(parts.drop_first(), sep), sep);
        assert(seq![parts[0]] + parts.drop_first() =~= parts);
    }
}

/// Joining distributes over concatenation of nonempty token lists.
pub proof fn lemma_join_concat(a: Seq<Seq<char>>, b: Seq<Seq<char>>, sep: char)
    requires
        a.len() >= 1,
        b.len() >= 1,
    ensures
        join_with(a + b, sep) == join_with(a, sep) + seq![sep] + join_with(b, sep),
    decreases a.len(),
{
    if a.len() == 1 {
        assert((a + b)[0] == a[0]);
        assert((a + b).drop_first() =~= b);
        assert(join_with(a + b, sep) == a[0] + seq![sep] + join_with(b, sep));
        assert(join_with(a, sep) == a[0]);
    } else {
        assert((a + b)[0] == a[0]);
        assert((a + b).drop_first() =~= a.drop_first() + b);
        lemma_join_concat(a.drop_first(), b, sep);
        assert(join_with(a + b, sep) == a[0] + seq![sep] + (join_with(a.drop_first(), sep)
            + seq![sep] + join_with(b, sep)));
        assert(join_with(a, sep) == a[0] + seq![sep] + join_with(a.drop_first(), sep));
        assert(a[0] + seq![sep] + (join_with(a.drop_first(), sep) + seq![sep] + join_with(b, sep))
            =~= (a[0] + seq![sep] + join_with(a.drop_first(), sep)) + seq![sep] + join_with(
            b,
            sep,
        ));
    }
}

/// A join of tokens that are all free of some character `c` (other than
/// the separator itself) is free of `c`.
pub proof fn lemma_join_free(parts: Seq<Seq<char>>, sep: char, c: char)
    requires
        c != sep,
        forall|k: int| 0 <= k < parts.len() ==> !(#[trigger] parts[k]).contains(c),
    ensures
        !join_with(parts, sep).contains(c),
    decreases parts.len(),
{
    if parts.len() == 0 {
        assert(forall|i: int|
            0 <= i < join_with(parts, sep).len() ==> join_with(parts, sep)[i] != c);
    } else if parts.len() == 1 {
        assert(!parts[0].contains(c));
    } else {
        assert(forall|k: int|
            0 <= k < parts.drop_first().len() ==> parts.drop_first()[k] == parts[k + 1]);
        lemma_join_free(parts.drop_first(), sep, c);
        let j = join_with(parts, sep);
        let rest = join_with(parts.drop_first(), sep);
        assert forall|i: int| 0 <= i < j.len() implies j[i] != c by {
            if i < parts[0].len() {
                assert(j[i] == parts[0][i]);
                assert(!parts[0].contains(c));
            } else if i == parts[0].len() {
                assert(j[i] == sep);
            } else {
                assert(j[i] == rest[i - parts[0].len() - 1]);
            }
        }
    }
}

/// A sequence holding the separator splits into at least two tokens.
pub proof fn lemma_split_contains_sep(s: Seq<char>, sep: char)
    requires
        s.contains(sep),
    ensures
        split_on(s, sep).len() >= 2,
    decreases s.len(),
{
    lemma_split_nonempty(s.drop_first(), sep);
    if s[0] != sep {
        assert(s.drop_first().contains(sep)) by {
            let i = choose|i: int| 0 <= i < s.len() && s[i] == sep;
            assert(s.drop_first()[i - 1] == sep);
        }
        lemma_split_contains_sep(s.drop_first(), sep);
    }
}

/// Splitting text appended after a separator-terminated prefix: the
/// prefix's trailing empty token is replaced by the appended text's
/// tokens.
pub proof fn lemma_split_append(a: Seq<char>, b: Seq<char>, sep: char)
    requires
        a.len() > 0,
        a.last() == sep,
    ensures
        split_on(a + b, sep) == split_on(a, sep).take(split_on(a, sep).len() - 1) + split_on(
            b,
            sep,
        ),
    decreases a.len(),
{
    if a.len() == 1 {
        assert((a + b)[0] == sep);
        assert((a + b).drop_first() =~= b);
        assert(split_on(a + b, sep) == seq![Seq::<char>::empty()] + split_on(b, sep));
        assert(a.drop_first() =~= Seq::<char>::empty());
        assert(split_on(Seq::<char>::empty(), sep) == seq![Seq::<char>::empty()]);
        assert(split_on(a, sep) =~~= seq![Seq::<char>::empty(), Seq::<char>::empty()]);
        assert(split_on(a, sep).take(1) =~~= seq![Seq::<char>::empty()]);
    } else {
        let d = a.drop_first();
        assert(d.len() > 0 && d.last() == sep);
        assert((a + b)[0] == a[0]);
        assert((a + b).drop_first() =~= d + b);
        lemma_split_append(d, b, sep);
        let sd = split_on(d, sep);
        let m = sd.len();
        lemma_split_nonempty(d, sep);
        if a[0] == sep {
            assert(split_on(a + b, sep) == seq![Seq::<char>::empty()] + (sd.take(m - 1)
                + split_on(b, sep)));
            assert(split_on(a, sep) == seq![Seq::<char>::empty()] + sd);
            assert((seq![Seq::<char>::empty()] + sd).take(1 + m - 1) =~~= seq![
                Seq::<char>::empty(),
            ] + sd.take(m - 1));
            assert(split_on(a, sep).take(split_on(a, sep).len() - 1) + split_on(b, sep) =~~= seq![
                Seq::<char>::empty(),
            ] + (sd.take(m - 1) + split_on(b, sep)));
        } else {
            assert(d.contains(sep)) by {
                assert(d[d.len() - 1] == sep);
            }
            lemma_split_contains_sep(d, sep);
            let r = sd.take(m - 1) + split_on(b, sep);
            assert(split_on(a + b, sep) == r.update(0, seq![a[0]] + r[0]));
            assert(r[0] == sd[0]);
            assert(split_on(a, sep) == sd.update(0, seq![a[0]] + sd[0]));
            assert(r.update(0, seq![a[0]] + sd[0]) =~~= sd.update(0, seq![a[0]] + sd[0]).take(
                m - 1,
            ) + split_on(b, sep));
        }
    }
}

/// How a split changes when one more character is appended: a separator
/// opens a new empty token, any other character extends the last token.
pub proof fn lemma_split_push(s: Seq<char>, c: char, sep: char)
    ensures
        c == sep ==> split_on(s.push(c), sep) == split_on(s, sep).push(Seq::<char>::empty()),
        c != sep ==> split_on(s.push(c), sep) == split_on(s, sep).update(
            split_on(s, sep).len() - 1,
            split_on(s, sep).last().push(c),
        ),
    decreases s.len(),
{
    lemma_split_nonempty(s, sep);
    if s.len() == 0 {
        let t = s.push(c);
        assert(t.drop_first() =~= s);
        if c == sep {
            assert(split_on(t, sep) =~~= split_on(s, sep).push(Seq::<char>::empty()));
        } else {
            assert(seq![t[0]] + split_on(s, sep)[0] =~= Seq::<char>::empty().push(c));
            assert(split_on(t, sep) =~~= split_on(s, sep).update(0, split_on(s, sep)[0].push(c)));
        }
    } else {
        let t = s.push(c);
        let d = s.drop_first();
        assert(t[0] == s[0]);
        assert(t.drop_first() =~= d.push(c));
        lemma_split_push(d, c, sep);
        lemma_split_nonempty(d, sep);
        let r = split_on(d, sep);
        let m = r.len();
        if s[0] == sep {
            if c == sep {
                assert(split_on(t, sep) =~~= split_on(s, sep).push(Seq::<char>::empty()));
            } else {
                assert((seq![Seq::<char>::empty()] + r)[m as int] == r[m as int - 1]);
                assert(split_on(t, sep) =~~= split_on(s, sep).update(
                    split_on(s, sep).len() - 1,
                    split_on(s, sep).last().push(c),
                ));
            }
        } else {
            if c == sep {
                assert(split_on(t.drop_first(), sep) == r.push(Seq::<char>::empty()));
                assert(r.push(Seq::<char>::empty())[0] == r[0]);
                assert(split_on(t, sep) =~~= split_on(s, sep).push(Seq::<char>::empty()));
            } else {
                let r2 = r.update(m - 1, r.last().push(c));
                assert(split_on(t.drop_first(), sep) == r2);
                if m == 1 {
                    assert(r2[0] == r[0].push(c));
                    assert(seq![s[0]] + r[0].push(c) =~= (seq![s[0]] + r[0]).push(c));
                    assert(split_on(t, sep) =~~= split_on(s, sep).update(
                        split_on(s, sep).len() - 1,
                        split_on(s, sep).last().push(c),
                    ));
                } else {
                    assert(r2[0] == r[0]);
                    assert(split_on(s, sep) == r.update(0, seq![s[0]] + r[0]));
                    assert(split_on(s, sep).last() == r.last());
                    assert(split_on(t, sep) =~~= split_on(s, sep).update(
                        split_on(s, sep).len() - 1,
                        split_on(s, sep).last().push(c),
                    ));
                }
            }
        }
    }
}

/// The characters of a string slice, as a vector.
pub fn chars_of(s: &str) -> (r: Vec<char>)
    ensures
        r@ == s@,
{
    let n: usize = s.unicode_len();
    let mut out: Vec<char> = Vec::new();
    let mut i: usize = 0;
    while i < n
        invariant
            i <= n,
            n == s@.len(),
            out@ == s@.take(i as int),
        decreases n - i,
    {
        out.push(s.get_char(i));
        i = i + 1;
        proof {
            assert(out@ =~= s@.take(i as int));
        }
    }
    proof {
        assert(s@.take(n as int) =~= s@);
    }
    out
}

/// Relies on `String::push`: appends exactly the given character at the end.
#[verifier::external_body]
fn push_char(s: &mut String, c: char)
    ensures
        final(s)@ == old(s)@.push(c),
{
    s.push(c);
}

/// A string holding exactly the given characters.
pub fn string_of(v: &Vec<char>) -> (r: String)
    ensures
        r@ == v@,
{
    let mut out: String = String::new();
    let mut i: usize = 0;
    while i < v.len()
        invariant
            i <= v@.len(),
            out@ == v@.take(i as int),
        decreases v@.len() - i,
    {
        push_char(&mut out, v[i]);
        i = i + 1;
        proof {
            assert(out@ =~= v@.take(i as int));
        }
    }
    proof {
        assert(v@.take(v@.len() as int) =~= v@);
    }
    out
}

/// Split a character vector on a separator, as `split_on` describes.
pub fn split_chars(s: &Vec<char>, sep: char) -> (r: Vec<Vec<char>>)
    ensures
        r.deep_view() == split_on(s@, sep),
{
    let mut done: Vec<Vec<char>> = Vec::new();
    let mut cur: Vec<char> = Vec::new();
    let mut i: usize = 0;
    while i < s.len()
        invariant
            i <= s@.len(),
            done.deep_view().push(cur@) == split_on(s@.take(i as int), sep),
        decreases s@.len() - i,
    {
        let ghost pre = s@.take(i as int);
        let ghost dv = done.deep_view();
        let c = s[i];
        proof {
            lemma_split_push(pre, c, sep);
            lemma_split_nonempty(pre, sep);
            assert(s@.take(i as int + 1) =~= pre.push(c));
        }
        if c == sep {
            done.push(cur);
            cur = Vec::new();
            proof {
                assert(done.deep_view() =~~= dv.push(split_on(pre, sep).last()));
                assert(dv.push(split_on(pre, sep).last()) =~= split_on(pre, sep));
                assert(done.deep_view().push(cur@) =~~= split_on(pre.push(c), sep));
            }
        } else {
            let ghost cv = cur@;
            cur.push(c);
            proof {
                assert(split_on(pre, sep).last() == cv);
                assert(done.deep_view() == dv);
                assert(done.deep_view().push(cur@) =~~= split_on(pre, sep).update(
                    split_on(pre, sep).len() - 1,
                    cv.push(c),
                ));
            }
        }
        i = i + 1;
    }
    proof {
        assert(s@.take(s@.len() as int) =~= s@);
    }
    let ghost dvf = done.deep_view();
    let ghost cvf = cur@;
    done.push(cur);
    proof {
        assert(done.deep_view() =~~= dvf.push(cvf));
    }
    done
}

/// Append all characters of `src` to `out`.
pub fn push_all(out: &mut Vec<char>, src: &Vec<char>)
    ensures
        final(out)@ == old(out)@ + src@,
{
    let mut i: usize = 0;
    while i < src.len()
        invariant
            i <= src@.len(),
            out@ == old(out)@ + src@.take(i as int),
        decreases src@.len() - i,
    {
        out.push(src[i]);
        i = i + 1;
        proof {
            assert(old(out)@ + src@.take(i as int) =~= (old(out)@ + src@.take(i as int - 1)).push(
                src@[i as int - 1],
            ));
        }
    }
    proof {
        assert(old(out)@ + src@.take(src@.len() as int) =~= old(out)@ + src@);
    }
}

/// Join token vectors with a separator, as `join_with` describes.
pub fn join_chars(parts: &Vec<Vec<char>>, sep: char) -> (r: Vec<char>)
    ensures
        r@ == join_with(parts.deep_view(), sep),
{
    let ghost pv = parts.deep_view();
    let mut out: Vec<char> = Vec::new();
    if parts.len() == 0 {
        return out;
    }
    proof {
        assert(pv[0] =~= parts@[0]@);
    }
    push_all(&mut out, &parts[0]);
    proof {
        assert(out@ =~= pv[0]);
        assert(pv.take(1) =~= seq![pv[0]]);
        assert(join_with(pv.take(1), sep) == pv[0]);
    }
    let mut k: usize = 1;
    while k < parts.len()
        invariant
            1 <= k <= pv.len(),
            pv == parts.deep_view(),
            pv.len() == parts@.len(),
            out@ == join_with(pv.take(k as int), sep),
        decreases pv.len() - k,
    {
        out.push(sep);
        proof {
            assert(pv[k as int] =~= parts@[k as int]@);
        }
        push_all(&mut out, &parts[k]);
        proof {
            lemma_join_concat(pv.take(k as int), seq![pv[k as int]], sep);
            assert(pv.take(k as int + 1) =~= pv.take(k as int) + seq![pv[k as int]]);
            assert(out@ =~= join_with(pv.take(k as int), sep) + seq![sep] + pv[k as int]);
        }
        k = k + 1;
    }
    proof {
        assert(pv.take(pv.len() as int) =~= pv);
    }
    out
}

/// The deep view of a vector of character vectors is the sequence of the
/// elements' views.
pub proof fn lemma_chars_deep_view(v: &Vec<Vec<char>>)
    ensures
        v.deep_view().len() == v@.len(),
        forall|i: int| 0 <= i < v@.len() ==> v.deep_view()[i] == v@[i]@,
{
    assert forall|i: int| 0 <= i < v@.len() implies v.deep_view()[i] == v@[i]@ by {
        assert(v.deep_view()[i] =~= v@[i]@);
    }
}

/// The deep view of a vector of strings is the sequence of the strings'
/// views.
pub proof fn lemma_strings_deep_view(v: &Vec<String>)
    ensures
        v.deep_view().len() == v@.len(),
        forall|i: int| 0 <= i < v@.len() ==> v.deep_view()[i] == v@[i]@,
{
}

/// The character vectors of a vector of strings.
pub fn strings_to_chars(v: &Vec<String>) -> (r: Vec<Vec<char>>)
    ensures
        r.deep_view() == v.deep_view(),
{
    let mut out: Vec<Vec<char>> = Vec::new();
    let mut i: usize = 0;
    while i < v.len()
        invariant
            i <= v@.len(),
            out@.len() == i,
            forall|k: int| 0 <= k < i ==> (#[trigger] out@[k])@ == v@[k]@,
        decreases v@.len() - i,
    {
        let c = chars_of(v[i].as_str());
        out.push(c);
        i = i + 1;
    }
    proof {
        lemma_chars_deep_view(&out);
        lemma_strings_deep_view(v);
        assert(out.deep_view() =~= v.deep_view());
    }
    out
}

/// Whether a character vector holds the given character.
pub fn contains_char(v: &Vec<char>, c: char) -> (r: bool)
    ensures
        r == v@.contains(c),
{
    let mut i: usize = 0;
    while i < v.len()
        invariant
            i <= v@.len(),
            forall|j: int| 0 <= j < i ==> v@[j] != c,
        decreases v@.len() - i,
    {
        if v[i] == c {
            return true;
        }
        i = i + 1;
    }
    false
}

/// Equality of two character vectors, decided character by character.
pub fn chars_eq(a: &Vec<char>, b: &Vec<char>) -> (r: bool)
    ensures
        r == (a@ == b@),
{
    if a.len() != b.len() {
        return false;
    }
    let mut i: usize = 0;
    while i < a.len()
        invariant
            i <= a@.len(),
            a@.len() == b@.len(),
            forall|j: int| 0 <= j < i ==> a@[j] == b@[j],
        decreases a@.len() - i,
    {
        if a[i] != b[i] {
            return false;
        }
        i = i + 1;
    }
    proof {
        assert(a@ =~= b@);
    }
    true
}

/// Equality of a string slice and a character vector.
pub fn str_chars_eq(s: &str, v: &Vec<char>) -> (r: bool)
    ensures
        r == (s@ == v@),
{
    let n: usize = s.unicode_len();
    if n != v.len() {
        return false;
    }
    let mut i: usize = 0;
    while i < n
        invariant
            i <= n,
            n == s@.len(),
            s@.len() == v@.len(),
            forall|j: int| 0 <= j < i ==> s@[j] == v@[j],
        decreases n - i,
    {
        if s.get_char(i) != v[i] {
            return false;
        }
        i = i + 1;
    }
    proof {
        assert(s@ =~= v@);
    }
    true
}

/// Equality of two string slices, decided character by character.
pub fn str_eq(a: &str, b: &str) -> (r: bool)
    ensures
        r == (a@ == b@),
{
    let n: usize = a.unicode_len();
    if n != b.unicode_len() {
        return false;
    }
    let mut i: usize = 0;
    while i < n
        invariant
            i <= n,
            n == a@.len(),
            a@.len() == b@.len(),
            forall|j: int| 0 <= j < i ==> a@[j] == b@[j],
        decreases n - i,
    {
        if a.get_char(i) != b.get_char(i) {
            return false;
        }
        i = i + 1;
    }
    proof {
        assert(a@ =~= b@);
    }
    true
}

/// Whether a list of strings holds one whose characters are exactly `cs`.
pub fn contains_str_vec(v: &Vec<String>, cs: &Vec<char>) -> (r: bool)
    ensures
        r == v.deep_view().contains(cs@),
{
    proof {
        lemma_strings_deep_view(v);
    }
    let mut i: usize = 0;
    while i < v.len()
        invariant
            i <= v@.len(),
            v.deep_view().len() == v@.len(),
            forall|k: int| 0 <= k < v@.len() ==> v.deep_view()[k] == (#[trigger] v@[k])@,
            forall|k: int| 0 <= k < i ==> (#[trigger] v@[k])@ != cs@,
        decreases v@.len() - i,
    {
        if str_chars_eq(v[i].as_str(), cs) {
            proof {
                assert(v.deep_view()[i as int] == cs@);
            }
            return true;
        }
        i = i + 1;
    }
    proof {
        assert forall|k: int| 0 <= k < v.deep_view().len() implies v.deep_view()[k] != cs@ by {
            assert(v.deep_view()[k] == v@[k]@);
        }
    }
    false
}

/// The needle occurs in the haystack starting at position `i`.
pub open spec fn is_sub_at(hay: Seq<char>, needle: Seq<char>, i: int) -> bool {
    0 <= i && i + needle.len() <= hay.len() && hay.subrange(i, i + needle.len() as int) == needle
}

/// Substring containment: the needle occurs somewhere in the haystack.
pub open spec fn contains_sub(hay: Seq<char>, needle: Seq<char>) -> bool {
    exists|i: int| is_sub_at(hay, needle, i)
}

/// Substring search, character by character.
pub fn contains_chars(hay: &Vec<char>, needle: &Vec<char>) -> (r: bool)
    ensures
        r == contains_sub(hay@, needle@),
{
    if needle.len() > hay.len() {
        return false;
    }
    if needle.len() == 0 {
        proof {
            assert(hay@.subrange(0, 0) =~= needle@);
            assert(is_sub_at(hay@, needle@, 0));
        }
        return true;
    }
    let mut i: usize = 0;
    while i <= hay.len() - needle.len()
        invariant
            1 <= needle@.len() <= hay@.len(),
            hay@.len() <= usize::MAX,
            i <= hay@.len() - needle@.len() + 1,
            forall|j: int| 0 <= j < i ==> !is_sub_at(hay@, needle@, j),
        decreases hay@.len() - needle@.len() - i + 1,
    {
        let mut k: usize = 0;
        let mut hit: bool = true;
        while hit && k < needle.len()
            invariant
                i + needle@.len() <= hay@.len(),
                hay@.len() <= usize::MAX,
                k <= needle@.len(),
                hit ==> hay@.subrange(i as int, i as int + k as int) =~= needle@.take(k as int),
                !hit ==> !is_sub_at(hay@, needle@, i as int),
            decreases needle@.len() - k + (if hit { 1int } else { 0int }),
        {
            if hay[i + k] != needle[k] {
                proof {
                    assert(hay@.subrange(i as int, i as int + needle@.len() as int)[k as int]
                        == hay@[i + k]);
                }
                hit = false;
            } else {
                k = k + 1;
                proof {
                    assert(hay@.subrange(i as int, i as int + k as int) =~= needle@.take(
                        k as int,
                    ));
                }
            }
        }
        if hit {
            proof {
                assert(needle@.take(needle@.len() as int) =~= needle@);
                assert(hay@.subrange(i as int, i as int + needle@.len() as int) == needle@);
                assert(is_sub_at(hay@, needle@, i as int));
            }
            return true;
        }
        i = i + 1;
    }
    proof {
        assert forall|j: int| !is_sub_at(hay@, needle@, j) by {
            if 0 <= j && j + needle@.len() <= hay@.len() {
                assert(j < hay@.len() - needle@.len() + 1);
            }
        }
    }
    false
}

} // verus!
