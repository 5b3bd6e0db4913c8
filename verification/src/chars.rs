//! Character-sequence utilities shared by the naming, filtering and
//! container-layout logic: conversions between `str` and `Vec<char>`,
//! splitting and joining on a separator character, file-name extension
//! extraction, and ASCII case folding.

use vstd::prelude::*;

verus! {

/// Lower-cases a single character, ASCII letters only.
pub open spec fn lower_char(c: char) -> char {
    if 'A' <= c && c <= 'Z' {
        ((c as u8) + 32) as char
    } else {
        c
    }
}

/// ASCII-lower-cases every character of a sequence.
pub open spec fn lower_seq(s: Seq<char>) -> Seq<char> {
    s.map_values(|c: char| lower_char(c))
}

/// The parts of `s` delimited by `sep`: always at least one part, and
/// no part contains `sep`.
pub open spec fn split_on(s: Seq<char>, sep: char) -> Seq<Seq<char>>
    decreases s.len(),
{
    if s.len() == 0 {
        seq![Seq::<char>::empty()]
    } else if s[0] == sep {
        seq![Seq::<char>::empty()] + split_on(s.drop_first(), sep)
    } else {
        let rest = split_on(s.drop_first(), sep);
        seq![seq![s[0]] + rest[0]] + rest.drop_first()
    }
}

/// The parts joined back together with `sep` between them.
pub open spec fn join_with(parts: Seq<Seq<char>>, sep: char) -> Seq<char>
    decreases parts.len(),
{
    if parts.len() == 0 {
        Seq::<char>::empty()
    } else if parts.len() == 1 {
        parts[0]
    } else {
        parts[0] + seq![sep] + join_with(parts.drop_first(), sep)
    }
}

pub proof fn lemma_split_on_len(s: Seq<char>, sep: char)
    ensures
        split_on(s, sep).len() >= 1,
    decreases s.len(),
{
    if s.len() == 0 {
    } else {
        lemma_split_on_len(s.drop_first(), sep);
    }
}

/// Every part produced by `split_on` is free of the separator.
pub proof fn lemma_split_on_parts_free(s: Seq<char>, sep: char)
    ensures
        forall|i: int|
            0 <= i < split_on(s, sep).len() ==> !(#[trigger] split_on(s, sep)[i]).contains(sep),
    decreases s.len(),
{
    if s.len() == 0 {
        assert forall|i: int| 0 <= i < split_on(s, sep).len() implies !(#[trigger] split_on(
            s,
            sep,
        )[i]).contains(sep) by {
            assert(split_on(s, sep)[i] =~= Seq::<char>::empty());
        }
    } else if s[0] == sep {
        lemma_split_on_parts_free(s.drop_first(), sep);
        assert forall|i: int| 0 <= i < split_on(s, sep).len() implies !(#[trigger] split_on(
            s,
            sep,
        )[i]).contains(sep) by {
            if i == 0 {
                assert(split_on(s, sep)[0] =~= Seq::<char>::empty());
            } else {
                assert(split_on(s, sep)[i] == split_on(s.drop_first(), sep)[i - 1]);
            }
        }
    } else {
        lemma_split_on_parts_free(s.drop_first(), sep);
        lemma_split_on_len(s.drop_first(), sep);
        let rest = split_on(s.drop_first(), sep);
        assert forall|i: int| 0 <= i < split_on(s, sep).len() implies !(#[trigger] split_on(
            s,
            sep,
        )[i]).contains(sep) by {
            if i == 0 {
                let part = seq![s[0]] + rest[0];
                assert(!rest[0].contains(sep));
                assert forall|j: int| 0 <= j < part.len() implies part[j] != sep by {
                    if j > 0 {
                        assert(part[j] == rest[0][j - 1]);
                        assert(rest[0].contains(sep) <==> exists|k: int|
                            0 <= k < rest[0].len() && rest[0][k] == sep);
                    }
                }
                assert(split_on(s, sep)[0] == part);
                assert(part.contains(sep) <==> exists|k: int|
                    0 <= k < part.len() && part[k] == sep);
            } else {
                assert(split_on(s, sep)[i] == rest[i]);
            }
        }
    }
}

/// Joining the parts of a split restores the original sequence.
pub proof fn lemma_join_split(s: Seq<char>, sep: char)
    ensures
        join_with(split_on(s, sep), sep) =~= s,
    decreases s.len(),
{
    if s.len() == 0 {
    } else if s[0] == sep {
        lemma_join_split(s.drop_first(), sep);
        lemma_split_on_len(s.drop_first(), sep);
        let parts = seq![Seq::<char>::empty()] + split_on(s.drop_first(), sep);
        assert(parts.drop_first() =~= split_on(s.drop_first(), sep));
        assert(join_with(parts, sep) =~= seq![sep] + join_with(split_on(s.drop_first(), sep), sep));
        assert(s =~= seq![s[0]] + s.drop_first());
    } else {
        lemma_join_split(s.drop_first(), sep);
        lemma_split_on_len(s.drop_first(), sep);
        let rest = split_on(s.drop_first(), sep);
        let parts = seq![seq![s[0]] + rest[0]] + rest.drop_first();
        if rest.len() == 1 {
            assert(parts.len() == 1);
            assert(join_with(parts, sep) == seq![s[0]] + rest[0]);
            assert(join_with(rest, sep) == rest[0]);
            assert(s =~= seq![s[0]] + s.drop_first());
        } else {
            assert(parts.drop_first() =~= rest.drop_first());
            assert(join_with(parts, sep) =~= seq![s[0]] + (rest[0] + seq![sep] + join_with(
                rest.drop_first(),
                sep,
            )));
            assert(join_with(rest, sep) == rest[0] + seq![sep] + join_with(rest.drop_first(), sep));
            assert(s =~= seq![s[0]] + s.drop_first());
        }
    }
}

/// A split reads back the parts of a join, provided no part contains
/// the separator.
pub proof fn lemma_split_join(parts: Seq<Seq<char>>, sep: char)
    requires
        parts.len() >= 1,
        forall|i: int| 0 <= i < parts.len() ==> !(#[trigger] parts[i]).contains(sep),
    ensures
        split_on(join_with(parts, sep), sep) =~~= parts,
    decreases parts.len(),
{
    if parts.len() == 1 {
        lemma_split_free(parts[0], sep);
        assert(join_with(parts, sep) == parts[0]);
        assert(split_on(parts[0], sep) =~~= seq![parts[0]]);
        assert(seq![parts[0]] =~~= parts);
    } else {
        lemma_split_join(parts.drop_first(), sep);
        let joined = join_with(parts, sep);
        assert(joined == parts[0] + seq![sep] + join_with(parts.drop_first(), sep));
        lemma_split_at_first_sep(joined, parts[0].len() as int, sep);
        assert(joined.take(parts[0].len() as int) =~= parts[0]);
        assert(joined.skip(parts[0].len() as int + 1) =~= join_with(parts.drop_first(), sep));
        assert(split_on(joined, sep) =~~= seq![parts[0]] + split_on(
            join_with(parts.drop_first(), sep),
            sep,
        ));
        assert(seq![parts[0]] + parts.drop_first() =~~= parts);
    }
}

/// Splitting a sequence that never holds the separator yields that one part.
pub proof fn lemma_split_free(s: Seq<char>, sep: char)
    requires
        !s.contains(sep),
    ensures
        split_on(s, sep) =~~= seq![s],
    decreases s.len(),
{
    if s.len() == 0 {
    } else {
        assert(s[0] != sep);
        assert(!s.drop_first().contains(sep)) by {
            if s.drop_first().contains(sep) {
                let k = choose|k: int| 0 <= k < s.drop_first().len() && s.drop_first()[k] == sep;
                assert(s[k + 1] == sep);
            }
        }
        lemma_split_free(s.drop_first(), sep);
        let rest = split_on(s.drop_first(), sep);
        assert(rest =~~= seq![s.drop_first()]);
        assert(seq![s[0]] + s.drop_first() =~= s);
    }
}

/// Splitting at the first separator: the prefix before it is the first
/// part, and the remainder splits on its own.
pub proof fn lemma_split_at_first_sep(s: Seq<char>, k: int, sep: char)
    requires
        0 <= k < s.len(),
        s[k] == sep,
        forall|j: int| 0 <= j < k ==> s[j] != sep,
    ensures
        split_on(s, sep) =~~= seq![s.take(k)] + split_on(s.skip(k + 1), sep),
    decreases k,
{
    if k == 0 {
        assert(s[0] == sep);
        assert(s.take(0) =~= Seq::<char>::empty());
        assert(s.drop_first() =~= s.skip(1));
    } else {
        assert(s[0] != sep);
        let t = s.drop_first();
        assert(t[k - 1] == sep);
        assert(forall|j: int| 0 <= j < k - 1 ==> t[j] != sep);
        lemma_split_at_first_sep(t, k - 1, sep);
        lemma_split_on_len(t.skip(k), sep);
        let rest = split_on(t, sep);
        assert(rest =~~= seq![t.take(k - 1)] + split_on(t.skip(k), sep));
        assert(rest[0] == t.take(k - 1));
        assert(seq![s[0]] + t.take(k - 1) =~= s.take(k));
        assert(rest.drop_first() =~~= split_on(t.skip(k), sep));
        assert(t.skip(k) =~= s.skip(k + 1));
    }
}

/// Joining concatenated part lists equals joining each list and placing
/// one separator between the results.
pub proof fn lemma_join_append(a: Seq<Seq<char>>, b: Seq<Seq<char>>, sep: char)
    requires
        a.len() >= 1,
        b.len() >= 1,
    ensures
        join_with(a + b, sep) =~= join_with(a, sep) + seq![sep] + join_with(b, sep),
    decreases a.len(),
{
    if a.len() == 1 {
        assert((a + b).drop_first() =~~= b);
        assert(join_with(a + b, sep) == (a + b)[0] + seq![sep] + join_with(b, sep));
        assert((a + b)[0] == a[0]);
        assert(join_with(a, sep) == a[0]);
    } else {
        lemma_join_append(a.drop_first(), b, sep);
        assert((a + b).drop_first() =~~= a.drop_first() + b);
        assert(join_with(a + b, sep) == (a + b)[0] + seq![sep] + join_with(
            a.drop_first() + b,
            sep,
        ));
    }
}

} // verus!

verus! {

/// How a split grows when one character is appended.
pub proof fn lemma_split_push(s: Seq<char>, c: char, sep: char)
    ensures
        c != sep ==> split_on(s.push(c), sep) =~~= split_on(s, sep).update(
            split_on(s, sep).len() - 1,
            split_on(s, sep).last().push(c),
        ),
        c == sep ==> split_on(s.push(c), sep) =~~= split_on(s, sep).push(Seq::<char>::empty()),
    decreases s.len(),
{
    lemma_split_on_len(s, sep);
    if s.len() == 0 {
        if c == sep {
            assert(s.push(c)[0] == sep);
            assert(s.push(c).drop_first() =~= Seq::<char>::empty());
            assert(split_on(Seq::<char>::empty(), sep) =~~= seq![Seq::<char>::empty()]);
            assert(split_on(s.push(c), sep) =~~= split_on(s, sep).push(Seq::<char>::empty()));
        } else {
            assert(s.push(c)[0] == c);
            assert(s.push(c).drop_first() =~= Seq::<char>::empty());
            let rest = split_on(Seq::<char>::empty(), sep);
            assert(split_on(s.push(c), sep) == seq![seq![c] + rest[0]] + rest.drop_first());
            assert(split_on(s.push(c), sep) =~~= split_on(s, sep).update(
                0,
                split_on(s, sep).last().push(c),
            ));
        }
    } else {
        let t = s.push(c);
        assert(t[0] == s[0]);
        assert(t.drop_first() =~= s.drop_first().push(c));
        lemma_split_push(s.drop_first(), c, sep);
        lemma_split_on_len(s.drop_first(), sep);
        let r = split_on(s.drop_first(), sep);
        let rp = split_on(s.drop_first().push(c), sep);
        let n = r.len() as int;
        if s[0] == sep {
            assert(split_on(t, sep) == seq![Seq::<char>::empty()] + rp);
            assert(split_on(s, sep) == seq![Seq::<char>::empty()] + r);
            if c == sep {
                assert(rp =~~= r.push(Seq::<char>::empty()));
                assert(split_on(t, sep) =~~= split_on(s, sep).push(Seq::<char>::empty()));
            } else {
                assert(rp =~~= r.update(n - 1, r.last().push(c)));
                assert(split_on(s, sep).last() == r.last());
                assert(split_on(t, sep) =~~= split_on(s, sep).update(
                    n,
                    split_on(s, sep).last().push(c),
                ));
            }
        } else {
            assert(split_on(t, sep) == seq![seq![t[0]] + rp[0]] + rp.drop_first());
            assert(split_on(s, sep) == seq![seq![s[0]] + r[0]] + r.drop_first());
            if c == sep {
                assert(rp =~~= r.push(Seq::<char>::empty()));
                assert(rp[0] == r[0]);
                assert(rp.drop_first() =~~= r.drop_first().push(Seq::<char>::empty()));
                assert(split_on(t, sep) =~~= split_on(s, sep).push(Seq::<char>::empty()));
            } else {
                assert(rp =~~= r.update(n - 1, r.last().push(c)));
                if n == 1 {
                    assert(rp[0] == r[0].push(c));
                    assert(rp.drop_first() =~~= r.drop_first());
                    assert(seq![t[0]] + r[0].push(c) =~= (seq![s[0]] + r[0]).push(c));
                    assert(split_on(s, sep).len() == 1);
                    assert(split_on(s, sep).last() == seq![s[0]] + r[0]);
                    assert(split_on(t, sep) =~~= split_on(s, sep).update(
                        0,
                        split_on(s, sep).last().push(c),
                    ));
                } else {
                    assert(rp[0] == r[0]);
                    assert(rp.drop_first() =~~= r.drop_first().update(n - 2, r.last().push(c)));
                    assert(split_on(s, sep).last() == r.last());
                    assert(split_on(t, sep) =~~= split_on(s, sep).update(
                        n - 1,
                        split_on(s, sep).last().push(c),
                    ));
                }
            }
        }
    }
}

/// The file-name extension of one path segment: the text after the
/// final dot, provided that dot is not the leading character.
pub open spec fn extension_split(f: Seq<char>) -> Option<Seq<char>>
    decreases f.len(),
{
    if f.len() <= 1 {
        None
    } else if f.last() == '.' {
        Some(Seq::<char>::empty())
    } else {
        match extension_split(f.drop_last()) {
            Some(e) => Some(e.push(f.last())),
            None => None,
        }
    }
}

/// Characterizes the extension by the position of the final dot.
pub proof fn lemma_extension_at(f: Seq<char>, j: int)
    requires
        1 <= j < f.len(),
        f[j] == '.',
        forall|k: int| j < k < f.len() ==> f[k] != '.',
    ensures
        extension_split(f) =~~= Some(f.skip(j + 1)),
    decreases f.len(),
{
    if j == f.len() - 1 {
        assert(f.last() == '.');
        assert(f.skip(j + 1) =~= Seq::<char>::empty());
    } else {
        assert(f.last() != '.');
        let d = f.drop_last();
        assert(d[j] == '.');
        lemma_extension_at(d, j);
        assert(extension_split(f) == Some(d.skip(j + 1).push(f.last())));
        assert(d.skip(j + 1).push(f.last()) =~= f.skip(j + 1));
    }
}

/// A segment without a dot past its first character has no extension.
pub proof fn lemma_extension_none(f: Seq<char>)
    requires
        forall|k: int| 1 <= k < f.len() ==> f[k] != '.',
    ensures
        extension_split(f) is None,
    decreases f.len(),
{
    if f.len() <= 1 {
    } else {
        assert(f.last() != '.');
        lemma_extension_none(f.drop_last());
    }
}

/// The views of a vector of character vectors.
pub open spec fn views_of(parts: Seq<Vec<char>>) -> Seq<Seq<char>> {
    parts.map_values(|p: Vec<char>| p@)
}

/// Collects the characters of a string slice.
pub fn str_chars(s: &str) -> (r: Vec<char>)
    ensures
        r@ == s@,
{
    let n = s.unicode_len();
    let mut r: Vec<char> = Vec::new();
    let mut i: usize = 0;
    while i < n
        invariant
            i <= n,
            n == s@.len(),
            r@ =~= s@.take(i as int),
        decreases n - i,
    {
        r.push(s.get_char(i));
        i = i + 1;
        proof {
            assert(r@ =~= s@.take(i as int));
        }
    }
    proof {
        assert(s@.take(n as int) =~= s@);
    }
    r
}

/// Builds a `String` from a sequence of characters.
/// Relies on `String`'s `FromIterator<char>`, which concatenates the
/// characters in order.
#[verifier::external_body]
pub(crate) fn chars_string(v: &Vec<char>) -> (r: String)
    ensures
        r@ == v@,
{
    v.iter().collect()
}

/// Compares a character vector with a string slice.
pub fn chars_eq_str(v: &Vec<char>, s: &str) -> (r: bool)
    ensures
        r == (v@ == s@),
{
    let n = s.unicode_len();
    if v.len() != n {
        return false;
    }
    let mut i: usize = 0;
    while i < n
        invariant
            i <= n,
            n == s@.len(),
            v@.len() == n,
            forall|j: int| 0 <= j < i ==> v@[j] == s@[j],
        decreases n - i,
    {
        if v[i] != s.get_char(i) {
            return false;
        }
        i = i + 1;
    }
    proof {
        assert(v@ =~= s@);
    }
    true
}

/// Splits a character vector on a separator.
pub fn split_chars(v: &Vec<char>, sep: char) -> (parts: Vec<Vec<char>>)
    ensures
        views_of(parts@) =~~= split_on(v@, sep),
{
    let mut parts: Vec<Vec<char>> = Vec::new();
    let mut cur: Vec<char> = Vec::new();
    let mut i: usize = 0;
    while i < v.len()
        invariant
            i <= v@.len(),
            views_of(parts@).push(cur@) =~~= split_on(v@.take(i as int), sep),
        decreases v@.len() - i,
    {
        proof {
            lemma_split_push(v@.take(i as int), v@[i as int], sep);
            assert(v@.take(i as int).push(v@[i as int]) =~= v@.take(i as int + 1));
            lemma_split_on_len(v@.take(i as int), sep);
        }
        if v[i] == sep {
            parts.push(cur);
            cur = Vec::new();
        } else {
            cur.push(v[i]);
        }
        i = i + 1;
    }
    proof {
        assert(v@.take(v@.len() as int) =~= v@);
    }
    parts.push(cur);
    parts
}

/// ASCII-lower-cases a character vector.
pub fn lower_chars(v: &Vec<char>) -> (r: Vec<char>)
    ensures
        r@ =~= lower_seq(v@),
{
    let mut r: Vec<char> = Vec::new();
    let mut i: usize = 0;
    while i < v.len()
        invariant
            i <= v@.len(),
            r@ =~= lower_seq(v@).take(i as int),
        decreases v@.len() - i,
    {
        let c = v[i];
        if 'A' <= c && c <= 'Z' {
            r.push(((c as u8) + 32) as char);
        } else {
            r.push(c);
        }
        i = i + 1;
        proof {
            assert(r@ =~= lower_seq(v@).take(i as int));
        }
    }
    r
}

/// Looks up the first occurrence of a character.
pub fn find_char(v: &Vec<char>, c: char) -> (r: Option<usize>)
    ensures
        match r {
            Some(i) => i < v@.len() && v@[i as int] == c && forall|j: int|
                0 <= j < i ==> v@[j] != c,
            None => !v@.contains(c),
        },
{
    let mut i: usize = 0;
    while i < v.len()
        invariant
            i <= v@.len(),
            forall|j: int| 0 <= j < i ==> v@[j] != c,
        decreases v@.len() - i,
    {
        if v[i] == c {
            return Some(i);
        }
        i = i + 1;
    }
    proof {
        if v@.contains(c) {
            let k = choose|k: int| 0 <= k < v@.len() && v@[k] == c;
        }
    }
    None
}

/// The trailing extension of a path segment, if it has one.
pub fn extension_of_segment(f: &Vec<char>) -> (r: Option<Vec<char>>)
    ensures
        match r {
            Some(e) => extension_split(f@) == Some(e@),
            None => extension_split(f@) is None,
        },
{
    let mut j: usize = f.len();
    while j > 1
        invariant
            j <= f@.len(),
            forall|k: int| j <= k < f@.len() ==> f@[k] != '.',
        decreases j,
    {
        if f[j - 1] == '.' {
            let mut e: Vec<char> = Vec::new();
            let mut i: usize = j;
            while i < f.len()
                invariant
                    j <= i <= f@.len(),
                    e@ =~= f@.subrange(j as int, i as int),
                decreases f@.len() - i,
            {
                e.push(f[i]);
                i = i + 1;
                proof {
                    assert(e@ =~= f@.subrange(j as int, i as int));
                }
            }
            proof {
                lemma_extension_at(f@, j - 1);
                assert(f@.subrange(j as int, f@.len() as int) =~= f@.skip(j as int));
            }
            return Some(e);
        }
        j = j - 1;
    }
    proof {
        lemma_extension_none(f@);
    }
    None
}


/// The index of the first occurrence of a character.
pub open spec fn first_index_of(s: Seq<char>, c: char) -> int
    decreases s.len(),
{
    if s.len() == 0 {
        0
    } else if s[0] == c {
        0
    } else {
        1 + first_index_of(s.drop_first(), c)
    }
}

/// Pins `first_index_of` by the properties of a first occurrence.
pub proof fn lemma_first_index_of(s: Seq<char>, c: char, i: int)
    requires
        0 <= i < s.len(),
        s[i] == c,
        forall|j: int| 0 <= j < i ==> s[j] != c,
    ensures
        first_index_of(s, c) == i,
    decreases i,
{
    if i == 0 {
    } else {
        assert(s[0] != c);
        assert(s.drop_first()[i - 1] == c);
        lemma_first_index_of(s.drop_first(), c, i - 1);
    }
}

/// Copies a range of a character vector.
pub fn subrange_chars(v: &Vec<char>, from: usize, to: usize) -> (r: Vec<char>)
    requires
        from <= to <= v@.len(),
    ensures
        r@ =~= v@.subrange(from as int, to as int),
{
    let mut r: Vec<char> = Vec::new();
    let mut i: usize = from;
    while i < to
        invariant
            from <= i <= to <= v@.len(),
            r@ =~= v@.subrange(from as int, i as int),
        decreases to - i,
    {
        r.push(v[i]);
        i = i + 1;
        proof {
            assert(r@ =~= v@.subrange(from as int, i as int));
        }
    }
    r
}


/// Appends the characters of a string slice to a character vector.
pub fn extend_str_chars(out: &mut Vec<char>, s: &str)
    ensures
        final(out)@ =~= old(out)@ + s@,
{
    let n = s.unicode_len();
    let mut k: usize = 0;
    while k < n
        invariant
            k <= n,
            n == s@.len(),
            out@ =~= old(out)@ + s@.take(k as int),
        decreases n - k,
    {
        out.push(s.get_char(k));
        k = k + 1;
        proof {
            assert(out@ =~= old(out)@ + s@.take(k as int));
        }
    }
    proof {
        assert(s@.take(n as int) =~= s@);
    }
}

/// Appends one character vector to another.
pub fn extend_vec_chars(out: &mut Vec<char>, part: &Vec<char>)
    ensures
        final(out)@ =~= old(out)@ + part@,
{
    let mut k: usize = 0;
    while k < part.len()
        invariant
            k <= part@.len(),
            out@ =~= old(out)@ + part@.take(k as int),
        decreases part@.len() - k,
    {
        out.push(part[k]);
        k = k + 1;
        proof {
            assert(out@ =~= old(out)@ + part@.take(k as int));
        }
    }
    proof {
        assert(part@.take(part@.len() as int) =~= part@);
    }
}


/// Compares two string slices by their characters.
pub fn str_eq(a: &str, b: &str) -> (r: bool)
    ensures
        r == (a@ == b@),
{
    let n = a.unicode_len();
    let m = b.unicode_len();
    if n != m {
        return false;
    }
    let mut i: usize = 0;
    while i < n
        invariant
            i <= n,
            n == a@.len(),
            n == b@.len(),
            forall|j: int| 0 <= j < i ==> a@[j] == b@[j],
        decreases n - i,
    {
        if a.get_char(i) != b.get_char(i) {
            return false;
        }
        i = i + 1;
    }
    proof {
        assert(a@ =~= b@);
    }
    true
}

} // verus!
