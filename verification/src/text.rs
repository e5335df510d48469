//! Splitting and joining of character sequences on a separator character.
//!
//! The cache format (one path per line) and the path and extension syntax
//! (components between `/`, suffixes after `,`) all reduce to splitting a
//! string on a single separator; persisting the cache is the inverse join.

use vstd::prelude::*;

verus! {

/// The parts of `s` delimited by `sep`: one part more than there are
/// separators, so the empty input gives one empty part.
pub open spec fn split_on(s: Seq<char>, sep: char) -> Seq<Seq<char>>
    decreases s.len(),
{
    if s.len() == 0 {
        seq![Seq::<char>::empty()]
    } else if s[0] == sep {
        seq![Seq::<char>::empty()] + split_on(s.drop_first(), sep)
    } else {
        let rest = split_on(s.drop_first(), sep);
        seq![seq![s[0]] + rest[0]] + rest.drop_first()
    }
}

/// The parts concatenated with one `sep` between consecutive parts.
pub open spec fn join_with(parts: Seq<Seq<char>>, sep: char) -> Seq<char>
    decreases parts.len(),
{
    if parts.len() == 0 {
        Seq::<char>::empty()
    } else if parts.len() == 1 {
        parts[0]
    } else {
        parts[0] + seq![sep] + join_with(parts.drop_first(), sep)
    }
}

/// No part holds the separator itself, so joining the parts is reversible.
pub open spec fn no_part_contains(parts: Seq<Seq<char>>, sep: char) -> bool {
    forall|i: int| 0 <= i < parts.len() ==> !(#[trigger] parts[i]).contains(sep)
}

/// Splitting always yields at least one part.
pub proof fn lemma_split_len(s: Seq<char>, sep: char)
    ensures
        split_on(s, sep).len() >= 1,
    decreases s.len(),
{
    if s.len() == 0 {
    } else if s[0] == sep {
    } else {
        lemma_split_len(s.drop_first(), sep)
    }
}

/// Splitting after a separator-free prefix `u` extends the first part of
/// the remainder's split by `u`.
pub proof fn lemma_split_append(u: Seq<char>, v: Seq<char>, sep: char)
    requires
        !u.contains(sep),
    ensures
        split_on(u + v, sep) == seq![u + split_on(v, sep)[0]] + split_on(v, sep).drop_first(),
    decreases u.len(),
{
    lemma_split_len(v, sep);
    let r = split_on(v, sep);
    if u.len() == 0 {
        assert(u + v =~= v);
        assert(u + r[0] =~= r[0]);
        assert(seq![r[0]] + r.drop_first() =~= r);
    } else {
        let w = u + v;
        assert(w[0] == u[0]);
        assert(u.contains(u[0]));
        assert(w.drop_first() =~= u.drop_first() + v);
        assert(!u.drop_first().contains(sep)) by {
            if u.drop_first().contains(sep) {
                let i = choose|i: int|
                    0 <= i < u.drop_first().len() && u.drop_first()[i] == sep;
                assert(u[i + 1] == sep);
                assert(u.contains(sep));
            }
        }
        lemma_split_append(u.drop_first(), v, sep);
        let r2 = split_on(u.drop_first() + v, sep);
        assert(r2 == seq![u.drop_first() + r[0]] + r.drop_first());
        assert(r2[0] == u.drop_first() + r[0]);
        assert(seq![u[0]] + (u.drop_first() + r[0]) =~= u + r[0]);
        assert(r2.drop_first() =~= r.drop_first());
        assert(split_on(w, sep) == seq![seq![w[0]] + r2[0]] + r2.drop_first());
        assert(seq![w[0]] + r2[0] =~= u + r[0]);
        assert(split_on(w, sep) =~= seq![u + r[0]] + r.drop_first());
    }
}

/// A separator-free string splits into exactly itself.
pub proof fn lemma_split_whole(s: Seq<char>, sep: char)
    requires
        !s.contains(sep),
    ensures
        split_on(s, sep) == seq![s],
{
    let e = Seq::<char>::empty();
    lemma_split_append(s, e, sep);
    assert(s + e =~= s);
    assert(split_on(e, sep) == seq![e]);
    assert(s + seq![e][0] =~= s);
    assert(seq![e].drop_first() =~= Seq::<Seq<char>>::empty());
    assert(seq![s + seq![e][0]] + seq![e].drop_first() =~= seq![s]);
}

/// Splitting undoes joining: if no part holds the separator, the split of
/// the joined string is exactly the original parts.
pub proof fn lemma_split_join(parts: Seq<Seq<char>>, sep: char)
    requires
        parts.len() >= 1,
        no_part_contains(parts, sep),
    ensures
        split_on(join_with(parts, sep), sep) == parts,
    decreases parts.len(),
{
    if parts.len() == 1 {
        assert(!parts[0].contains(sep));
        lemma_split_whole(parts[0], sep);
        assert(seq![parts[0]] =~= parts);
    } else {
        let rest = parts.drop_first();
        assert(forall|i: int| 0 <= i < rest.len() ==> rest[i] == parts[i + 1]);
        assert(no_part_contains(rest, sep));
        lemma_split_join(rest, sep);
        let t = join_with(rest, sep);
        let v = seq![sep] + t;
        assert(v[0] == sep);
        assert(v.drop_first() =~= t);
        assert(split_on(v, sep) == seq![Seq::<char>::empty()] + split_on(t, sep));
        assert(!parts[0].contains(sep));
        lemma_split_append(parts[0], v, sep);
        let r = split_on(v, sep);
        lemma_split_len(t, sep);
        assert(r[0] =~= Seq::<char>::empty());
        assert(r.drop_first() =~= split_on(t, sep));
        assert(parts[0] + v =~= join_with(parts, sep));
        assert(parts[0] + r[0] =~= parts[0]);
        assert(split_on(join_with(parts, sep), sep) == seq![parts[0] + r[0]] + r.drop_first());
        assert(seq![parts[0]] + split_on(t, sep) =~= parts);
        assert(split_on(join_with(parts, sep), sep) =~= parts);
    }
}

/// The split of the rest of `s`, with a separator-free piece already read
/// prepended to its first part.
pub open spec fn prepend_first(u: Seq<char>, r: Seq<Seq<char>>) -> Seq<Seq<char>>
    recommends
        r.len() >= 1,
{
    seq![u + r[0]] + r.drop_first()
}

/// Splits `s` on the separator character, keeping empty parts.
pub fn split_string(s: &str, sep: char) -> (parts: Vec<String>)
    ensures
        parts.deep_view() == split_on(s@, sep),
{
    let n: usize = s.unicode_len();
    let mut parts: Vec<String> = Vec::new();
    let mut start: usize = 0;
    let mut i: usize = 0;
    proof {
        lemma_split_len(s@, sep);
        assert(s@.subrange(0, 0) =~= Seq::<char>::empty());
        assert(s@.skip(0) =~= s@);
        assert(Seq::<char>::empty() + split_on(s@, sep)[0] =~= split_on(s@, sep)[0]);
        assert(parts.deep_view() + prepend_first(Seq::<char>::empty(), split_on(s@, sep))
            =~= split_on(s@, sep));
    }
    while i < n
        invariant
            n == s@.len(),
            start <= i <= n,
            !s@.subrange(start as int, i as int).contains(sep),
            parts.deep_view() + prepend_first(
                s@.subrange(start as int, i as int),
                split_on(s@.skip(i as int), sep),
            ) == split_on(s@, sep),
        decreases n - i,
    {
        let ghost u = s@.subrange(start as int, i as int);
        let ghost r = split_on(s@.skip(i as int), sep);
        proof {
            lemma_split_len(s@.skip(i as int), sep);
            lemma_split_len(s@.skip(i + 1), sep);
            assert(s@.skip(i as int)[0] == s@[i as int]);
            assert(s@.skip(i as int).drop_first() =~= s@.skip(i + 1));
        }
        let c = s.get_char(i);
        if c == sep {
            let ghost dv0 = parts.deep_view();
            let piece = s.substring_char(start, i);
            parts.push(piece.to_owned());
            proof {
                let r2 = split_on(s@.skip(i + 1), sep);
                assert(r == seq![Seq::<char>::empty()] + r2);
                assert(r[0] =~= Seq::<char>::empty());
                assert(r.drop_first() =~= r2);
                assert(u + r[0] =~= u);
                assert(prepend_first(u, r) =~= seq![u] + r2);
                assert(s@.subrange(i + 1, i + 1) =~= Seq::<char>::empty());
                assert(Seq::<char>::empty() + r2[0] =~= r2[0]);
                assert(prepend_first(Seq::<char>::empty(), r2) =~= r2);
                assert(parts.deep_view() =~= dv0.push(u));
                assert(dv0.push(u) + r2 =~= dv0 + (seq![u] + r2));
                assert(parts.deep_view() + prepend_first(Seq::<char>::empty(), r2)
                    =~= split_on(s@, sep));
            }
            start = i + 1;
        } else {
            proof {
                let r2 = split_on(s@.skip(i + 1), sep);
                assert(r == seq![seq![s@[i as int]] + r2[0]] + r2.drop_first());
                assert(r[0] == seq![s@[i as int]] + r2[0]);
                assert(r.drop_first() =~= r2.drop_first());
                let u2 = s@.subrange(start as int, i + 1);
                assert(u2 =~= u.push(s@[i as int]));
                assert(u + r[0] =~= u2 + r2[0]);
                assert(prepend_first(u, r) =~= prepend_first(u2, r2));
                assert(!u2.contains(sep)) by {
                    if u2.contains(sep) {
                        let k = choose|k: int| 0 <= k < u2.len() && u2[k] == sep;
                        if k < u.len() {
                            assert(u[k] == sep);
                            assert(u.contains(sep));
                        }
                    }
                }
            }
        }
        i = i + 1;
    }
    let ghost dv0 = parts.deep_view();
    let piece = s.substring_char(start, n);
    parts.push(piece.to_owned());
    proof {
        let u = s@.subrange(start as int, n as int);
        assert(s@.skip(n as int) =~= Seq::<char>::empty());
        let r = split_on(s@.skip(n as int), sep);
        assert(r == seq![Seq::<char>::empty()]);
        assert(u + r[0] =~= u);
        assert(r.drop_first() =~= Seq::<Seq<char>>::empty());
        assert(prepend_first(u, r) =~= seq![u]);
        assert(parts.deep_view() =~= dv0.push(u));
        assert(dv0.push(u) =~= dv0 + seq![u]);
        assert(parts.deep_view() =~= split_on(s@, sep));
    }
    parts
}

/// Joining a non-empty left half and a non-empty right half inserts one
/// separator between them.
pub proof fn lemma_join_append(a: Seq<Seq<char>>, b: Seq<Seq<char>>, sep: char)
    requires
        a.len() >= 1,
        b.len() >= 1,
    ensures
        join_with(a + b, sep) == join_with(a, sep) + seq![sep] + join_with(b, sep),
    decreases a.len(),
{
    if a.len() == 1 {
        assert((a + b)[0] == a[0]);
        assert((a + b).drop_first() =~= b);
        assert(join_with(a + b, sep) == a[0] + seq![sep] + join_with(b, sep));
        assert(join_with(a, sep) == a[0]);
    } else {
        lemma_join_append(a.drop_first(), b, sep);
        assert((a + b)[0] == a[0]);
        assert((a + b).drop_first() =~= a.drop_first() + b);
        assert(join_with(a + b, sep) == a[0] + seq![sep] + join_with(a.drop_first() + b, sep));
        assert(a[0] + seq![sep] + (join_with(a.drop_first(), sep) + seq![sep] + join_with(b, sep))
            =~= (a[0] + seq![sep] + join_with(a.drop_first(), sep)) + seq![sep] + join_with(
            b,
            sep,
        ));
    }
}

/// Joins the parts with a newline between consecutive parts, the cache
/// file's line format.
pub fn join_lines(parts: &Vec<String>) -> (out: String)
    ensures
        out@ == join_with(parts.deep_view(), '\n'),
{
    let mut out = String::new();
    let n: usize = parts.len();
    let mut i: usize = 0;
    proof {
        reveal_strlit("\n");
    }
    while i < n
        invariant
            n == parts@.len(),
            i <= n,
            "\n"@ == seq!['\n'],
            i == 0 ==> out@ == Seq::<char>::empty(),
            i >= 1 ==> out@ == join_with(parts.deep_view().take(i as int), '\n'),
        decreases n - i,
    {
        let ghost dv = parts.deep_view();
        if i == 0 {
            out.append(parts[0].as_str());
            proof {
                assert(dv.take(1) =~= seq![dv[0]]);
                assert(join_with(dv.take(1), '\n') == dv[0]);
                assert(out@ =~= dv[0]);
            }
        } else {
            out.append("\n");
            out.append(parts[i].as_str());
            proof {
                lemma_join_append(dv.take(i as int), seq![dv[i as int]], '\n');
                assert(dv.take(i as int) + seq![dv[i as int]] =~= dv.take(i + 1));
                assert(join_with(seq![dv[i as int]], '\n') == dv[i as int]);
                assert(out@ =~= join_with(dv.take(i + 1), '\n'));
            }
        }
        i = i + 1;
    }
    proof {
        if n == 0 {
            assert(parts.deep_view().len() == 0);
            assert(join_with(parts.deep_view(), '\n') == Seq::<char>::empty());
        } else {
            assert(parts.deep_view().take(n as int) =~= parts.deep_view());
        }
    }
    out
}

} // verus!
