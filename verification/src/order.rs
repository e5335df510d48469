//! Ordering of the pending queue.
//!
//! The queue for a run is the discovered candidates minus the done set,
//! arranged either as a fresh random permutation or by probed file size.
//! Every arrangement is proved to be a permutation: no path appears, or
//! disappears, through ordering.

use vstd::prelude::*;

use crate::cache::DoneSet;
use vstd::multiset::Multiset;
use vstd::seq_lib::lemma_multiset_commutative;

verus! {

broadcast use vstd::multiset::group_multiset_axioms;

/// An empty sequence carries an empty multiset.
proof fn lemma_empty_to_multiset<A>(s: Seq<A>)
    requires
        s.len() == 0,
    ensures
        s.to_multiset() == Multiset::<A>::empty(),
{
    s.to_multiset_ensures();
    vstd::multiset::lemma_multiset_empty_len(s.to_multiset());
    assert(s.to_multiset() =~= Multiset::<A>::empty());
}

/// Membership in a pushed sequence: the old members and the new element.
proof fn lemma_contains_push<A>(s: Seq<A>, x: A, p: A)
    ensures
        s.push(x).contains(p) <==> (s.contains(p) || p == x),
{
    if s.push(x).contains(p) {
        let j = choose|j: int| 0 <= j < s.push(x).len() && s.push(x)[j] == p;
        if j < s.len() {
            assert(s[j] == p);
        }
    }
    if s.contains(p) {
        let j = choose|j: int| 0 <= j < s.len() && s[j] == p;
        assert(s.push(x)[j] == p);
    }
    if p == x {
        assert(s.push(x)[s.len() as int] == p);
    }
}

/// Whether some element of `v` views to the same characters as `p`.
fn vec_contains_path(v: &Vec<String>, p: &String) -> (r: bool)
    ensures
        r == v.deep_view().contains(p@),
{
    let n: usize = v.len();
    let mut i: usize = 0;
    while i < n
        invariant
            n == v@.len(),
            i <= n,
            forall|j: int| 0 <= j < i ==> v.deep_view()[j] != p@,
        decreases n - i,
    {
        if p.eq(&v[i]) {
            proof {
                assert(v.deep_view()[i as int] == p@);
            }
            return true;
        }
        i = i + 1;
    }
    proof {
        if v.deep_view().contains(p@) {
            let j = choose|j: int| 0 <= j < v.deep_view().len() && v.deep_view()[j] == p@;
            assert(false);
        }
    }
    false
}

/// The pending queue before ordering: every discovered candidate that is
/// not yet done, each exactly once. The queue is exactly the candidate set
/// minus the done set.
pub fn compute_pending(candidates: &Vec<String>, done: &DoneSet) -> (pending: Vec<String>)
    ensures
        pending.deep_view().no_duplicates(),
        forall|p: Seq<char>|
            #[trigger] pending.deep_view().contains(p) <==> (candidates.deep_view().contains(p)
                && !done@.contains(p)),
        pending.deep_view().to_set() == candidates.deep_view().to_set().difference(done@),
        candidates.deep_view().no_duplicates() ==> pending.deep_view()
            == candidates.deep_view().filter((|p: Seq<char>| !done@.contains(p))),
{
    let mut pending: Vec<String> = Vec::new();
    let n: usize = candidates.len();
    let mut i: usize = 0;
    proof {
        reveal(Seq::filter);
        assert(candidates.deep_view().take(0) =~= Seq::<Seq<char>>::empty());
        assert(candidates.deep_view().take(0).filter((|p: Seq<char>| !done@.contains(p)))
            =~= Seq::<Seq<char>>::empty());
    }
    while i < n
        invariant
            n == candidates@.len(),
            i <= n,
            pending.deep_view().no_duplicates(),
            forall|p: Seq<char>|
                #[trigger] pending.deep_view().contains(p) <==> (candidates.deep_view().take(
                    i as int,
                ).contains(p) && !done@.contains(p)),
            candidates.deep_view().no_duplicates() ==> pending.deep_view()
                == candidates.deep_view().take(i as int).filter(
                (|p: Seq<char>| !done@.contains(p))),
        decreases n - i,
    {
        let ghost cv = candidates.deep_view()[i as int];
        let ghost pre = pending.deep_view();
        let c = &candidates[i];
        proof {
            assert(c@ == cv);
            assert(candidates.deep_view().take(i + 1) =~= candidates.deep_view().take(
                i as int,
            ).push(cv));
        }
        proof {
            reveal(Seq::filter);
            let fpred = (|p: Seq<char>| !done@.contains(p));
            let t = candidates.deep_view().take(i as int);
            let t1 = candidates.deep_view().take(i + 1);
            assert(t1.drop_last() =~= t);
            assert(t1.last() == cv);
            assert(t1.filter(fpred) == if fpred(cv) {
                t.filter(fpred).push(cv)
            } else {
                t.filter(fpred)
            });
        }
        let in_done = done.contains(c);
        if !in_done {
            let already = vec_contains_path(&pending, c);
            if !already {
                pending.push(c.clone());
                proof {
                    assert(pending.deep_view() =~= pre.push(cv));
                    assert forall|i1: int, j1: int|
                        0 <= i1 < j1 < pre.push(cv).len() implies pre.push(cv)[i1] != pre.push(
                        cv,
                    )[j1] by {
                        if j1 == pre.len() {
                            assert(pre[i1] != cv);
                        }
                    }
                    assert forall|p: Seq<char>| #[trigger]
                        pending.deep_view().contains(p) <==> (candidates.deep_view().take(
                            i + 1,
                        ).contains(p) && !done@.contains(p)) by {
                        lemma_contains_push(pre, cv, p);
                        lemma_contains_push(
                            candidates.deep_view().take(i as int),
                            cv,
                            p,
                        );
                    }
                }
            } else {
                proof {
                    assert forall|p: Seq<char>| #[trigger]
                        pending.deep_view().contains(p) <==> (candidates.deep_view().take(
                            i + 1,
                        ).contains(p) && !done@.contains(p)) by {
                        lemma_contains_push(
                            candidates.deep_view().take(i as int),
                            cv,
                            p,
                        );
                    }
                    if candidates.deep_view().no_duplicates() {
                        let t = candidates.deep_view().take(i as int);
                        let j = choose|j: int| 0 <= j < t.len() && t[j] == cv;
                        assert(candidates.deep_view()[j] == candidates.deep_view()[i as int]);
                        assert(false);
                    }
                }
            }
        } else {
            proof {
                assert forall|p: Seq<char>| #[trigger]
                    pending.deep_view().contains(p) <==> (candidates.deep_view().take(
                        i + 1,
                    ).contains(p) && !done@.contains(p)) by {
                    lemma_contains_push(candidates.deep_view().take(i as int), cv, p);
                }
            }
        }
        i = i + 1;
    }
    proof {
        assert(candidates.deep_view().take(n as int) =~= candidates.deep_view());
        assert(pending.deep_view().to_set() =~= candidates.deep_view().to_set().difference(
            done@,
        ));
    }
    pending
}

/// A candidate path together with its probed size in bytes. A path whose
/// size could not be read is probed as zero rather than aborting the sort.
pub struct SizedPath {
    pub path: String,
    pub size: u64,
}

/// The paths of the entries, in order.
pub open spec fn path_views(s: Seq<SizedPath>) -> Seq<Seq<char>> {
    s.map_values(|e: SizedPath| e.path@)
}

/// Non-decreasing by size.
pub open spec fn sorted_ascending(s: Seq<SizedPath>) -> bool {
    forall|i: int, j: int|
        #![trigger s[i], s[j]]
        0 <= i < j < s.len() ==> s[i].size <= s[j].size
}

/// Non-increasing by size.
pub open spec fn sorted_descending(s: Seq<SizedPath>) -> bool {
    forall|i: int, j: int|
        #![trigger s[i], s[j]]
        0 <= i < j < s.len() ==> s[i].size >= s[j].size
}

/// The multiset facts shared by every step of a sort: inserting `e` at
/// position `j` adds exactly `e` to the entries and `e`'s path to the paths.
proof fn lemma_insert_multisets(pre: Seq<SizedPath>, e: SizedPath, j: int)
    requires
        0 <= j <= pre.len(),
    ensures
        pre.insert(j, e).to_multiset() == pre.to_multiset().insert(e),
        path_views(pre.insert(j, e)).to_multiset() == path_views(pre).to_multiset().insert(
            e.path@,
        ),
{
    let a = pre.subrange(0, j);
    let b = pre.subrange(j, pre.len() as int);
    assert(pre.insert(j, e) =~= a.push(e) + b);
    assert(pre =~= a + b);
    lemma_multiset_commutative(a.push(e), b);
    lemma_multiset_commutative(a, b);
    a.to_multiset_ensures();
    assert(a.push(e).to_multiset() == a.to_multiset().insert(e));
    assert(pre.insert(j, e).to_multiset() =~= pre.to_multiset().insert(e));
    let pa = path_views(a);
    let pb = path_views(b);
    assert(path_views(pre.insert(j, e)) =~= pa.push(e.path@) + pb);
    assert(path_views(pre) =~= pa + pb);
    lemma_multiset_commutative(pa.push(e.path@), pb);
    lemma_multiset_commutative(pa, pb);
    pa.to_multiset_ensures();
    assert(path_views(pre.insert(j, e)).to_multiset() =~= path_views(pre).to_multiset().insert(
        e.path@,
    ));
}

/// Inserts `e` into an ascending run, after any entries of equal size.
fn insert_ascending(out: &mut Vec<SizedPath>, e: SizedPath)
    requires
        sorted_ascending(old(out)@),
    ensures
        sorted_ascending(final(out)@),
        final(out)@.to_multiset() == old(out)@.to_multiset().insert(e),
        path_views(final(out)@).to_multiset() == path_views(old(out)@).to_multiset().insert(
            e.path@,
        ),
{
    let n: usize = out.len();
    let e_size = e.size;
    let mut j: usize = 0;
    while j < n && out[j].size <= e_size
        invariant
            n == out@.len(),
            j <= n,
            out@ == old(out)@,
            e_size == e.size,
            forall|k: int| 0 <= k < j ==> (#[trigger] out@[k]).size <= e.size,
        decreases n - j,
    {
        j = j + 1;
    }
    let ghost pre = out@;
    out.insert(j, e);
    proof {
        pre.insert_ensures(j as int, e);
        lemma_insert_multisets(pre, e, j as int);
        assert forall|i1: int, j1: int|
            0 <= i1 < j1 < out@.len() implies (#[trigger] out@[i1]).size <= (
        #[trigger] out@[j1]).size by {
            if i1 < j && j1 == j {
            } else if i1 == j && j1 > j {
                assert(out@[j1] == pre[j1 - 1]);
                assert(pre[j as int].size > e.size);
                assert(pre[j1 - 1].size >= pre[j as int].size);
            } else if i1 < j && j1 > j {
                assert(out@[j1] == pre[j1 - 1]);
            } else if i1 > j && j1 > j {
                assert(out@[i1] == pre[i1 - 1]);
                assert(out@[j1] == pre[j1 - 1]);
            }
        }
    }
}

/// Inserts `e` into a descending run, after any entries of equal size.
fn insert_descending(out: &mut Vec<SizedPath>, e: SizedPath)
    requires
        sorted_descending(old(out)@),
    ensures
        sorted_descending(final(out)@),
        final(out)@.to_multiset() == old(out)@.to_multiset().insert(e),
        path_views(final(out)@).to_multiset() == path_views(old(out)@).to_multiset().insert(
            e.path@,
        ),
{
    let n: usize = out.len();
    let e_size = e.size;
    let mut j: usize = 0;
    while j < n && out[j].size >= e_size
        invariant
            n == out@.len(),
            j <= n,
            out@ == old(out)@,
            e_size == e.size,
            forall|k: int| 0 <= k < j ==> (#[trigger] out@[k]).size >= e.size,
        decreases n - j,
    {
        j = j + 1;
    }
    let ghost pre = out@;
    out.insert(j, e);
    proof {
        pre.insert_ensures(j as int, e);
        lemma_insert_multisets(pre, e, j as int);
        assert forall|i1: int, j1: int|
            0 <= i1 < j1 < out@.len() implies (#[trigger] out@[i1]).size >= (
        #[trigger] out@[j1]).size by {
            if i1 < j && j1 == j {
            } else if i1 == j && j1 > j {
                assert(out@[j1] == pre[j1 - 1]);
                assert(pre[j as int].size < e.size);
                assert(pre[j1 - 1].size <= pre[j as int].size);
            } else if i1 < j && j1 > j {
                assert(out@[j1] == pre[j1 - 1]);
            } else if i1 > j && j1 > j {
                assert(out@[i1] == pre[i1 - 1]);
                assert(out@[j1] == pre[j1 - 1]);
            }
        }
    }
}

/// The permutation facts every ordering shares, derived from multiset
/// equality of the path views: membership and freedom from duplicates
/// carry over.
proof fn lemma_permutation_preserves(a: Seq<Seq<char>>, b: Seq<Seq<char>>)
    requires
        a.to_multiset() == b.to_multiset(),
    ensures
        forall|p: Seq<char>| #[trigger] a.contains(p) <==> b.contains(p),
        b.no_duplicates() ==> a.no_duplicates(),
{
    assert forall|p: Seq<char>| #[trigger] a.contains(p) <==> b.contains(p) by {
        a.to_multiset_ensures();
        b.to_multiset_ensures();
        assert(a.contains(p) <==> a.to_multiset().count(p) > 0);
        assert(b.contains(p) <==> b.to_multiset().count(p) > 0);
    }
    if b.no_duplicates() {
        a.to_multiset_ensures();
        b.to_multiset_ensures();
        b.lemma_multiset_has_no_duplicates();
        a.lemma_multiset_has_no_duplicates_conv();
    }
}

/// Sorts ascending by size: smallest first. Entries of equal size keep
/// their relative order. The result is a permutation of the input.
pub fn sort_smallest_first(items: Vec<SizedPath>) -> (out: Vec<SizedPath>)
    ensures
        sorted_ascending(out@),
        out@.to_multiset() == items@.to_multiset(),
        path_views(out@).to_multiset() == path_views(items@).to_multiset(),
        forall|p: Seq<char>| #[trigger]
            path_views(out@).contains(p) <==> path_views(items@).contains(p),
        path_views(items@).no_duplicates() ==> path_views(out@).no_duplicates(),
{
    let ghost orig = items@;
    let mut work = items;
    let mut out: Vec<SizedPath> = Vec::new();
    proof {
        lemma_empty_to_multiset(out@);
        assert(path_views(out@).len() == 0);
        lemma_empty_to_multiset(path_views(out@));
        assert(out@.to_multiset().add(work@.to_multiset()) =~= work@.to_multiset());
        assert(path_views(out@).to_multiset().add(path_views(work@).to_multiset())
            =~= path_views(work@).to_multiset());
    }
    loop
        invariant
            sorted_ascending(out@),
            out@.to_multiset().add(work@.to_multiset()) == orig.to_multiset(),
            path_views(out@).to_multiset().add(path_views(work@).to_multiset()) == path_views(
                orig,
            ).to_multiset(),
        ensures
            work@.len() == 0,
        decreases work@.len(),
    {
        let ghost w0 = work@;
        let ghost o0 = out@;
        if work.len() == 0 {
            break ;
        }
        let e = work.remove(0);
        proof {
            assert(work@ =~= w0.remove(0));
            w0.to_multiset_ensures();
            assert(w0[0] == e);
            assert(w0.contains(e));
            assert(work@.to_multiset() == w0.to_multiset().remove(e));
            assert(w0.to_multiset().count(e) > 0);
            assert(path_views(work@) =~= path_views(w0).remove(0));
            path_views(w0).to_multiset_ensures();
            assert(path_views(w0)[0] == e.path@);
            assert(path_views(w0).contains(e.path@));
            assert(path_views(work@).to_multiset() == path_views(w0).to_multiset().remove(
                e.path@,
            ));
            assert(path_views(w0).to_multiset().count(e.path@) > 0);
        }
        insert_ascending(&mut out, e);
        proof {
            assert(out@.to_multiset() == o0.to_multiset().insert(e));
            assert(out@.to_multiset().add(work@.to_multiset()) =~= orig.to_multiset());
            assert(path_views(out@).to_multiset().add(path_views(work@).to_multiset())
                =~= path_views(orig).to_multiset());
        }
    }
    proof {
        assert(work@.len() == 0);
        lemma_empty_to_multiset(work@);
        assert(path_views(work@) =~= Seq::<Seq<char>>::empty());
        lemma_empty_to_multiset(path_views(work@));
        assert(out@.to_multiset() =~= orig.to_multiset());
        assert(path_views(out@).to_multiset() =~= path_views(orig).to_multiset());
        lemma_permutation_preserves(path_views(out@), path_views(orig));
    }
    out
}

/// Sorts descending by size: largest first. Entries of equal size keep
/// their relative order. The result is a permutation of the input.
pub fn sort_largest_first(items: Vec<SizedPath>) -> (out: Vec<SizedPath>)
    ensures
        sorted_descending(out@),
        out@.to_multiset() == items@.to_multiset(),
        path_views(out@).to_multiset() == path_views(items@).to_multiset(),
        forall|p: Seq<char>| #[trigger]
            path_views(out@).contains(p) <==> path_views(items@).contains(p),
        path_views(items@).no_duplicates() ==> path_views(out@).no_duplicates(),
{
    let ghost orig = items@;
    let mut work = items;
    let mut out: Vec<SizedPath> = Vec::new();
    proof {
        lemma_empty_to_multiset(out@);
        assert(path_views(out@).len() == 0);
        lemma_empty_to_multiset(path_views(out@));
        assert(out@.to_multiset().add(work@.to_multiset()) =~= work@.to_multiset());
        assert(path_views(out@).to_multiset().add(path_views(work@).to_multiset())
            =~= path_views(work@).to_multiset());
    }
    loop
        invariant
            sorted_descending(out@),
            out@.to_multiset().add(work@.to_multiset()) == orig.to_multiset(),
            path_views(out@).to_multiset().add(path_views(work@).to_multiset()) == path_views(
                orig,
            ).to_multiset(),
        ensures
            work@.len() == 0,
        decreases work@.len(),
    {
        let ghost w0 = work@;
        let ghost o0 = out@;
        if work.len() == 0 {
            break ;
        }
        let e = work.remove(0);
        proof {
            assert(work@ =~= w0.remove(0));
            w0.to_multiset_ensures();
            assert(w0[0] == e);
            assert(w0.contains(e));
            assert(work@.to_multiset() == w0.to_multiset().remove(e));
            assert(w0.to_multiset().count(e) > 0);
            assert(path_views(work@) =~= path_views(w0).remove(0));
            path_views(w0).to_multiset_ensures();
            assert(path_views(w0)[0] == e.path@);
            assert(path_views(w0).contains(e.path@));
            assert(path_views(work@).to_multiset() == path_views(w0).to_multiset().remove(
                e.path@,
            ));
            assert(path_views(w0).to_multiset().count(e.path@) > 0);
        }
        insert_descending(&mut out, e);
        proof {
            assert(out@.to_multiset() == o0.to_multiset().insert(e));
            assert(out@.to_multiset().add(work@.to_multiset()) =~= orig.to_multiset());
            assert(path_views(out@).to_multiset().add(path_views(work@).to_multiset())
                =~= path_views(orig).to_multiset());
        }
    }
    proof {
        assert(work@.len() == 0);
        lemma_empty_to_multiset(work@);
        assert(path_views(work@) =~= Seq::<Seq<char>>::empty());
        lemma_empty_to_multiset(path_views(work@));
        assert(out@.to_multiset() =~= orig.to_multiset());
        assert(path_views(out@).to_multiset() =~= path_views(orig).to_multiset());
        lemma_permutation_preserves(path_views(out@), path_views(orig));
    }
    out
}

/// Pairs each path with its probed size, in order.
pub fn attach_sizes(paths: &Vec<String>, sizes: &Vec<u64>) -> (out: Vec<SizedPath>)
    requires
        paths@.len() == sizes@.len(),
    ensures
        path_views(out@) == paths.deep_view(),
        out@.len() == paths@.len(),
        forall|i: int| 0 <= i < out@.len() ==> (#[trigger] out@[i]).size == sizes@[i],
{
    let n: usize = paths.len();
    let mut out: Vec<SizedPath> = Vec::new();
    let mut i: usize = 0;
    proof {
        assert(path_views(out@) =~= paths.deep_view().take(0));
    }
    while i < n
        invariant
            n == paths@.len(),
            n == sizes@.len(),
            i <= n,
            out@.len() == i,
            path_views(out@) == paths.deep_view().take(i as int),
            forall|k: int| 0 <= k < i ==> (#[trigger] out@[k]).size == sizes@[k],
        decreases n - i,
    {
        let ghost o0 = out@;
        let entry = SizedPath { path: paths[i].clone(), size: sizes[i] };
        out.push(entry);
        proof {
            assert(path_views(out@) =~= path_views(o0).push(paths.deep_view()[i as int]));
            assert(paths.deep_view().take(i + 1) =~= paths.deep_view().take(i as int).push(
                paths.deep_view()[i as int],
            ));
        }
        i = i + 1;
    }
    proof {
        assert(paths.deep_view().take(n as int) =~= paths.deep_view());
    }
    out
}

/// The paths of the entries, in the entries' order.
pub fn extract_paths(items: &Vec<SizedPath>) -> (out: Vec<String>)
    ensures
        out.deep_view() == path_views(items@),
{
    let n: usize = items.len();
    let mut out: Vec<String> = Vec::new();
    let mut i: usize = 0;
    proof {
        assert(out.deep_view() =~= path_views(items@.take(0)));
    }
    while i < n
        invariant
            n == items@.len(),
            i <= n,
            out.deep_view() == path_views(items@.take(i as int)),
        decreases n - i,
    {
        let ghost o0 = out.deep_view();
        out.push(items[i].path.clone());
        proof {
            assert(out.deep_view() =~= o0.push(items@[i as int].path@));
            assert(items@.take(i + 1) =~= items@.take(i as int).push(items@[i as int]));
            assert(path_views(items@.take(i + 1)) =~= path_views(items@.take(i as int)).push(
                items@[i as int].path@,
            ));
        }
        i = i + 1;
    }
    proof {
        assert(items@.take(n as int) =~= items@);
    }
    out
}

/// Relies on `rand::random_range` over the range `0..n`: the result is a
/// value of the range, so strictly below `n`.
#[verifier::external_body]
fn random_below(n: usize) -> (r: usize)
    requires
        n > 0,
    ensures
        r < n,
{
    rand::random_range(0..n)
}

/// A fresh random permutation of the paths, reshuffled each run.
pub fn shuffle(items: Vec<String>) -> (out: Vec<String>)
    ensures
        out.deep_view().to_multiset() == items.deep_view().to_multiset(),
        forall|p: Seq<char>| #[trigger]
            out.deep_view().contains(p) <==> items.deep_view().contains(p),
        items.deep_view().no_duplicates() ==> out.deep_view().no_duplicates(),
{
    let ghost orig = items.deep_view();
    let mut work = items;
    let mut out: Vec<String> = Vec::new();
    proof {
        assert(out.deep_view() =~= Seq::<Seq<char>>::empty());
        lemma_empty_to_multiset(out.deep_view());
        assert(out.deep_view().to_multiset().add(work.deep_view().to_multiset())
            =~= work.deep_view().to_multiset());
    }
    while work.len() > 0
        invariant
            out.deep_view().to_multiset().add(work.deep_view().to_multiset())
                == orig.to_multiset(),
        decreases work@.len(),
    {
        let ghost w0 = work.deep_view();
        let ghost o0 = out.deep_view();
        let j = random_below(work.len());
        let x = work.remove(j);
        out.push(x);
        proof {
            assert(work.deep_view() =~= w0.remove(j as int));
            w0.to_multiset_ensures();
            assert(work.deep_view().to_multiset() == w0.to_multiset().remove(w0[j as int]));
            assert(out.deep_view() =~= o0.push(w0[j as int]));
            o0.to_multiset_ensures();
            assert(out.deep_view().to_multiset() == o0.to_multiset().insert(w0[j as int]));
            assert(w0.to_multiset().count(w0[j as int]) > 0);
            assert(out.deep_view().to_multiset().add(work.deep_view().to_multiset())
                =~= orig.to_multiset());
        }
    }
    proof {
        assert(work.deep_view() =~= Seq::<Seq<char>>::empty());
        lemma_empty_to_multiset(work.deep_view());
        assert(out.deep_view().to_multiset() =~= orig.to_multiset());
        lemma_permutation_preserves(out.deep_view(), orig);
    }
    out
}

} // verus!
