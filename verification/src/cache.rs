//! The persisted record of completed paths.
//!
//! A `DoneSet` is a duplicate-free collection of paths whose abstract value
//! is a set of character sequences. It is persisted as newline-joined lines
//! and loaded back by splitting on newlines; a trailing empty segment from a
//! final newline is not a path.

use vstd::prelude::*;

use crate::text::join_lines;
use crate::text::join_with;
use crate::text::lemma_split_join;
use crate::text::no_part_contains;
use crate::text::split_on;
use crate::text::split_string;

verus! {

/// A path the cache can persist faithfully: non-empty, and free of the
/// newline that separates cache lines.
pub open spec fn valid_path(p: Seq<char>) -> bool {
    p.len() > 0 && !p.contains('\n')
}

/// The set of paths already confirmed as done.
pub struct DoneSet {
    paths: Vec<String>,
}

impl View for DoneSet {
    type V = Set<Seq<char>>;

    closed spec fn view(&self) -> Set<Seq<char>> {
        self.paths.deep_view().to_set()
    }
}

impl DoneSet {
    /// The recorded paths, in the order they were recorded.
    pub closed spec fn seq_view(self) -> Seq<Seq<char>> {
        self.paths.deep_view()
    }

    /// No path is recorded twice.
    pub closed spec fn wf(self) -> bool {
        self.paths.deep_view().no_duplicates()
    }

    /// An empty set: the state of a first run with no cache.
    pub fn new() -> (s: DoneSet)
        ensures
            s.wf(),
            s@ == Set::<Seq<char>>::empty(),
            s.seq_view() == Seq::<Seq<char>>::empty(),
    {
        let s = DoneSet { paths: Vec::new() };
        proof {
            assert(s.paths.deep_view() =~= Seq::<Seq<char>>::empty());
            assert(s.paths.deep_view().to_set() =~= Set::<Seq<char>>::empty());
        }
        s
    }

    /// How many paths are recorded.
    pub fn len(&self) -> (n: usize)
        ensures
            n == self.seq_view().len(),
    {
        self.paths.len()
    }

    /// Whether `p` was already confirmed as done.
    pub fn contains(&self, p: &String) -> (r: bool)
        ensures
            r == self@.contains(p@),
    {
        let n: usize = self.paths.len();
        let mut i: usize = 0;
        while i < n
            invariant
                n == self.paths@.len(),
                i <= n,
                forall|j: int| 0 <= j < i ==> self.paths.deep_view()[j] != p@,
            decreases n - i,
        {
            if p.eq(&self.paths[i]) {
                proof {
                    assert(self.paths.deep_view()[i as int] == p@);
                    assert(self.paths.deep_view().contains(p@));
                }
                return true;
            }
            i = i + 1;
        }
        proof {
            if self.paths.deep_view().contains(p@) {
                let j = choose|j: int|
                    0 <= j < self.paths.deep_view().len() && self.paths.deep_view()[j] == p@;
                assert(false);
            }
        }
        false
    }

    /// Records `p` as done. Confirming a path a second time leaves the set
    /// unchanged: membership is a set union, never a repeated entry.
    pub fn insert(&mut self, p: String)
        requires
            old(self).wf(),
        ensures
            final(self).wf(),
            final(self)@ == old(self)@.insert(p@),
            old(self)@.contains(p@) ==> final(self).seq_view() == old(self).seq_view(),
            !old(self)@.contains(p@) ==> final(self).seq_view() == old(self).seq_view().push(
                p@,
            ),
    {
        let present = self.contains(&p);
        if !present {
            let ghost dv0 = self.paths.deep_view();
            proof {
                if dv0.contains(p@) {
                    let j = choose|j: int| 0 <= j < dv0.len() && dv0[j] == p@;
                    assert(dv0.to_set().contains(p@));
                }
            }
            self.paths.push(p);
            proof {
                assert(self.paths.deep_view() =~= dv0.push(p@));
                dv0.lemma_push_to_set_commute(p@);
                assert forall|i: int, j: int|
                    0 <= i < j < dv0.push(p@).len() implies dv0.push(p@)[i] != dv0.push(p@)[j] by {
                    if j == dv0.len() {
                        assert(dv0[i] != p@);
                    }
                }
            }
        } else {
            proof {
                assert(old(self)@.insert(p@) =~= old(self)@);
            }
        }
    }

    /// The set this value denotes is exactly the set of its recorded paths.
    pub proof fn lemma_seq_view_to_set(self)
        ensures
            self.seq_view().to_set() == self@,
    {
    }

    /// The cache file's content for this set: the recorded paths joined by
    /// newlines.
    pub fn serialize(&self) -> (out: String)
        ensures
            out@ == join_with(self.seq_view(), '\n'),
    {
        join_lines(&self.paths)
    }

    /// Loads a set from cache file content, dropping a trailing empty
    /// segment left by a final newline and any repeated lines.
    pub fn parse(content: &str) -> (s: DoneSet)
        ensures
            s.wf(),
            s@ == parse_lines(content@).to_set(),
    {
        let mut parts = split_string(content, '\n');
        let ghost all = parts.deep_view();
        proof {
            crate::text::lemma_split_len(content@, '\n');
        }
        let last: usize = parts.len() - 1;
        let mut dropped = false;
        if parts[last].as_str().is_empty() {
            parts.pop();
            dropped = true;
        }
        proof {
            assert(all.last() == all[last as int]);
            if dropped {
                assert(all[last as int].len() == 0);
                assert(all.last() =~= Seq::<char>::empty());
                assert(parts.deep_view() =~= all.drop_last());
                assert(parse_lines(content@) == all.drop_last());
            } else {
                assert(all.last() != Seq::<char>::empty());
                assert(parse_lines(content@) == all);
            }
            assert(parts.deep_view() == parse_lines(content@));
        }
        let ghost lines = parts.deep_view();
        let mut s = DoneSet::new();
        let n: usize = parts.len();
        let mut i: usize = 0;
        proof {
            assert(lines.take(0) =~= Seq::<Seq<char>>::empty());
            assert(lines.take(0).to_set() =~= Set::<Seq<char>>::empty());
        }
        while i < n
            invariant
                n == parts@.len(),
                i <= n,
                lines == parts.deep_view(),
                s.wf(),
                s@ == lines.take(i as int).to_set(),
            decreases n - i,
        {
            s.insert(parts[i].clone());
            proof {
                assert(lines.take(i + 1) =~= lines.take(i as int).push(lines[i as int]));
                lines.take(i as int).lemma_push_to_set_commute(lines[i as int]);
            }
            i = i + 1;
        }
        proof {
            assert(lines.take(n as int) =~= lines);
        }
        s
    }
}

/// The paths that cache file content denotes: its newline-separated lines,
/// without a trailing empty segment from a final newline.
pub open spec fn parse_lines(content: Seq<char>) -> Seq<Seq<char>> {
    let parts = split_on(content, '\n');
    if parts.last() == Seq::<char>::empty() {
        parts.drop_last()
    } else {
        parts
    }
}

/// Round trip: persisting a `DoneSet` and loading the result back yields
/// exactly the persisted paths, and so an identical set.
pub proof fn lemma_persist_round_trip(d: DoneSet)
    requires
        forall|i: int| 0 <= i < d.seq_view().len() ==> valid_path(#[trigger] d.seq_view()[i]),
    ensures
        parse_lines(join_with(d.seq_view(), '\n')) == d.seq_view(),
        parse_lines(join_with(d.seq_view(), '\n')).to_set() == d@,
{
    let sv = d.seq_view();
    if sv.len() == 0 {
        assert(join_with(sv, '\n') == Seq::<char>::empty());
        let parts = split_on(Seq::<char>::empty(), '\n');
        assert(parts == seq![Seq::<char>::empty()]);
        assert(parts.last() == Seq::<char>::empty());
        assert(parts.drop_last() =~= Seq::<Seq<char>>::empty());
        assert(parse_lines(join_with(sv, '\n')) =~= sv);
    } else {
        assert(no_part_contains(sv, '\n')) by {
            assert forall|i: int| 0 <= i < sv.len() implies !(#[trigger] sv[i]).contains('\n') by {
                assert(valid_path(sv[i]));
            }
        }
        lemma_split_join(sv, '\n');
        assert(split_on(join_with(sv, '\n'), '\n') == sv);
        assert(valid_path(sv[sv.len() - 1]));
        assert(sv.last().len() > 0);
        assert(sv.last() != Seq::<char>::empty());
        assert(parse_lines(join_with(sv, '\n')) == sv);
    }
    assert(d@ == d.seq_view().to_set());
}

/// Confirming the same path twice leaves the set of done paths exactly as
/// one confirmation leaves it.
pub proof fn lemma_confirm_idempotent(done: Set<Seq<char>>, p: Seq<char>)
    ensures
        done.insert(p).insert(p) == done.insert(p),
{
    assert(done.insert(p).insert(p) =~= done.insert(p));
}

} // verus!
