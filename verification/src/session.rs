//! The interactive review state machine.
//!
//! A session walks the ordered pending queue front to back. For each path
//! the editor is launched and one line of input is read; the line's first
//! character confirms the path as done, skips it, or ends the session.
//! Confirmed paths join the done set at once, so a crash after a
//! confirmation never loses it: durability is the caller's single write of
//! the serialized done set after each confirming step.

use vstd::prelude::*;

use crate::cache::DoneSet;
use crate::config::OrderMode;
use crate::order::attach_sizes;
use crate::order::compute_pending;
use crate::order::extract_paths;
use crate::order::shuffle;
use crate::order::sort_largest_first;
use crate::order::sort_smallest_first;
use crate::text::join_with;

verus! {

/// The user's answer for the path being reviewed.
#[derive(Clone, Copy, Debug, PartialEq, Eq)]
pub enum Decision {
    /// The path is done: record it and move on.
    Confirm,
    /// The path is not done: move on without recording it.
    Skip,
    /// End the session, leaving the remaining paths pending.
    Quit,
}

/// The decision an input line denotes: `y` confirms, `n` skips, and a
/// missing line or any other first character quits.
pub open spec fn decision_of(line: Seq<char>) -> Decision {
    if line.len() == 0 {
        Decision::Quit
    } else if line[0] == 'y' {
        Decision::Confirm
    } else if line[0] == 'n' {
        Decision::Skip
    } else {
        Decision::Quit
    }
}

/// Reads the decision off an input line's first character.
pub fn parse_decision(line: &str) -> (d: Decision)
    ensures
        d == decision_of(line@),
{
    if line.is_empty() {
        Decision::Quit
    } else {
        let c = line.get_char(0);
        if c == 'y' {
            Decision::Confirm
        } else if c == 'n' {
            Decision::Skip
        } else {
            Decision::Quit
        }
    }
}

/// The review session: the fixed pending queue, the cursor into it, and
/// the set of paths confirmed done.
pub struct ReviewSession {
    pending: Vec<String>,
    cursor: usize,
    done: DoneSet,
}

impl ReviewSession {
    /// The queue for this run, fixed at session start.
    pub closed spec fn pending_view(self) -> Seq<Seq<char>> {
        self.pending.deep_view()
    }

    /// The next position to present.
    pub closed spec fn cursor_view(self) -> int {
        self.cursor as int
    }

    /// The set of paths confirmed done, including those loaded from cache.
    pub closed spec fn done_view(self) -> Set<Seq<char>> {
        self.done@
    }

    /// The done paths in recording order, as they would be persisted.
    pub closed spec fn done_seq(self) -> Seq<Seq<char>> {
        self.done.seq_view()
    }

    /// The session has presented its last path, or was quit.
    pub open spec fn is_finished(self) -> bool {
        self.cursor_view() >= self.pending_view().len()
    }

    /// The session invariant: the cursor stays in bounds, no pending path
    /// repeats, and every path at or past the cursor is still not done.
    pub closed spec fn wf(self) -> bool {
        &&& self.done.wf()
        &&& self.cursor <= self.pending.deep_view().len()
        &&& self.pending.deep_view().no_duplicates()
        &&& forall|i: int|
            self.cursor <= i < self.pending.deep_view().len() ==> !self.done@.contains(
                #[trigger] self.pending.deep_view()[i],
            )
    }

    /// Starts a session on an already ordered queue. An empty queue starts
    /// the session already finished: nothing is ever presented.
    pub fn new(pending: Vec<String>, done: DoneSet) -> (s: ReviewSession)
        requires
            done.wf(),
            pending.deep_view().no_duplicates(),
            forall|i: int|
                0 <= i < pending.deep_view().len() ==> !done@.contains(
                    #[trigger] pending.deep_view()[i],
                ),
        ensures
            s.wf(),
            s.pending_view() == pending.deep_view(),
            s.cursor_view() == 0,
            s.done_view() == done@,
            s.done_seq() == done.seq_view(),
            s.is_finished() <==> pending.deep_view().len() == 0,
    {
        ReviewSession { pending, cursor: 0, done }
    }

    /// Whether the session is over.
    pub fn finished(&self) -> (r: bool)
        ensures
            r == self.is_finished(),
    {
        self.cursor >= self.pending.len()
    }

    /// The cursor's position, for the progress message.
    pub fn position(&self) -> (p: usize)
        ensures
            p == self.cursor_view(),
    {
        self.cursor
    }

    /// How many paths this run's queue holds, for the progress message.
    pub fn total(&self) -> (t: usize)
        ensures
            t == self.pending_view().len(),
    {
        self.pending.len()
    }

    /// The path presently under review.
    pub fn current(&self) -> (p: String)
        requires
            !self.is_finished(),
        ensures
            p@ == self.pending_view()[self.cursor_view()],
    {
        self.pending[self.cursor].clone()
    }

    /// One transition from awaiting a decision on the current path:
    /// confirming records the path and advances, skipping advances, and
    /// quitting moves the cursor past the end. The paths never confirmed
    /// stay outside the done set, so they are pending again next run.
    pub fn step(&mut self, d: Decision) -> (confirmed: bool)
        requires
            old(self).wf(),
            !old(self).is_finished(),
        ensures
            final(self).wf(),
            final(self).pending_view() == old(self).pending_view(),
            confirmed == (d == Decision::Confirm),
            d == Decision::Confirm ==> {
                &&& final(self).cursor_view() == old(self).cursor_view() + 1
                &&& final(self).done_view() == old(self).done_view().insert(
                    old(self).pending_view()[old(self).cursor_view()],
                )
                &&& final(self).done_seq() == old(self).done_seq().push(
                    old(self).pending_view()[old(self).cursor_view()],
                )
            },
            d == Decision::Skip ==> final(self).cursor_view() == old(self).cursor_view() + 1
                && final(self).done_view() == old(self).done_view() && final(self).done_seq()
                == old(self).done_seq(),
            d == Decision::Quit ==> final(self).is_finished() && final(self).done_view() == old(
                self,
            ).done_view() && final(self).done_seq() == old(self).done_seq(),
    {
        match d {
            Decision::Confirm => {
                let ghost pre = *self;
                proof {
                    broadcast use vstd::std_specs::vec::axiom_spec_len;

                    assert(self.pending.len() == self.pending@.len());
                }
                let p = self.pending[self.cursor].clone();
                proof {
                    assert(p@ == pre.pending.deep_view()[pre.cursor as int]);
                    assert(!pre.done@.contains(p@));
                }
                self.done.insert(p);
                self.cursor = self.cursor + 1;
                proof {
                    assert forall|i: int|
                        self.cursor <= i < self.pending.deep_view().len() implies !self.done@
                        .contains(#[trigger] self.pending.deep_view()[i]) by {
                        assert(self.pending.deep_view()[i] != pre.pending.deep_view()[pre.cursor as int]);
                        assert(!pre.done@.contains(self.pending.deep_view()[i]));
                    }
                }
                true
            },
            Decision::Skip => {
                proof {
                    broadcast use vstd::std_specs::vec::axiom_spec_len;

                    assert(self.pending.len() == self.pending@.len());
                }
                self.cursor = self.cursor + 1;
                false
            },
            Decision::Quit => {
                self.cursor = self.pending.len();
                false
            },
        }
    }

    /// The cache file content recording this session's done set.
    pub fn serialize_done(&self) -> (out: String)
        ensures
            out@ == join_with(self.done_seq(), '\n'),
    {
        self.done.serialize()
    }

    /// The resumability invariant: at every point of a session, the paths
    /// at or past the cursor are disjoint from the done set, so whatever a
    /// run leaves unconfirmed is pending again on the next run.
    pub proof fn lemma_remaining_pending_not_done(self)
        requires
            self.wf(),
        ensures
            forall|i: int|
                self.cursor_view() <= i < self.pending_view().len() ==> !self.done_view().contains(
                    #[trigger] self.pending_view()[i],
                ),
    {
    }

    /// The done paths recorded so far form exactly the done set.
    pub proof fn lemma_done_seq_is_done_set(self)
        ensures
            self.done_seq().to_set() == self.done_view(),
    {
        self.done.lemma_seq_view_to_set();
    }
}

/// Builds the session for one run: the pending queue is the candidates
/// minus the done set, arranged by the selected mode. `sizes[i]` must be
/// the probed size of `pending[i]`; it is read only for the size modes.
pub fn start_session(pending: Vec<String>, sizes: &Vec<u64>, mode: OrderMode, done: DoneSet) -> (s:
    ReviewSession)
    requires
        done.wf(),
        pending.deep_view().no_duplicates(),
        forall|i: int|
            0 <= i < pending.deep_view().len() ==> !done@.contains(
                #[trigger] pending.deep_view()[i],
            ),
        (mode is SmallestFirst || mode is LargestFirst) ==> sizes@.len() == pending@.len(),
    ensures
        s.wf(),
        s.cursor_view() == 0,
        s.done_view() == done@,
        s.pending_view().to_multiset() == pending.deep_view().to_multiset(),
        forall|p: Seq<char>| #[trigger]
            s.pending_view().contains(p) <==> pending.deep_view().contains(p),
{
    let ghost pv = pending.deep_view();
    let ordered: Vec<String> = match mode {
        OrderMode::Random => shuffle(pending),
        OrderMode::SmallestFirst => {
            let entries = attach_sizes(&pending, sizes);
            let sorted = sort_smallest_first(entries);
            extract_paths(&sorted)
        },
        OrderMode::LargestFirst => {
            let entries = attach_sizes(&pending, sizes);
            let sorted = sort_largest_first(entries);
            extract_paths(&sorted)
        },
    };
    proof {
        assert(ordered.deep_view().to_multiset() == pv.to_multiset());
        assert(ordered.deep_view().no_duplicates());
        assert forall|i: int|
            0 <= i < ordered.deep_view().len() implies !done@.contains(
            #[trigger] ordered.deep_view()[i],
        ) by {
            assert(ordered.deep_view().contains(ordered.deep_view()[i]));
            assert(pv.contains(ordered.deep_view()[i]));
            let j = choose|j: int| 0 <= j < pv.len() && pv[j] == ordered.deep_view()[i];
            assert(!done@.contains(pv[j]));
        }
    }
    ReviewSession::new(ordered, done)
}

/// The full preparation of a run in one step, for callers that order
/// randomly: discovery's candidates minus the done set, shuffled.
pub fn start_random_session(candidates: &Vec<String>, done: DoneSet) -> (s: ReviewSession)
    requires
        done.wf(),
    ensures
        s.wf(),
        s.cursor_view() == 0,
        s.done_view() == done@,
        forall|p: Seq<char>| #[trigger]
            s.pending_view().contains(p) <==> (candidates.deep_view().contains(p)
                && !done@.contains(p)),
{
    let pending = compute_pending(candidates, &done);
    proof {
        assert forall|i: int|
            0 <= i < pending.deep_view().len() implies !done@.contains(
            #[trigger] pending.deep_view()[i],
        ) by {
            assert(pending.deep_view().contains(pending.deep_view()[i]));
        }
    }
    let sizes: Vec<u64> = Vec::new();
    start_session(pending, &sizes, OrderMode::Random, done)
}

} // verus!
