use vstd::prelude::*;

verus! {

/// Identifies a planned commit: its position in the plan.
pub type CommitId = usize;

/// How far the commits of one route have been built.
#[derive(Debug, Clone, Copy, PartialEq, Eq, Structural)]
pub enum RouteBuildState {
    /// No commit yet; holds the route's number of stops.
    Untouched(usize),
    /// Every stop has a commit; holds the last one.
    Built(CommitId),
    /// Commits exist for the stops up to the first index, inclusive; holds
    /// the route's number of stops and the commit of that last stop.
    Pending(usize, usize, CommitId),
}

impl RouteBuildState {
    /// The number of stops that have a commit, for a route of `len` stops.
    pub open spec fn built_count(self, len: nat) -> nat {
        match self {
            RouteBuildState::Untouched(_) => 0,
            RouteBuildState::Pending(idx, _, _) => (idx + 1) as nat,
            RouteBuildState::Built(_) => len,
        }
    }

    /// The number of stops still without a commit, for a route of `len` stops.
    pub open spec fn remaining(self, len: nat) -> nat {
        (len - self.built_count(len)) as nat
    }

    /// The index of the next stop to build.
    pub open spec fn next_index(self) -> int {
        match self {
            RouteBuildState::Pending(idx, _, _) => idx + 1,
            _ => 0,
        }
    }

    /// The last commit built, if any.
    pub open spec fn head(self) -> Option<CommitId> {
        match self {
            RouteBuildState::Untouched(_) => None,
            RouteBuildState::Pending(_, _, c) => Some(c),
            RouteBuildState::Built(c) => Some(c),
        }
    }

    /// Nothing is built yet of a route of `len` stops.
    pub open spec fn untouched_for(self, len: nat) -> bool {
        self matches RouteBuildState::Untouched(l) && l == len
    }

    /// A state for a route of `len` stops, where a pending route may have
    /// built its last stop already.
    pub open spec fn loosely_fits(self, len: nat) -> bool {
        match self {
            RouteBuildState::Untouched(l) => l == len && len >= 1,
            RouteBuildState::Pending(idx, l, _) => l == len && idx < len,
            RouteBuildState::Built(_) => true,
        }
    }

    /// A state for a route of `len` stops, where a pending route still has a
    /// stop to build.
    pub open spec fn fits(self, len: nat) -> bool {
        match self {
            RouteBuildState::Untouched(l) => l == len && len >= 1,
            RouteBuildState::Pending(idx, l, _) => l == len && idx + 1 < len,
            RouteBuildState::Built(_) => true,
        }
    }

    /// `next` is reachable from `self` by the transitions: the built index
    /// never goes back, the length never changes, and a built route stays
    /// as it is.
    pub open spec fn advanced_to(self, next: RouteBuildState) -> bool {
        match self {
            RouteBuildState::Untouched(len) => match next {
                RouteBuildState::Untouched(l) => l == len,
                RouteBuildState::Pending(_, l, _) => l == len,
                RouteBuildState::Built(_) => true,
            },
            RouteBuildState::Pending(idx, len, _) => match next {
                RouteBuildState::Untouched(_) => false,
                RouteBuildState::Pending(i, l, _) => idx <= i && l == len,
                RouteBuildState::Built(_) => true,
            },
            RouteBuildState::Built(c) => next == RouteBuildState::Built(c),
        }
    }

    /// The state after a merge commit `commit` for the stop after the last built.
    pub open spec fn after_merge(self, commit: CommitId) -> RouteBuildState {
        match self {
            RouteBuildState::Untouched(max) => RouteBuildState::Pending(0, max, commit),
            RouteBuildState::Pending(idx, max, _) => if idx + 2 == max {
                RouteBuildState::Built(commit)
            } else {
                RouteBuildState::Pending((idx + 1) as usize, max, commit)
            },
            RouteBuildState::Built(_) => self,
        }
    }

    /// The last commit built, if any.
    pub fn commit(&self) -> (r: Option<CommitId>)
        ensures
            r == self.head(),
    {
        match self {
            RouteBuildState::Built(commit) => Some(*commit),
            RouteBuildState::Pending(_, _, commit) => Some(*commit),
            RouteBuildState::Untouched(_) => None,
        }
    }

    /// Whether every stop has a commit.
    pub fn is_built(&self) -> (r: bool)
        ensures
            r == self is Built,
    {
        match self {
            RouteBuildState::Built(_) => true,
            _ => false,
        }
    }

    /// Advances by one stop, whose commit is `commit`: used after a merge
    /// commit, where the stop is the one after the last built.
    pub fn did_commit(self, commit: CommitId) -> (r: RouteBuildState)
        requires
            !(self is Built),
            self matches RouteBuildState::Pending(idx, max, _) ==> idx + 1 < max,
        ensures
            r == self.after_merge(commit),
    {
        match self {
            RouteBuildState::Pending(idx, max, _) => {
                if idx == max - 2 {
                    RouteBuildState::Built(commit)
                } else {
                    RouteBuildState::Pending(idx + 1, max, commit)
                }
            },
            RouteBuildState::Untouched(max) => RouteBuildState::Pending(0, max, commit),
            RouteBuildState::Built(_) => self,
        }
    }

    /// Records that the stop at `index`, the one after the last built, has
    /// the commit `commit`.
    pub fn did_stop(self, index: usize, commit: CommitId) -> (r: RouteBuildState)
        requires
            !(self is Built),
            index as int == self.next_index(),
            self matches RouteBuildState::Untouched(max) ==> index < max,
            self matches RouteBuildState::Pending(_, max, _) ==> index < max,
        ensures
            r == match self {
                RouteBuildState::Untouched(max) => if index + 1 == max {
                    RouteBuildState::Built(commit)
                } else {
                    RouteBuildState::Pending(index, max, commit)
                },
                RouteBuildState::Pending(_, max, _) => if index + 1 == max {
                    RouteBuildState::Built(commit)
                } else {
                    RouteBuildState::Pending(index, max, commit)
                },
                RouteBuildState::Built(_) => self,
            },
    {
        match self {
            RouteBuildState::Untouched(max) | RouteBuildState::Pending(_, max, _) => {
                if index == max - 1 {
                    RouteBuildState::Built(commit)
                } else {
                    RouteBuildState::Pending(index, max, commit)
                }
            },
            RouteBuildState::Built(_) => self,
        }
    }
}

/// A merge moves a state forward, by one stop.
pub proof fn lemma_merge_advances(s: RouteBuildState, len: nat, commit: CommitId)
    requires
        s.fits(len),
        !(s is Built),
    ensures
        s.advanced_to(s.after_merge(commit)),
        s.after_merge(commit).loosely_fits(len),
        s.after_merge(commit).remaining(len) + 1 == s.remaining(len),
        s.after_merge(commit).built_count(len) == s.built_count(len) + 1,
        s.after_merge(commit).head() == Some(commit),
        s.built_count(len) == s.next_index(),
{
}

/// The order of states is transitive.
pub proof fn lemma_advanced_transitive(a: RouteBuildState, b: RouteBuildState, c: RouteBuildState)
    requires
        a.advanced_to(b),
        b.advanced_to(c),
    ensures
        a.advanced_to(c),
{
}

/// Every state is reachable from itself.
pub proof fn lemma_advanced_reflexive(a: RouteBuildState)
    ensures
        a.advanced_to(a),
{
}

} // verus!
