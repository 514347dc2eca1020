use vstd::prelude::*;
use crate::conflicts::StopGroup;
use crate::model::{GitRoute, GitStop, stop_ids};
use crate::state::{CommitId, RouteBuildState};

verus! {

/// A commit to create: its content is a stop, it goes on the branch of route
/// `branch`, and afterwards the branches of the routes in `fast_forward`
/// move to it as well.
#[derive(Debug)]
pub struct PlannedCommit {
    pub stop: GitStop,
    pub parents: Vec<CommitId>,
    pub branch: usize,
    pub fast_forward: Vec<usize>,
}

/// The stop ids of a set of stop groups.
pub open spec fn group_keys(cs: Seq<StopGroup>) -> Seq<Seq<char>> {
    Seq::new(cs.len(), |e: int| cs[e].stop_id@)
}

/// The first index from `from` on whose id is among `keys`, or the length
/// of `ids` if there is none.
pub open spec fn stop_point(ids: Seq<Seq<char>>, keys: Seq<Seq<char>>, from: int) -> int
    decreases ids.len() - from,
{
    if from >= ids.len() {
        ids.len() as int
    } else if keys.contains(ids[from]) {
        from
    } else {
        stop_point(ids, keys, from + 1)
    }
}

pub(crate) proof fn lemma_stop_point(ids: Seq<Seq<char>>, keys: Seq<Seq<char>>, from: int)
    requires
        0 <= from <= ids.len(),
    ensures
        from <= stop_point(ids, keys, from) <= ids.len(),
        stop_point(ids, keys, from) < ids.len() ==> keys.contains(ids[stop_point(ids, keys, from)]),
        forall|k: int| from <= k < stop_point(ids, keys, from) ==> !keys.contains(#[trigger] ids[k]),
    decreases ids.len() - from,
{
    if from < ids.len() && !keys.contains(ids[from]) {
        lemma_stop_point(ids, keys, from + 1);
    }
}

/// The parents of the commit for stop `k`, where building resumed at `from`
/// after `previous`, and the first new commit has the id `base`.
pub open spec fn parent_list(previous: RouteBuildState, from: int, k: int, base: int) -> Seq<CommitId> {
    if k == from {
        match previous.head() {
            Some(c) => seq![c],
            None => Seq::empty(),
        }
    } else {
        seq![(base + k - from - 1) as usize]
    }
}

/// The state after the stops `from..k` were built on top of `previous`.
pub open spec fn built_until(previous: RouteBuildState, from: int, k: int, len: nat, base: int) -> RouteBuildState {
    if k == from {
        previous
    } else if k == len {
        RouteBuildState::Built((base + k - from - 1) as usize)
    } else {
        RouteBuildState::Pending((k - 1) as usize, len as usize, (base + k - from - 1) as usize)
    }
}

/// `c` is the plain commit of stop `stop` with `parents` on branch `branch`.
pub open spec fn planned(c: PlannedCommit, stop: GitStop, parents: Seq<CommitId>, branch: usize) -> bool {
    &&& c.stop == stop
    &&& c.parents@ == parents
    &&& c.branch == branch
    &&& c.fast_forward@.len() == 0
}

/// What building route `route_idx`, with stops `stops`, on its own from
/// `previous` does: `plan` becomes `next`, and the new state is `r`.
pub open spec fn built_alone(
    route_idx: usize,
    stops: Seq<GitStop>,
    previous: RouteBuildState,
    keys: Seq<Seq<char>>,
    plan: Seq<PlannedCommit>,
    next: Seq<PlannedCommit>,
    r: RouteBuildState,
) -> bool {
    let len = stops.len();
    let base = plan.len() as int;
    let from = previous.next_index();
    let stop = stop_point(stop_ids(stops), keys, from);
    &&& r.fits(len)
    &&& previous.advanced_to(r)
    &&& r.remaining(len) <= previous.remaining(len)
    &&& next.take(base) == plan
    &&& previous is Built ==> r == previous && next == plan
    &&& previous is Pending && from >= len ==> r == RouteBuildState::Built(previous.head()->0) && next == plan
    &&& !(previous is Built) && from < len ==> {
        &&& 0 <= from <= stop <= len
        &&& next.len() == base + stop - from
        &&& forall|x: int|
            from <= x < stop ==> planned(
                #[trigger] next[base + x - from],
                stops[x],
                parent_list(previous, from, x, base),
                route_idx,
            )
        &&& r == built_until(previous, from, stop, len, base)
    }
}

/// What a planned commit holds, as plain values.
pub struct CommitView {
    pub stop: GitStop,
    pub parents: Seq<CommitId>,
    pub branch: usize,
    pub fast_forward: Seq<usize>,
}

/// The contents of a planned commit.
pub open spec fn view_of(c: PlannedCommit) -> CommitView {
    CommitView { stop: c.stop, parents: c.parents@, branch: c.branch, fast_forward: c.fast_forward@ }
}

/// The contents of a plan.
pub open spec fn views(plan: Seq<PlannedCommit>) -> Seq<CommitView> {
    Seq::new(plan.len(), |i: int| view_of(plan[i]))
}

/// The state of a route with stops `stops` after building on its own from
/// `previous`, where the first new commit has the id `base`.
pub open spec fn alone_state(stops: Seq<GitStop>, previous: RouteBuildState, keys: Seq<Seq<char>>, base: int) -> RouteBuildState {
    let from = previous.next_index();
    if previous is Built {
        previous
    } else if from >= stops.len() {
        RouteBuildState::Built(previous.head()->0)
    } else {
        built_until(previous, from, stop_point(stop_ids(stops), keys, from), stops.len(), base)
    }
}

/// The commits that building route `j` on its own from `previous` appends,
/// the first of them with the id `base`.
pub open spec fn alone_commits(j: usize, stops: Seq<GitStop>, previous: RouteBuildState, keys: Seq<Seq<char>>, base: int) -> Seq<CommitView> {
    let from = previous.next_index();
    if previous is Built || from >= stops.len() {
        Seq::empty()
    } else {
        Seq::new(
            (stop_point(stop_ids(stops), keys, from) - from) as nat,
            |x: int| CommitView {
                stop: stops[from + x],
                parents: parent_list(previous, from, from + x, base),
                branch: j,
                fast_forward: Seq::empty(),
            },
        )
    }
}

/// What `built_alone` says, as the functions of the state and commits.
pub proof fn lemma_built_alone_exact(
    j: usize,
    stops: Seq<GitStop>,
    previous: RouteBuildState,
    keys: Seq<Seq<char>>,
    plan: Seq<PlannedCommit>,
    next: Seq<PlannedCommit>,
    r: RouteBuildState,
)
    requires
        built_alone(j, stops, previous, keys, plan, next, r),
        previous.loosely_fits(stops.len()),
    ensures
        r == alone_state(stops, previous, keys, plan.len() as int),
        views(next) == views(plan) + alone_commits(j, stops, previous, keys, plan.len() as int),
{
    let base = plan.len() as int;
    let from = previous.next_index();
    let add = alone_commits(j, stops, previous, keys, base);
    if !(previous is Built) && from < stops.len() {
        assert forall|i: int| 0 <= i < next.len() implies views(next)[i] == (views(plan) + add)[i] by {
            if i < base {
                assert(next.take(base)[i] == next[i]);
            } else {
                let k = from + (i - base);
                assert(planned(next[base + k - from], stops[k], parent_list(previous, from, k, base), j));
                assert(next[i].fast_forward@ =~= Seq::<usize>::empty());
            }
        }
    }
    assert(views(next) =~= views(plan) + add);
}

/// Whether `id` is the stop id of one of the groups.
pub fn is_group_stop(groups: &Vec<StopGroup>, id: &String) -> (r: bool)
    ensures
        r == group_keys(groups@).contains(id@),
{
    let mut e: usize = 0;
    while e < groups.len()
        invariant
            e <= groups@.len(),
            forall|x: int| 0 <= x < e ==> groups@[x].stop_id@ != id@,
        decreases groups@.len() - e,
    {
        if groups[e].stop_id == *id {
            assert(group_keys(groups@)[e as int] == id@);
            return true;
        }
        e += 1;
    }
    proof {
        if group_keys(groups@).contains(id@) {
            let x = choose|x: int| 0 <= x < groups@.len() && #[trigger] group_keys(groups@)[x] == id@;
            assert(groups@[x].stop_id@ == id@);
        }
    }
    false
}

/// Builds route `route_idx` on its own from where `previous` left it: one
/// commit per stop, each on the previous one, up to the first shared stop
/// (one of `conflicts`) or the end of the route. A shared stop gets no commit
/// here: it is left for a merge.
pub fn build_route_alone(
    route_idx: usize,
    route: &GitRoute,
    previous: RouteBuildState,
    conflicts: &Vec<StopGroup>,
    plan: &mut Vec<PlannedCommit>,
) -> (r: RouteBuildState)
    requires
        previous.loosely_fits(route.stops@.len()),
    ensures
        built_alone(route_idx, route.stops@, previous, group_keys(conflicts@), old(plan)@, final(plan)@, r),
{
    assert(plan@.take(plan@.len() as int) =~= plan@);
    if let RouteBuildState::Built(commit) = previous {
        return RouteBuildState::Built(commit);
    }
    let len = route.stops.len();
    let from = match previous {
        RouteBuildState::Pending(idx, _, commit) => {
            if idx + 1 >= len {
                return RouteBuildState::Built(commit);
            }
            idx + 1
        },
        _ => 0,
    };
    let ghost ids = stop_ids(route.stops@);
    let ghost keys = group_keys(conflicts@);
    let ghost base = plan@.len() as int;
    proof {
        lemma_stop_point(ids, keys, from as int);
    }
    let mut state = previous;
    let mut stop_idx = from;
    let mut hit = false;
    while stop_idx < len && !hit
        invariant
            len == route.stops@.len(),
            ids == stop_ids(route.stops@),
            keys == group_keys(conflicts@),
            previous.loosely_fits(len as nat),
            !(previous is Built),
            from as int == previous.next_index(),
            from < len,
            from <= stop_idx <= len,
            stop_point(ids, keys, from as int) == stop_point(ids, keys, stop_idx as int),
            hit ==> stop_idx < len && stop_point(ids, keys, stop_idx as int) == stop_idx,
            base == old(plan)@.len(),
            plan@.len() == base + stop_idx - from,
            plan@.take(base) == old(plan)@,
            forall|x: int|
                from <= x < stop_idx ==> planned(
                    #[trigger] plan@[base + x - from],
                    route.stops@[x],
                    parent_list(previous, from as int, x, base),
                    route_idx,
                ),
            state == built_until(previous, from as int, stop_idx as int, len as nat, base),
        decreases len - stop_idx + (if hit { 0int } else { 1int }),
    {
        let stop = &route.stops[stop_idx];
        if is_group_stop(conflicts, &stop.id) {
            assert(ids[stop_idx as int] == stop.id@);
            hit = true;
        } else {
            assert(ids[stop_idx as int] == stop.id@);
            let parents = match state.commit() {
                Some(c) => vec![c],
                None => Vec::new(),
            };
            let id = plan.len();
            let ghost before = plan@;
            let pc = PlannedCommit { stop: stop.duplicate(), parents, branch: route_idx, fast_forward: Vec::new() };
            plan.push(pc);
            assert(parents@ =~= parent_list(previous, from as int, stop_idx as int, base));
            assert(pc.fast_forward@ =~= Seq::<usize>::empty());
            assert(plan@.take(base) =~= before.take(base));
            state = state.did_stop(stop_idx, id);
            stop_idx += 1;
        }
    }
    proof {
        lemma_stop_point(ids, keys, stop_idx as int);
    }
    state
}

} // verus!
