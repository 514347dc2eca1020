use vstd::prelude::*;
use crate::builder::{
    CommitView, PlannedCommit, alone_commits, alone_state, built_alone, build_route_alone, group_keys, parent_list, planned,
    views,
};
use crate::conflicts::{StopGroup, get_conflicts, increasing, is_conflict_set, lists_visitors, visits};
use crate::model::{GitRoute, GitStop, stop_ids, stops_of};
use crate::order::{OrderError, fix_order, reconcile};
use crate::state::{CommitId, RouteBuildState};

verus! {

/// Every parent of a planned commit comes before it, and every branch named
/// is one of the `n` routes.
pub open spec fn plan_wf(plan: Seq<PlannedCommit>, n: int) -> bool {
    forall|c: int| 0 <= c < plan.len() ==> {
        &&& (forall|x: int| 0 <= x < plan[c].parents@.len() ==> #[trigger] plan[c].parents@[x] < c)
        &&& plan[c].branch < n
        &&& (forall|x: int| 0 <= x < plan[c].fast_forward@.len() ==> #[trigger] plan[c].fast_forward@[x] < n)
    }
}

/// The commit ends up on the branch of route `j`.
pub open spec fn on_branch(c: PlannedCommit, j: int) -> bool {
    c.branch == j || c.fast_forward@.contains(j as usize)
}

/// `chain` holds, for the first stops of route `j`, one commit each: for
/// that stop, on the route's branch, each a child of the one before.
pub open spec fn route_chain(plan: Seq<PlannedCommit>, stops: Seq<GitStop>, j: int, chain: Seq<CommitId>) -> bool {
    &&& chain.len() <= stops.len()
    &&& forall|k: int|
        0 <= k < chain.len() ==> #[trigger] chain[k] < plan.len() && plan[chain[k] as int].stop.id@ == stops[k].id@
            && on_branch(plan[chain[k] as int], j)
    &&& forall|k: int| 0 < k < chain.len() ==> plan[#[trigger] chain[k] as int].parents@.contains(chain[k - 1])
}

/// `chain` is the chain of route `j` in state `s`: one commit per built
/// stop, the last one being the state's head.
pub open spec fn chain_ok(plan: Seq<PlannedCommit>, stops: Seq<GitStop>, j: int, s: RouteBuildState, chain: Seq<CommitId>) -> bool {
    &&& route_chain(plan, stops, j, chain)
    &&& chain.len() == s.built_count(stops.len())
    &&& chain.len() > 0 ==> s.head() == Some(chain.last())
    &&& chain.len() == 0 ==> s.head() is None
}

/// Every commit on the branch of a route is in that route's chain.
#[verifier::opaque]
pub open spec fn branches_owned(plan: Seq<PlannedCommit>, chains: Seq<Seq<CommitId>>) -> bool {
    forall|c: int, j: int|
        0 <= c < plan.len() && 0 <= j < chains.len() && #[trigger] on_branch(plan[c], j) ==> chains[j].contains(c as usize)
}

/// The invariant of the construction: one state per route, which fits it,
/// and a chain of commits for what each state says is built.
pub open spec fn progress_inv(
    routes: Seq<GitRoute>,
    states: Seq<RouteBuildState>,
    plan: Seq<PlannedCommit>,
    chains: Seq<Seq<CommitId>>,
) -> bool {
    &&& states.len() == routes.len()
    &&& chains.len() == routes.len()
    &&& plan_wf(plan, routes.len() as int)
    &&& forall|j: int| 0 <= j < routes.len() ==> (#[trigger] states[j]).fits(routes[j].stops@.len())
    &&& forall|j: int| 0 <= j < routes.len() ==> chain_ok(plan, routes[j].stops@, j, states[j], #[trigger] chains[j])
    &&& branches_owned(plan, chains)
}

/// The number of stops without a commit in the first `n` routes.
pub open spec fn total_remaining(routes: Seq<GitRoute>, states: Seq<RouteBuildState>, n: int) -> nat
    decreases n,
{
    if n <= 0 {
        0
    } else {
        total_remaining(routes, states, n - 1) + states[n - 1].remaining(routes[n - 1].stops@.len())
    }
}

proof fn lemma_total_remaining_update(routes: Seq<GitRoute>, states: Seq<RouteBuildState>, n: int, j: int, t: RouteBuildState)
    requires
        0 <= j < n <= states.len(),
    ensures
        total_remaining(routes, states.update(j, t), n) + states[j].remaining(routes[j].stops@.len())
            == total_remaining(routes, states, n) + t.remaining(routes[j].stops@.len()),
    decreases n,
{
    if n - 1 > j {
        lemma_total_remaining_update(routes, states, n - 1, j, t);
    } else {
        assert(total_remaining(routes, states.update(j, t), n - 1) == total_remaining(routes, states, n - 1)) by {
            lemma_total_remaining_prefix(routes, states, states.update(j, t), n - 1);
        }
    }
}

proof fn lemma_total_remaining_prefix(routes: Seq<GitRoute>, a: Seq<RouteBuildState>, b: Seq<RouteBuildState>, n: int)
    requires
        n <= a.len(),
        n <= b.len(),
        forall|j: int| 0 <= j < n ==> a[j] == b[j],
    ensures
        total_remaining(routes, a, n) == total_remaining(routes, b, n),
    decreases n,
{
    if n > 0 {
        lemma_total_remaining_prefix(routes, a, b, n - 1);
    }
}

/// Appending commits to the plan keeps every chain.
proof fn lemma_chain_grows(plan0: Seq<PlannedCommit>, plan1: Seq<PlannedCommit>, stops: Seq<GitStop>, j: int, s: RouteBuildState, chain: Seq<CommitId>)
    requires
        chain_ok(plan0, stops, j, s, chain),
        plan0.len() <= plan1.len(),
        plan1.take(plan0.len() as int) == plan0,
    ensures
        chain_ok(plan1, stops, j, s, chain),
{
    assert forall|k: int| 0 <= k < chain.len() implies plan1[#[trigger] chain[k] as int] == plan0[chain[k] as int] by {
        assert(plan1.take(plan0.len() as int)[chain[k] as int] == plan1[chain[k] as int]);
    }
}

/// Building a route on its own appends commits whose parents come earlier.
proof fn lemma_build_keeps_plan_wf(
    j: usize,
    stops: Seq<GitStop>,
    previous: RouteBuildState,
    keys: Seq<Seq<char>>,
    plan0: Seq<PlannedCommit>,
    plan1: Seq<PlannedCommit>,
    r: RouteBuildState,
    chain: Seq<CommitId>,
    n: int,
)
    requires
        built_alone(j, stops, previous, keys, plan0, plan1, r),
        previous.loosely_fits(stops.len()),
        chain_ok(plan0, stops, j as int, previous, chain),
        plan_wf(plan0, n),
        j < n,
    ensures
        plan0.len() <= plan1.len(),
        plan_wf(plan1, n),
{
    let base = plan0.len() as int;
    let from = previous.next_index();
    if !(previous is Built) && from < stops.len() {
        assert forall|c: int| 0 <= c < plan1.len() implies {
            &&& (forall|x: int| 0 <= x < plan1[c].parents@.len() ==> #[trigger] plan1[c].parents@[x] < c)
            &&& plan1[c].branch < n
            &&& (forall|x: int| 0 <= x < plan1[c].fast_forward@.len() ==> #[trigger] plan1[c].fast_forward@[x] < n)
        } by {
            if c >= base {
                let k = c - base + from;
                assert(planned(plan1[base + k - from], stops[k], parent_list(previous, from, k, base), j));
                if k == from && chain.len() > 0 {
                    assert(chain[chain.len() - 1] < base);
                }
            } else {
                assert(plan1.take(base)[c] == plan1[c]);
            }
        }
    }
}

/// Building a route on its own extends its chain by the new commits.
#[verifier::spinoff_prover]
#[verifier::rlimit(30)]
proof fn lemma_build_extends_chain(
    j: usize,
    stops: Seq<GitStop>,
    previous: RouteBuildState,
    keys: Seq<Seq<char>>,
    plan0: Seq<PlannedCommit>,
    plan1: Seq<PlannedCommit>,
    r: RouteBuildState,
    chain: Seq<CommitId>,
)
    requires
        built_alone(j, stops, previous, keys, plan0, plan1, r),
        previous.loosely_fits(stops.len()),
        chain_ok(plan0, stops, j as int, previous, chain),
        plan1.len() <= usize::MAX,
    ensures
        plan0.len() <= plan1.len(),
        chain_ok(plan1, stops, j as int, r, chain + Seq::new((plan1.len() - plan0.len()) as nat, |t: int| (plan0.len() + t) as usize)),
{
    let base = plan0.len() as int;
    let ext = Seq::new((plan1.len() - plan0.len()) as nat, |t: int| (plan0.len() + t) as usize);
    let nc = chain + ext;
    let len = stops.len();
    let from = previous.next_index();
    if previous is Built || from >= len {
        assert(ext.len() == 0);
        assert(nc =~= chain);
    } else {
        lemma_chain_grows(plan0, plan1, stops, j as int, previous, chain);
        let stop = crate::builder::stop_point(stop_ids(stops), keys, from);
        assert(chain.len() == from);
        assert forall|k: int| 0 <= k < nc.len() implies #[trigger] nc[k] < plan1.len() && plan1[nc[k] as int].stop.id@ == stops[k].id@
            && on_branch(plan1[nc[k] as int], j as int) by {
            if k >= from {
                assert(nc[k] == ext[k - from]);
                assert(planned(plan1[base + k - from], stops[k], parent_list(previous, from, k, base), j));
            } else {
                assert(nc[k] == chain[k]);
            }
        }
        assert forall|k: int| 0 < k < nc.len() implies plan1[#[trigger] nc[k] as int].parents@.contains(nc[k - 1]) by {
            if k >= from {
                assert(nc[k] == ext[k - from]);
                assert(planned(plan1[base + k - from], stops[k], parent_list(previous, from, k, base), j));
                assert(plan1[nc[k] as int].parents@[0] == nc[k - 1]);
            } else {
                assert(nc[k] == chain[k]);
                assert(nc[k - 1] == chain[k - 1]);
            }
        }
        if stop == from {
            assert(nc =~= chain);
        }
    }
}

/// Building a route on its own puts its new commits on its branch only, and
/// they extend its chain.
proof fn lemma_build_keeps_owned(
    j: usize,
    stops: Seq<GitStop>,
    previous: RouteBuildState,
    keys: Seq<Seq<char>>,
    plan0: Seq<PlannedCommit>,
    plan1: Seq<PlannedCommit>,
    r: RouteBuildState,
    chains: Seq<Seq<CommitId>>,
)
    requires
        built_alone(j, stops, previous, keys, plan0, plan1, r),
        previous.loosely_fits(stops.len()),
        branches_owned(plan0, chains),
        j < chains.len(),
        plan1.len() <= usize::MAX,
    ensures
        branches_owned(
            plan1,
            chains.update(j as int, chains[j as int] + Seq::new((plan1.len() - plan0.len()) as nat, |t: int| (plan0.len() + t) as usize)),
        ),
{
    reveal(branches_owned);
    let base = plan0.len() as int;
    let ext = Seq::new((plan1.len() - plan0.len()) as nat, |t: int| (plan0.len() + t) as usize);
    let nc = chains.update(j as int, chains[j as int] + ext);
    let from = previous.next_index();
    assert forall|c: int, k: int| 0 <= c < plan1.len() && 0 <= k < nc.len() && #[trigger] on_branch(plan1[c], k) implies nc[k].contains(c as usize) by {
        if c < base {
            assert(plan1.take(base)[c] == plan1[c]);
            assert(on_branch(plan0[c], k));
            assert(chains[k].contains(c as usize));
            if k == j {
                let i = choose|i: int| 0 <= i < chains[k].len() && chains[k][i] == c as usize;
                assert(nc[k][i] == c as usize);
            }
        } else {
            let stop = crate::builder::stop_point(stop_ids(stops), keys, from);
            let x = from + (c - base);
            assert(planned(plan1[base + x - from], stops[x], parent_list(previous, from, x, base), j));
            assert(plan1[c].fast_forward@.len() == 0);
            assert(!plan1[c].fast_forward@.contains(k as usize));
            assert(k == j);
            assert(nc[k][chains[k].len() + (c - base)] == c as usize);
        }
    }
}

/// A merge commit is on the branches of its routes only, and extends their
/// chains.
proof fn lemma_merge_keeps_owned(
    plan0: Seq<PlannedCommit>,
    plan1: Seq<PlannedCommit>,
    chains: Seq<Seq<CommitId>>,
    members: Seq<usize>,
    id: CommitId,
)
    requires
        branches_owned(plan0, chains),
        id == plan0.len(),
        plan1.len() == plan0.len() + 1,
        plan1.take(plan0.len() as int) == plan0,
        members.len() >= 1,
        plan1[id as int].branch == members[0],
        plan1[id as int].fast_forward@ == members.subrange(1, members.len() as int),
    ensures
        branches_owned(
            plan1,
            Seq::new(chains.len(), |j: int| if members.contains(j as usize) { chains[j].push(id) } else { chains[j] }),
        ),
{
    reveal(branches_owned);
    let cc = Seq::new(chains.len(), |j: int| if members.contains(j as usize) { chains[j].push(id) } else { chains[j] });
    assert forall|c: int, k: int| 0 <= c < plan1.len() && 0 <= k < cc.len() && #[trigger] on_branch(plan1[c], k) implies cc[k].contains(c as usize) by {
        if c < id {
            assert(plan1.take(plan0.len() as int)[c] == plan1[c]);
            assert(on_branch(plan0[c], k));
            assert(chains[k].contains(c as usize));
            if members.contains(k as usize) {
                let i = choose|i: int| 0 <= i < chains[k].len() && chains[k][i] == c as usize;
                assert(cc[k][i] == c as usize);
            }
        } else {
            if plan1[c].branch == k {
                assert(members[0] == k as usize);
            } else {
                let i = choose|i: int| 0 <= i < plan1[c].fast_forward@.len() && plan1[c].fast_forward@[i] == k as usize;
                assert(members[i + 1] == k as usize);
            }
            assert(members.contains(k as usize));
            assert(cc[k].last() == id);
        }
    }
}

/// A merge commit for the next stop of a route extends its chain by one.
proof fn lemma_merge_extends_chain(
    plan0: Seq<PlannedCommit>,
    plan1: Seq<PlannedCommit>,
    stops: Seq<GitStop>,
    j: int,
    s: RouteBuildState,
    chain: Seq<CommitId>,
    id: CommitId,
)
    requires
        id == plan0.len(),
        chain_ok(plan0, stops, j, s, chain),
        s.fits(stops.len()),
        !(s is Built),
        plan1.len() == plan0.len() + 1,
        plan1.take(plan0.len() as int) == plan0,
        plan1.last().stop.id@ == stops[s.next_index()].id@,
        on_branch(plan1.last(), j),
        s.head() matches Some(h) ==> plan1.last().parents@.contains(h),
    ensures
        chain_ok(plan1, stops, j, s.after_merge(id), chain.push(id)),
        s.after_merge(id).loosely_fits(stops.len()),
{
    crate::state::lemma_merge_advances(s, stops.len(), id);
    lemma_chain_grows(plan0, plan1, stops, j, s, chain);
    let nc = chain.push(id);
    assert(plan1.last() == plan1[id as int]);
    assert forall|k: int| 0 < k < nc.len() implies plan1[#[trigger] nc[k] as int].parents@.contains(nc[k - 1]) by {
        if k == chain.len() {
            assert(chain.last() == nc[k - 1]);
        } else {
            assert(nc[k] == chain[k]);
        }
    }
    assert forall|k: int| 0 <= k < nc.len() implies #[trigger] nc[k] < plan1.len() && plan1[nc[k] as int].stop.id@ == stops[k].id@
        && on_branch(plan1[nc[k] as int], j) by {
        if k < chain.len() {
            assert(nc[k] == chain[k]);
        }
    }
}

/// Route `j` is not built yet and waits for the stop with id `s`.
pub open spec fn waits_for(rs: Seq<GitRoute>, states: Seq<RouteBuildState>, j: int, s: Seq<char>) -> bool {
    !(states[j] is Built) && stop_ids(rs[j].stops@)[states[j].next_index()] == s
}

/// `g` lists, in increasing order, exactly the routes that wait for its stop.
pub open spec fn lists_waiting(rs: Seq<GitRoute>, states: Seq<RouteBuildState>, g: StopGroup) -> bool {
    &&& increasing(g.routes@)
    &&& forall|x: int| 0 <= x < g.routes@.len() ==> #[trigger] g.routes@[x] < rs.len()
    &&& forall|j: int| 0 <= j < rs.len() ==> (g.routes@.contains(j as usize) <==> waits_for(rs, states, j, g.stop_id@))
}

/// `gs` holds one group for each stop that two or more unbuilt routes wait
/// for, and no other group.
pub open spec fn is_frontier(rs: Seq<GitRoute>, states: Seq<RouteBuildState>, gs: Seq<StopGroup>) -> bool {
    &&& forall|e: int| 0 <= e < gs.len() ==> lists_waiting(rs, states, #[trigger] gs[e]) && gs[e].routes@.len() >= 2
    &&& forall|a: int, b: int| 0 <= a < gs.len() && 0 <= b < gs.len() && a != b ==> #[trigger] gs[a].stop_id@ != #[trigger] gs[b].stop_id@
    &&& forall|s: Seq<char>, j1: int, j2: int|
        0 <= j1 < rs.len() && 0 <= j2 < rs.len() && j1 != j2 && #[trigger] waits_for(rs, states, j1, s) && #[trigger] waits_for(rs, states, j2, s)
            ==> exists|e: int| 0 <= e < gs.len() && #[trigger] gs[e].stop_id@ == s
}

/// The invariant of the scan in `find_dependencies`, after `j` routes.
spec fn scanned_waiting(rs: Seq<GitRoute>, states: Seq<RouteBuildState>, j: int, all: Seq<StopGroup>) -> bool {
    &&& forall|a: int, b: int| 0 <= a < all.len() && 0 <= b < all.len() && a != b ==> #[trigger] all[a].stop_id@ != #[trigger] all[b].stop_id@
    &&& forall|e: int| 0 <= e < all.len() ==> {
        let c = #[trigger] all[e];
        &&& increasing(c.routes@)
        &&& c.routes@.len() > 0
        &&& forall|x: int| 0 <= x < c.routes@.len() ==> #[trigger] c.routes@[x] < j
        &&& forall|r: int| 0 <= r < rs.len() ==> (c.routes@.contains(r as usize) <==> (r < j && #[trigger] waits_for(rs, states, r, c.stop_id@)))
    }
    &&& forall|s: Seq<char>, r: int| 0 <= r < j && #[trigger] waits_for(rs, states, r, s) ==> exists|e: int| 0 <= e < all.len() && #[trigger] all[e].stop_id@ == s
}

/// The stops that two or more unbuilt routes wait for next, each with the
/// routes that wait for it.
pub fn find_dependencies(routes: &Vec<GitRoute>, states: &Vec<RouteBuildState>) -> (r: Vec<StopGroup>)
    requires
        states@.len() == routes@.len(),
        forall|j: int| 0 <= j < routes@.len() ==> (#[trigger] states@[j]).fits(routes@[j].stops@.len()),
    ensures
        is_frontier(routes@, states@, r@),
{
    let ghost rs = routes@;
    let ghost ss = states@;
    let mut all: Vec<StopGroup> = Vec::new();
    let mut j: usize = 0;
    while j < routes.len()
        invariant
            rs == routes@,
            ss == states@,
            ss.len() == rs.len(),
            forall|x: int| 0 <= x < rs.len() ==> (#[trigger] ss[x]).fits(rs[x].stops@.len()),
            j <= rs.len(),
            scanned_waiting(rs, ss, j as int, all@),
        decreases rs.len() - j,
    {
        let ghost before = all@;
        let next: usize = match states[j] {
            RouteBuildState::Pending(idx, _, _) => idx + 1,
            _ => 0,
        };
        if states[j].is_built() {
            assert forall|s: Seq<char>, r: int| 0 <= r < j + 1 && #[trigger] waits_for(rs, ss, r, s) implies exists|e: int| 0 <= e < all@.len() && #[trigger] all@[e].stop_id@ == s by {
                assert(r < j);
            }
        } else {
            let id = &routes[j].stops[next].id;
            assert(stop_ids(rs[j as int].stops@)[ss[j as int].next_index()] == id@);
            assert(waits_for(rs, ss, j as int, id@));
            let mut e: usize = 0;
            let mut found = false;
            while !found && e < all.len()
                invariant
                    all@ == before,
                    e <= all@.len(),
                    forall|x: int| 0 <= x < e ==> #[trigger] all@[x].stop_id@ != id@,
                    found ==> e < all@.len() && all@[e as int].stop_id@ == id@,
                decreases all@.len() - e + (if found { 0int } else { 1int }),
            {
                if all[e].stop_id == *id {
                    found = true;
                } else {
                    e += 1;
                }
            }
            if found {
                all[e].routes.push(j);
                assert forall|x: int| 0 <= x < all@.len() && x != e implies #[trigger] all@[x] == before[x] by {}
                let ghost c2 = all@[e as int];
                let ghost c0 = before[e as int];
                assert(c2.routes@ == c0.routes@.push(j));
                assert forall|a: int, b: int| 0 <= a < b < c2.routes@.len() implies c2.routes@[a] < c2.routes@[b] by {
                    if b == c2.routes@.len() - 1 {
                        assert(c0.routes@[a] < j);
                    }
                }
                assert forall|r: int| 0 <= r < rs.len() implies (c2.routes@.contains(r as usize) <==> (r < j + 1 && #[trigger] waits_for(rs, ss, r, c2.stop_id@))) by {
                    if r < j && c2.routes@.contains(r as usize) {
                        let x = choose|x: int| 0 <= x < c2.routes@.len() && #[trigger] c2.routes@[x] == r as usize;
                        assert(c0.routes@[x] == r as usize);
                    }
                    if r < j && waits_for(rs, ss, r, c2.stop_id@) {
                        assert(c0.routes@.contains(r as usize));
                        let x = choose|x: int| 0 <= x < c0.routes@.len() && #[trigger] c0.routes@[x] == r as usize;
                        assert(c2.routes@[x] == r as usize);
                    }
                    if r == j {
                        assert(c2.routes@.last() == j);
                    }
                    if r > j && c2.routes@.contains(r as usize) {
                        let x = choose|x: int| 0 <= x < c2.routes@.len() && #[trigger] c2.routes@[x] == r as usize;
                        if x < c0.routes@.len() {
                            assert(c0.routes@[x] < j);
                        }
                    }
                }
                assert forall|e2: int| 0 <= e2 < all@.len() && e2 != e implies {
                    let c = #[trigger] all@[e2];
                    forall|r: int| 0 <= r < rs.len() ==> (c.routes@.contains(r as usize) <==> (r < j + 1 && #[trigger] waits_for(rs, ss, r, c.stop_id@)))
                } by {
                    let c = all@[e2];
                    assert(c == before[e2]);
                    assert forall|r: int| 0 <= r < rs.len() implies (c.routes@.contains(r as usize) <==> (r < j + 1 && #[trigger] waits_for(rs, ss, r, c.stop_id@))) by {
                        if r == j && waits_for(rs, ss, r, c.stop_id@) {
                            assert(c.stop_id@ == id@);
                        }
                        if r == j && c.routes@.contains(r as usize) {
                            let x = choose|x: int| 0 <= x < c.routes@.len() && #[trigger] c.routes@[x] == r as usize;
                        }
                    }
                }
                assert forall|s: Seq<char>, r: int| 0 <= r < j + 1 && #[trigger] waits_for(rs, ss, r, s) implies exists|x: int| 0 <= x < all@.len() && #[trigger] all@[x].stop_id@ == s by {
                    if r == j {
                        assert(all@[e as int].stop_id@ == s);
                    } else {
                        let x = choose|x: int| 0 <= x < before.len() && #[trigger] before[x].stop_id@ == s;
                        assert(all@[x].stop_id@ == s);
                    }
                }
            } else {
                assert(forall|x: int| 0 <= x < before.len() ==> #[trigger] before[x].stop_id@ != id@);
                let mut first: Vec<usize> = Vec::new();
                first.push(j);
                all.push(StopGroup { stop_id: id.clone(), routes: first });
                let ghost c2 = all@[before.len() as int];
                assert forall|r: int| 0 <= r < rs.len() implies (c2.routes@.contains(r as usize) <==> (r < j + 1 && #[trigger] waits_for(rs, ss, r, c2.stop_id@))) by {
                    if r < j && waits_for(rs, ss, r, id@) {
                        let x = choose|x: int| 0 <= x < before.len() && #[trigger] before[x].stop_id@ == id@;
                        assert(false);
                    }
                    if r == j {
                        assert(c2.routes@[0] == j);
                    }
                    if c2.routes@.contains(r as usize) {
                        assert(c2.routes@[0] == j);
                    }
                }
                assert forall|e2: int| 0 <= e2 < before.len() implies {
                    let c = #[trigger] all@[e2];
                    forall|r: int| 0 <= r < rs.len() ==> (c.routes@.contains(r as usize) <==> (r < j + 1 && #[trigger] waits_for(rs, ss, r, c.stop_id@)))
                } by {
                    let c = all@[e2];
                    assert(c == before[e2]);
                    assert forall|r: int| 0 <= r < rs.len() implies (c.routes@.contains(r as usize) <==> (r < j + 1 && #[trigger] waits_for(rs, ss, r, c.stop_id@))) by {
                        if r == j && waits_for(rs, ss, r, c.stop_id@) {
                            assert(c.stop_id@ == id@);
                        }
                        if r == j && c.routes@.contains(r as usize) {
                            let x = choose|x: int| 0 <= x < c.routes@.len() && #[trigger] c.routes@[x] == r as usize;
                        }
                    }
                }
                assert forall|s: Seq<char>, r: int| 0 <= r < j + 1 && #[trigger] waits_for(rs, ss, r, s) implies exists|x: int| 0 <= x < all@.len() && #[trigger] all@[x].stop_id@ == s by {
                    if r == j {
                        assert(all@[before.len() as int].stop_id@ == s);
                    } else {
                        let x = choose|x: int| 0 <= x < before.len() && #[trigger] before[x].stop_id@ == s;
                        assert(all@[x].stop_id@ == s);
                    }
                }
            }
        }
        j += 1;
    }
    let ghost whole = all@;
    let out = crate::conflicts::keep_shared(&all);
    proof {
        let gs = out@;
        assert forall|x: int| 0 <= x < gs.len() implies lists_waiting(rs, ss, #[trigger] gs[x]) && gs[x].routes@.len() >= 2 by {
            let y = choose|y: int| 0 <= y < whole.len() && #[trigger] crate::conflicts::same_group(gs[x], whole[y]);
            let c = whole[y];
            assert forall|r: int| 0 <= r < rs.len() implies (gs[x].routes@.contains(r as usize) <==> waits_for(rs, ss, r, gs[x].stop_id@)) by {
                assert(c.routes@.contains(r as usize) <==> (r < j && waits_for(rs, ss, r, c.stop_id@)));
            }
        }
        assert forall|s: Seq<char>, j1: int, j2: int|
            0 <= j1 < rs.len() && 0 <= j2 < rs.len() && j1 != j2 && #[trigger] waits_for(rs, ss, j1, s) && #[trigger] waits_for(rs, ss, j2, s)
            implies exists|e: int| 0 <= e < gs.len() && #[trigger] gs[e].stop_id@ == s by {
            let x = choose|x: int| 0 <= x < whole.len() && #[trigger] whole[x].stop_id@ == s;
            let c = whole[x];
            assert(c.routes@.contains(j1 as usize) <==> (j1 < j && waits_for(rs, ss, j1, c.stop_id@)));
            assert(c.routes@.contains(j2 as usize) <==> (j2 < j && waits_for(rs, ss, j2, c.stop_id@)));
            let p = choose|p: int| 0 <= p < c.routes@.len() && #[trigger] c.routes@[p] == j1 as usize;
            let q = choose|q: int| 0 <= q < c.routes@.len() && #[trigger] c.routes@[q] == j2 as usize;
            assert(p != q);
            assert(crate::conflicts::shared(whole[x]));
            let y = choose|y: int| 0 <= y < gs.len() && #[trigger] crate::conflicts::same_group(gs[y], whole[x]);
            assert(gs[y].stop_id@ == s);
        }
    }
    out
}

/// The heads of the first `k` routes of `members`, in that order, each once.
pub open spec fn dedup_heads(st: Seq<RouteBuildState>, members: Seq<usize>, k: int) -> Seq<CommitId>
    decreases k,
{
    if k <= 0 {
        Seq::empty()
    } else {
        let prev = dedup_heads(st, members, k - 1);
        match st[members[k - 1] as int].head() {
            Some(c) => if prev.contains(c) {
                prev
            } else {
                prev.push(c)
            },
            None => prev,
        }
    }
}

/// The merge commit for the shared stop of `c`: the stop as the first route
/// of `c` names it, the routes' heads as parents, each once, on the first
/// route's branch, with the other routes fast-forwarded to it.
pub open spec fn merge_commit(rs: Seq<GitRoute>, st: Seq<RouteBuildState>, c: StopGroup) -> CommitView {
    let host = c.routes@[0] as int;
    CommitView {
        stop: rs[host].stops@[st[host].next_index()],
        parents: dedup_heads(st, c.routes@, c.routes@.len() as int),
        branch: c.routes@[0],
        fast_forward: c.routes@.subrange(1, c.routes@.len() as int),
    }
}

/// States and commits after the first `k` routes of `members` advanced past
/// merge commit `id` and built on their own again, in order.
pub open spec fn resume_members(
    rs: Seq<GitRoute>,
    keys: Seq<Seq<char>>,
    members: Seq<usize>,
    id: CommitId,
    st: Seq<RouteBuildState>,
    plan: Seq<CommitView>,
    k: int,
) -> (Seq<RouteBuildState>, Seq<CommitView>)
    decreases k,
{
    if k <= 0 {
        (st, plan)
    } else {
        let (s1, p1) = resume_members(rs, keys, members, id, st, plan, k - 1);
        let j = members[k - 1] as int;
        let adv = s1[j].after_merge(id);
        (
            s1.update(j, alone_state(rs[j].stops@, adv, keys, p1.len() as int)),
            p1 + alone_commits(members[k - 1], rs[j].stops@, adv, keys, p1.len() as int),
        )
    }
}

/// States and commits after the merge for the shared stop of `c`.
pub open spec fn after_group(
    rs: Seq<GitRoute>,
    keys: Seq<Seq<char>>,
    st: Seq<RouteBuildState>,
    plan: Seq<CommitView>,
    c: StopGroup,
) -> (Seq<RouteBuildState>, Seq<CommitView>) {
    resume_members(rs, keys, c.routes@, plan.len() as usize, st, plan.push(merge_commit(rs, st, c)), c.routes@.len() as int)
}

/// Whether `c` is among `v`.
fn has_commit(v: &Vec<CommitId>, c: CommitId) -> (r: bool)
    ensures
        r == v@.contains(c),
{
    let mut i: usize = 0;
    while i < v.len()
        invariant
            i <= v@.len(),
            forall|k: int| 0 <= k < i ==> v@[k] != c,
        decreases v@.len() - i,
    {
        if v[i] == c {
            return true;
        }
        i += 1;
    }
    false
}

/// Creates the merge commit for a group of routes that all wait for its
/// stop: its parents are the heads of the routes, without repeats; it goes on
/// the branch of the first route, and the other routes' branches move to it.
/// Then each route advances past the stop and goes on building on its own.
#[verifier::spinoff_prover]
#[verifier::rlimit(100)]
fn merge_group(
    routes: &Vec<GitRoute>,
    conflicts: &Vec<StopGroup>,
    group: &StopGroup,
    states: &mut Vec<RouteBuildState>,
    plan: &mut Vec<PlannedCommit>,
    Ghost(chains): Ghost<Seq<Seq<CommitId>>>,
) -> (new_chains: Ghost<Seq<Seq<CommitId>>>)
    requires
        progress_inv(routes@, old(states)@, old(plan)@, chains),
        group.routes@.len() >= 2,
        increasing(group.routes@),
        forall|x: int|
            0 <= x < group.routes@.len() ==> #[trigger] group.routes@[x] < routes@.len() && waits_for(
                routes@,
                old(states)@,
                group.routes@[x] as int,
                group.stop_id@,
            ),
    ensures
        progress_inv(routes@, final(states)@, final(plan)@, new_chains@),
        forall|j: int|
            0 <= j < routes@.len() && !group.routes@.contains(j as usize) ==> #[trigger] final(states)@[j] == old(states)@[j],
        forall|j: int| 0 <= j < routes@.len() ==> old(states)@[j].advanced_to(#[trigger] final(states)@[j]),
        total_remaining(routes@, final(states)@, routes@.len() as int) < total_remaining(routes@, old(states)@, routes@.len() as int),
        old(plan)@.len() < final(plan)@.len(),
        final(plan)@.take(old(plan)@.len() as int) == old(plan)@,
        final(plan)@[old(plan)@.len() as int].fast_forward@.len() >= 1,
        (final(states)@, views(final(plan)@)) == after_group(routes@, group_keys(conflicts@), old(states)@, views(old(plan)@), *group),
{
    let ghost rs = routes@;
    let ghost n = rs.len() as int;
    let ghost old_states = states@;
    let ghost plan0 = plan@;
    let ghost keys = group_keys(conflicts@);
    // The length of a vector fits in `usize`; asking for it brings that fact in.
    let _ = routes.len();
    assert(n <= usize::MAX);
    let gr = &group.routes;
    let host = gr[0];
    let next: usize = match states[host] {
        RouteBuildState::Pending(idx, _, _) => idx + 1,
        _ => 0,
    };
    let stop = routes[host].stops[next].duplicate();
    assert(stop.id@ == group.stop_id@) by {
        assert(waits_for(rs, old_states, host as int, group.stop_id@));
    }
    let mut parents: Vec<CommitId> = Vec::new();
    let mut x: usize = 0;
    while x < gr.len()
        invariant
            states@ == old_states,
            plan@ == plan0,
            progress_inv(rs, old_states, plan0, chains),
            rs == routes@,
            *gr == group.routes,
            forall|y: int| 0 <= y < gr@.len() ==> #[trigger] gr@[y] < rs.len(),
            x <= gr@.len(),
            forall|y: int| 0 <= y < x ==> (old_states[#[trigger] gr@[y] as int].head() matches Some(h) ==> parents@.contains(h)),
            forall|p: int| 0 <= p < parents@.len() ==> #[trigger] parents@[p] < plan0.len(),
            parents@ == dedup_heads(old_states, gr@, x as int),
        decreases gr@.len() - x,
    {
        let j = gr[x];
        let ghost old_parents = parents@;
        match states[j].commit() {
            Some(c) => {
                assert(chain_ok(plan0, rs[j as int].stops@, j as int, old_states[j as int], chains[j as int]));
                if !has_commit(&parents, c) {
                    parents.push(c);
                    assert(parents@[parents@.len() - 1] == c);
                }
            },
            None => {},
        }
        proof {
            assert forall|h: CommitId| old_parents.contains(h) implies parents@.contains(h) by {
                let i = choose|i: int| 0 <= i < old_parents.len() && old_parents[i] == h;
                assert(parents@[i] == h);
            }
        }
        x += 1;
    }
    let mut fast_forward: Vec<usize> = Vec::new();
    let mut x: usize = 1;
    while x < gr.len()
        invariant
            *gr == group.routes,
            1 <= x <= gr@.len(),
            fast_forward@ == gr@.subrange(1, x as int),
        decreases gr@.len() - x,
    {
        fast_forward.push(gr[x]);
        assert(fast_forward@ =~= gr@.subrange(1, x + 1));
        x += 1;
    }
    let id = plan.len();
    let merge = PlannedCommit { stop, parents, branch: host, fast_forward };
    plan.push(merge);
    let ghost plan1 = plan@;
    assert(views(plan1) =~= views(plan0).push(merge_commit(rs, old_states, *group)));
    assert(plan1.take(plan0.len() as int) =~= plan0);
    assert(plan_wf(plan1, n)) by {
        assert forall|c: int| 0 <= c < plan1.len() implies {
            &&& (forall|x: int| 0 <= x < plan1[c].parents@.len() ==> #[trigger] plan1[c].parents@[x] < c)
            &&& plan1[c].branch < n
            &&& (forall|x: int| 0 <= x < plan1[c].fast_forward@.len() ==> #[trigger] plan1[c].fast_forward@[x] < n)
        } by {
            if c < id {
                assert(plan1[c] == plan0[c]);
            } else {
                assert forall|x: int| 0 <= x < plan1[c].fast_forward@.len() implies #[trigger] plan1[c].fast_forward@[x] < n by {
                    assert(plan1[c].fast_forward@[x] == gr@[x + 1]);
                }
            }
        }
    }
    let ghost mut cc = chains;
    proof {
        assert forall|y: int| 0 <= y < gr@.len() implies on_branch(plan1.last(), #[trigger] gr@[y] as int) by {
            if y > 0 {
                assert(merge.fast_forward@[y - 1] == gr@[y]);
            }
        }
        assert forall|y: int| 0 <= y < gr@.len() implies {
            let j = #[trigger] gr@[y] as int;
            &&& chain_ok(plan1, rs[j].stops@, j, old_states[j].after_merge(id), chains[j].push(id))
            &&& old_states[j].after_merge(id).loosely_fits(rs[j].stops@.len())
        } by {
            let j = gr@[y] as int;
            assert(waits_for(rs, old_states, j, group.stop_id@));
            assert(on_branch(plan1.last(), j));
            lemma_merge_extends_chain(plan0, plan1, rs[j].stops@, j, old_states[j], chains[j], id);
        }
        assert forall|j: int| 0 <= j < n && !gr@.contains(j as usize) implies chain_ok(plan1, rs[j].stops@, j, old_states[j], #[trigger] chains[j]) by {
            lemma_chain_grows(plan0, plan1, rs[j].stops@, j, old_states[j], chains[j]);
        }
        assert forall|y: int, z: int| 0 <= y < gr@.len() && 0 <= z < gr@.len() && y != z implies #[trigger] gr@[y] != #[trigger] gr@[z] by {
            if y < z {
                assert(gr@[y] < gr@[z]);
            } else {
                assert(gr@[z] < gr@[y]);
            }
        }
        cc = Seq::new(chains.len(), |j: int| if gr@.contains(j as usize) { chains[j].push(id) } else { chains[j] });
        lemma_merge_keeps_owned(plan0, plan1, chains, gr@, id);
    }
    let mut x: usize = 0;
    while x < gr.len()
        invariant
            rs == routes@,
            n == rs.len(),
            n <= usize::MAX,
            *gr == group.routes,
            increasing(gr@),
            gr@.len() >= 2,
            forall|y: int| 0 <= y < gr@.len() ==> #[trigger] gr@[y] < rs.len(),
            forall|y: int, z: int| 0 <= y < gr@.len() && 0 <= z < gr@.len() && y != z ==> #[trigger] gr@[y] != #[trigger] gr@[z],
            x <= gr@.len(),
            states@.len() == n,
            cc.len() == n,
            old_states.len() == n,
            plan_wf(plan@, n),
            plan@.len() > id,
            id == plan0.len(),
            plan@.take(id + 1) == plan1,
            plan1.take(plan0.len() as int) == plan0,
            plan1[id as int].fast_forward@.len() >= 1,
            forall|j: int| 0 <= j < n ==> (#[trigger] old_states[j]).fits(rs[j].stops@.len()),
            forall|y: int| x <= y < gr@.len() ==> {
                let j = #[trigger] gr@[y] as int;
                &&& states@[j] == old_states[j]
                &&& chain_ok(plan@, rs[j].stops@, j, old_states[j].after_merge(id), cc[j])
                &&& old_states[j].after_merge(id).loosely_fits(rs[j].stops@.len())
                &&& !(old_states[j] is Built)
            },
            forall|y: int| 0 <= y < x ==> {
                let j = #[trigger] gr@[y] as int;
                &&& states@[j].fits(rs[j].stops@.len())
                &&& chain_ok(plan@, rs[j].stops@, j, states@[j], cc[j])
                &&& old_states[j].advanced_to(states@[j])
            },
            forall|j: int| 0 <= j < n && !gr@.contains(j as usize) ==> {
                &&& #[trigger] states@[j] == old_states[j]
                &&& chain_ok(plan@, rs[j].stops@, j, old_states[j], cc[j])
            },
            total_remaining(rs, states@, n) + x <= total_remaining(rs, old_states, n),
            keys == group_keys(conflicts@),
            branches_owned(plan@, cc),
            (states@, views(plan@)) == resume_members(rs, keys, gr@, id, old_states, views(plan1), x as int),
        decreases gr@.len() - x,
    {
        let j = gr[x];
        let ghost before = states@;
        let ghost plan_before = plan@;
        let waiting = states[j];
        proof {
            crate::state::lemma_merge_advances(waiting, rs[j as int].stops@.len(), id);
        }
        let advanced = waiting.did_commit(id);
        let resumed = build_route_alone(j, &routes[j], advanced, conflicts, plan);
        // The length of a vector fits in `usize`; asking for it brings that fact in.
        let _ = plan.len();
        proof {
            crate::builder::lemma_built_alone_exact(j, rs[j as int].stops@, advanced, keys, plan_before, plan@, resumed);
            lemma_build_extends_chain(j, rs[j as int].stops@, advanced, group_keys(conflicts@), plan_before, plan@, resumed, cc[j as int]);
            lemma_build_keeps_owned(j, rs[j as int].stops@, advanced, keys, plan_before, plan@, resumed, cc);
            lemma_build_keeps_plan_wf(j, rs[j as int].stops@, advanced, group_keys(conflicts@), plan_before, plan@, resumed, cc[j as int], n);
            crate::state::lemma_advanced_transitive(waiting, advanced, resumed);
            lemma_total_remaining_update(rs, before, n, j as int, resumed);
            assert(plan@.take(id + 1) =~= plan1) by {
                assert forall|c: int| 0 <= c < id + 1 implies plan@[c] == plan_before[c] by {
                    assert(plan@.take(plan_before.len() as int)[c] == plan@[c]);
                }
            }
            let ext = Seq::new((plan@.len() - plan_before.len()) as nat, |t: int| (plan_before.len() + t) as usize);
            let new_chain = cc[j as int] + ext;
            let cc_prev = cc;
            cc = cc.update(j as int, new_chain);
            assert forall|y: int| x + 1 <= y < gr@.len() implies {
                let k = #[trigger] gr@[y] as int;
                chain_ok(plan@, rs[k].stops@, k, old_states[k].after_merge(id), cc[k])
            } by {
                let k = gr@[y] as int;
                assert(k != j);
                lemma_chain_grows(plan_before, plan@, rs[k].stops@, k, old_states[k].after_merge(id), cc_prev[k]);
            }
            assert forall|y: int| 0 <= y < x implies {
                let k = #[trigger] gr@[y] as int;
                chain_ok(plan@, rs[k].stops@, k, before[k], cc[k])
            } by {
                let k = gr@[y] as int;
                assert(k != j);
                lemma_chain_grows(plan_before, plan@, rs[k].stops@, k, before[k], cc_prev[k]);
            }
            assert forall|k: int| 0 <= k < n && !gr@.contains(k as usize) implies chain_ok(plan@, rs[k].stops@, k, old_states[k], cc[k]) by {
                assert(k != j);
                assert(before[k] == old_states[k]);
                lemma_chain_grows(plan_before, plan@, rs[k].stops@, k, old_states[k], cc_prev[k]);
            }
        }
        states.set(j, resumed);
        x += 1;
    }
    proof {
        assert forall|j: int| 0 <= j < n implies (#[trigger] states@[j]).fits(rs[j].stops@.len())
            && chain_ok(plan@, rs[j].stops@, j, states@[j], cc[j]) && old_states[j].advanced_to(states@[j]) by {
            if gr@.contains(j as usize) {
                let y = choose|y: int| 0 <= y < gr@.len() && gr@[y] == j as usize;
                assert(gr@[y] as int == j);
            } else {
                crate::state::lemma_advanced_reflexive(old_states[j]);
            }
        }
        assert forall|j: int| 0 <= j < n implies chain_ok(plan@, rs[j].stops@, j, states@[j], #[trigger] cc[j]) by {
            assert(states@[j].fits(rs[j].stops@.len()));
        }
    }
    Ghost(cc)
}

/// Every route that shares the stop of `c` waits for it.
pub open spec fn all_wait(rs: Seq<GitRoute>, states: Seq<RouteBuildState>, c: StopGroup) -> bool {
    forall|x: int| 0 <= x < c.routes@.len() ==> waits_for(rs, states, #[trigger] c.routes@[x] as int, c.stop_id@)
}

/// No shared stop is awaited by all the routes that share it: no merge can
/// be made.
pub open spec fn stuck(rs: Seq<GitRoute>, conflicts: Seq<StopGroup>, states: Seq<RouteBuildState>) -> bool {
    forall|e: int| 0 <= e < conflicts.len() ==> !all_wait(rs, states, #[trigger] conflicts[e])
}

/// States and commits after the first `e` shared stops of `cs` were looked
/// at: each one that all of its routes wait for in `start` gets its merge.
pub open spec fn pass_upto(
    rs: Seq<GitRoute>,
    cs: Seq<StopGroup>,
    start: Seq<RouteBuildState>,
    plan: Seq<CommitView>,
    e: int,
) -> (Seq<RouteBuildState>, Seq<CommitView>)
    decreases e,
{
    if e <= 0 {
        (start, plan)
    } else {
        let (s1, p1) = pass_upto(rs, cs, start, plan, e - 1);
        if all_wait(rs, start, cs[e - 1]) {
            after_group(rs, group_keys(cs), s1, p1, cs[e - 1])
        } else {
            (s1, p1)
        }
    }
}

/// States and commits after one pass of the fixpoint from `st`.
pub open spec fn pass(rs: Seq<GitRoute>, cs: Seq<StopGroup>, st: Seq<RouteBuildState>, plan: Seq<CommitView>) -> (Seq<RouteBuildState>, Seq<CommitView>) {
    pass_upto(rs, cs, st, plan, cs.len() as int)
}

/// Some shared stop is awaited by all of the routes that share it.
pub open spec fn any_ready(rs: Seq<GitRoute>, cs: Seq<StopGroup>, st: Seq<RouteBuildState>) -> bool {
    exists|e: int| 0 <= e < cs.len() && all_wait(rs, st, #[trigger] cs[e])
}

/// A copy of the states.
fn copy_states(v: &Vec<RouteBuildState>) -> (r: Vec<RouteBuildState>)
    ensures
        r@ == v@,
{
    let mut r: Vec<RouteBuildState> = Vec::new();
    let mut i: usize = 0;
    while i < v.len()
        invariant
            i <= v@.len(),
            r@ == v@.take(i as int),
        decreases v@.len() - i,
    {
        r.push(v[i]);
        assert(r@ =~= v@.take(i + 1));
        i += 1;
    }
    assert(r@ =~= v@);
    r
}

/// Whether every route that shares the stop of `c` waits for it.
fn all_waiting(routes: &Vec<GitRoute>, states: &Vec<RouteBuildState>, c: &StopGroup) -> (r: bool)
    requires
        states@.len() == routes@.len(),
        forall|j: int| 0 <= j < routes@.len() ==> (#[trigger] states@[j]).fits(routes@[j].stops@.len()),
        forall|x: int| 0 <= x < c.routes@.len() ==> #[trigger] c.routes@[x] < routes@.len(),
    ensures
        r == all_wait(routes@, states@, *c),
{
    let mut x: usize = 0;
    while x < c.routes.len()
        invariant
            states@.len() == routes@.len(),
            forall|j: int| 0 <= j < routes@.len() ==> (#[trigger] states@[j]).fits(routes@[j].stops@.len()),
            forall|y: int| 0 <= y < c.routes@.len() ==> #[trigger] c.routes@[y] < routes@.len(),
            x <= c.routes@.len(),
            forall|y: int| 0 <= y < x ==> waits_for(routes@, states@, #[trigger] c.routes@[y] as int, c.stop_id@),
        decreases c.routes@.len() - x,
    {
        let j = c.routes[x];
        assert(states@[j as int].fits(routes@[j as int].stops@.len()));
        let next: usize = match states[j] {
            RouteBuildState::Built(_) => {
                return false;
            },
            RouteBuildState::Pending(idx, _, _) => idx + 1,
            RouteBuildState::Untouched(_) => 0,
        };
        if !(routes[j].stops[next].id == c.stop_id) {
            assert(stop_ids(routes@[j as int].stops@)[next as int] == routes@[j as int].stops@[next as int].id@);
            return false;
        }
        assert(stop_ids(routes@[j as int].stops@)[next as int] == routes@[j as int].stops@[next as int].id@);
        x += 1;
    }
    true
}

/// One pass of the fixpoint: each shared stop that all of the routes sharing
/// it wait for, when the pass starts, gets its merge, after which those
/// routes go on building on their own. Returns whether any merge was made;
/// if none was, nothing changed and no shared stop is awaited by all of its
/// routes.
pub fn resolve_pass(
    routes: &Vec<GitRoute>,
    conflicts: &Vec<StopGroup>,
    states: &mut Vec<RouteBuildState>,
    plan: &mut Vec<PlannedCommit>,
) -> (merged: bool)
    requires
        is_conflict_set(routes@, conflicts@),
        exists|chains: Seq<Seq<CommitId>>| progress_inv(routes@, old(states)@, old(plan)@, chains),
    ensures
        (final(states)@, views(final(plan)@)) == pass(routes@, conflicts@, old(states)@, views(old(plan)@)),
        merged == any_ready(routes@, conflicts@, old(states)@),
        exists|chains: Seq<Seq<CommitId>>| progress_inv(routes@, final(states)@, final(plan)@, chains),
        forall|j: int| 0 <= j < routes@.len() ==> old(states)@[j].advanced_to(#[trigger] final(states)@[j]),
        old(plan)@.len() <= final(plan)@.len(),
        final(plan)@.take(old(plan)@.len() as int) == old(plan)@,
        merged ==> total_remaining(routes@, final(states)@, routes@.len() as int) < total_remaining(
            routes@,
            old(states)@,
            routes@.len() as int,
        ),
        merged ==> exists|c: int|
            old(plan)@.len() <= c < final(plan)@.len() && (#[trigger] final(plan)@[c]).fast_forward@.len() >= 1,
        !merged ==> final(states)@ == old(states)@ && final(plan)@ == old(plan)@ && stuck(routes@, conflicts@, old(states)@),
{
    let ghost rs = routes@;
    let ghost n = rs.len() as int;
    let ghost cs = conflicts@;
    let ghost chains0 = choose|chains: Seq<Seq<CommitId>>| progress_inv(routes@, states@, plan@, chains);
    let ghost start_states = states@;
    let ghost start_plan = plan@;
    let snapshot = copy_states(states);
    let mut merged = false;
    let ghost mut cc = chains0;
    assert(plan@.take(start_plan.len() as int) =~= start_plan);
    let mut e: usize = 0;
    while e < conflicts.len()
        invariant
            rs == routes@,
            n == rs.len(),
            cs == conflicts@,
            snapshot@ == start_states,
            is_conflict_set(rs, cs),
            progress_inv(rs, start_states, start_plan, chains0),
            progress_inv(rs, states@, plan@, cc),
            e <= cs.len(),
            forall|j: int|
                0 <= j < n && (forall|f: int| 0 <= f < e && all_wait(rs, start_states, cs[f]) ==> !(#[trigger] cs[f]).routes@.contains(j as usize))
                    ==> #[trigger] states@[j] == start_states[j],
            forall|j: int| 0 <= j < n ==> start_states[j].advanced_to(#[trigger] states@[j]),
            start_plan.len() <= plan@.len(),
            plan@.take(start_plan.len() as int) == start_plan,
            merged == exists|f: int| 0 <= f < e && all_wait(rs, start_states, #[trigger] cs[f]),
            merged ==> total_remaining(rs, states@, n) < total_remaining(rs, start_states, n),
            merged ==> exists|c: int| start_plan.len() <= c < plan@.len() && (#[trigger] plan@[c]).fast_forward@.len() >= 1,
            !merged ==> states@ == start_states && plan@ == start_plan,
            (states@, views(plan@)) == pass_upto(rs, cs, start_states, views(start_plan), e as int),
        decreases cs.len() - e,
    {
        let g = &conflicts[e];
        assert(lists_visitors(rs, *g));
        if all_waiting(routes, &snapshot, g) {
            let ghost prev_states = states@;
            let ghost prev_plan = plan@;
            proof {
                assert forall|x: int| 0 <= x < g.routes@.len() implies #[trigger] g.routes@[x] < rs.len() && waits_for(
                    rs,
                    states@,
                    g.routes@[x] as int,
                    g.stop_id@,
                ) by {
                    let j = g.routes@[x] as int;
                    assert(waits_for(rs, start_states, j, g.stop_id@));
                    assert forall|f: int| 0 <= f < e && all_wait(rs, start_states, cs[f]) implies !(#[trigger] cs[f]).routes@.contains(j as usize) by {
                        if cs[f].routes@.contains(j as usize) {
                            let y = choose|y: int| 0 <= y < cs[f].routes@.len() && cs[f].routes@[y] == j as usize;
                            assert(waits_for(rs, start_states, cs[f].routes@[y] as int, cs[f].stop_id@));
                            assert(cs[f].stop_id@ == g.stop_id@);
                        }
                    }
                    assert(states@[j] == start_states[j]);
                }
            }
            let Ghost(nc) = merge_group(routes, conflicts, g, states, plan, Ghost(cc));
            proof {
                cc = nc;
                assert forall|j: int| 0 <= j < n implies start_states[j].advanced_to(#[trigger] states@[j]) by {
                    crate::state::lemma_advanced_transitive(start_states[j], prev_states[j], states@[j]);
                }
                assert forall|j: int|
                    0 <= j < n && (forall|f: int| 0 <= f < e + 1 && all_wait(rs, start_states, cs[f]) ==> !(#[trigger] cs[f]).routes@.contains(j as usize))
                    implies #[trigger] states@[j] == start_states[j] by {
                    assert(!cs[e as int].routes@.contains(j as usize));
                    assert(states@[j] == prev_states[j]);
                }
                assert(plan@.take(start_plan.len() as int) =~= start_plan) by {
                    assert forall|c: int| 0 <= c < start_plan.len() implies plan@[c] == start_plan[c] by {
                        assert(plan@.take(prev_plan.len() as int)[c] == plan@[c]);
                        assert(prev_plan.take(start_plan.len() as int)[c] == prev_plan[c]);
                    }
                }
                let c = prev_plan.len() as int;
                assert(plan@[c].fast_forward@.len() >= 1);
                assert(all_wait(rs, start_states, cs[e as int]));
            }
            merged = true;
        } else {
            proof {
                assert forall|j: int|
                    0 <= j < n && (forall|f: int| 0 <= f < e + 1 && all_wait(rs, start_states, cs[f]) ==> !(#[trigger] cs[f]).routes@.contains(j as usize))
                    implies #[trigger] states@[j] == start_states[j] by {
                }
                assert(merged == exists|f: int| 0 <= f < e + 1 && all_wait(rs, start_states, #[trigger] cs[f])) by {
                    if exists|f: int| 0 <= f < e + 1 && all_wait(rs, start_states, #[trigger] cs[f]) {
                        let f = choose|f: int| 0 <= f < e + 1 && all_wait(rs, start_states, #[trigger] cs[f]);
                        if f == e {
                            assert(false);
                        }
                    }
                }
            }
        }
        e += 1;
    }
    merged
}

/// Nothing is built yet of any route.
pub open spec fn init_states(rs: Seq<GitRoute>) -> Seq<RouteBuildState> {
    Seq::new(rs.len(), |j: int| RouteBuildState::Untouched(rs[j].stops@.len() as usize))
}

/// States and commits after the first `j` routes were built on their own,
/// in order.
pub open spec fn bootstrap_upto(
    rs: Seq<GitRoute>,
    keys: Seq<Seq<char>>,
    st: Seq<RouteBuildState>,
    plan: Seq<CommitView>,
    j: int,
) -> (Seq<RouteBuildState>, Seq<CommitView>)
    decreases j,
{
    if j <= 0 {
        (st, plan)
    } else {
        let (s1, p1) = bootstrap_upto(rs, keys, st, plan, j - 1);
        let k = j - 1;
        (
            s1.update(k, alone_state(rs[k].stops@, s1[k], keys, p1.len() as int)),
            p1 + alone_commits(k as usize, rs[k].stops@, s1[k], keys, p1.len() as int),
        )
    }
}

/// Every route is built.
pub open spec fn every_built(st: Seq<RouteBuildState>) -> bool {
    forall|j: int| 0 <= j < st.len() ==> #[trigger] st[j] is Built
}

/// The end of the fixpoint from `st`, with at most `fuel` passes: the states,
/// the commits, and whether it stopped without every route built.
pub open spec fn run(
    rs: Seq<GitRoute>,
    cs: Seq<StopGroup>,
    st: Seq<RouteBuildState>,
    plan: Seq<CommitView>,
    fuel: nat,
) -> (Seq<RouteBuildState>, Seq<CommitView>, bool)
    decreases fuel,
{
    if every_built(st) {
        (st, plan, false)
    } else if fuel == 0 || !any_ready(rs, cs, st) {
        (st, plan, true)
    } else {
        let (s1, p1) = pass(rs, cs, st, plan);
        run(rs, cs, s1, p1, (fuel - 1) as nat)
    }
}

/// The whole construction for routes `rs` with shared stops `cs`: each
/// route built on its own up to its first shared stop, then passes of the
/// fixpoint, at most one per stop of the routes.
pub open spec fn settled(rs: Seq<GitRoute>, cs: Seq<StopGroup>) -> (Seq<RouteBuildState>, Seq<CommitView>, bool) {
    let (st, plan) = bootstrap_upto(rs, group_keys(cs), init_states(rs), Seq::empty(), rs.len() as int);
    run(rs, cs, st, plan, (total_stops(rs, rs.len() as int) + 1) as nat)
}

proof fn lemma_total_remaining_bounded(rs: Seq<GitRoute>, st: Seq<RouteBuildState>, n: int)
    requires
        0 <= n <= rs.len(),
        n <= st.len(),
        forall|j: int| 0 <= j < n ==> (#[trigger] st[j]).fits(rs[j].stops@.len()),
    ensures
        total_remaining(rs, st, n) <= total_stops(rs, n),
    decreases n,
{
    if n > 0 {
        lemma_total_remaining_bounded(rs, st, n - 1);
        assert(st[n - 1].fits(rs[n - 1].stops@.len()));
    }
}

/// Every route has a state that says that nothing is built yet.
pub fn initialize_states(routes: &Vec<GitRoute>) -> (r: Vec<RouteBuildState>)
    ensures
        r@.len() == routes@.len(),
        forall|j: int| 0 <= j < routes@.len() ==> #[trigger] r@[j].untouched_for(routes@[j].stops@.len()),
        r@ == init_states(routes@),
{
    let mut r: Vec<RouteBuildState> = Vec::new();
    let mut j: usize = 0;
    while j < routes.len()
        invariant
            j <= routes@.len(),
            r@.len() == j,
            forall|k: int| 0 <= k < j ==> #[trigger] r@[k].untouched_for(routes@[k].stops@.len()),
            r@ == init_states(routes@).take(j as int),
        decreases routes@.len() - j,
    {
        r.push(RouteBuildState::Untouched(routes[j].stops.len()));
        assert(r@ =~= init_states(routes@).take(j + 1));
        j += 1;
    }
    assert(r@ =~= init_states(routes@));
    r
}

/// Whether every route is built.
pub fn all_built(states: &Vec<RouteBuildState>) -> (r: bool)
    ensures
        r == forall|j: int| 0 <= j < states@.len() ==> #[trigger] states@[j] is Built,
{
    let mut j: usize = 0;
    while j < states.len()
        invariant
            j <= states@.len(),
            forall|k: int| 0 <= k < j ==> #[trigger] states@[k] is Built,
        decreases states@.len() - j,
    {
        if !states[j].is_built() {
            return false;
        }
        j += 1;
    }
    true
}

/// Each route of `stops` is built, and its state holds the commit of its
/// last stop; and each commit's parents come before it.
pub open spec fn plan_covers(plan: Seq<PlannedCommit>, stops: Seq<Seq<GitStop>>, states: Seq<RouteBuildState>) -> bool {
    &&& plan_wf(plan, stops.len() as int)
    &&& forall|j: int| 0 <= j < stops.len() ==> #[trigger] route_done(plan, stops[j], j, states[j])
}

/// Route `j` is built: its state holds commit `c`, which is the commit of
/// its last stop and the last commit on its branch.
pub open spec fn route_done(plan: Seq<PlannedCommit>, stops: Seq<GitStop>, j: int, s: RouteBuildState) -> bool {
    s matches RouteBuildState::Built(c) && has_chain(plan, stops, j, c) && branch_head(plan, j, c)
}

/// `c` is the last commit on the branch of route `j`.
pub open spec fn branch_head(plan: Seq<PlannedCommit>, j: int, c: CommitId) -> bool {
    &&& c < plan.len()
    &&& on_branch(plan[c as int], j)
    &&& forall|d: int| c < d < plan.len() ==> !(#[trigger] on_branch(plan[d], j))
}

/// Every stop of route `j` has a commit in `plan`, chained in order on the
/// route's branch, the last one being `last`; and the branch holds no other
/// commit.
pub open spec fn has_chain(plan: Seq<PlannedCommit>, stops: Seq<GitStop>, j: int, last: CommitId) -> bool {
    exists|chain: Seq<CommitId>|
        #![trigger route_chain(plan, stops, j, chain)]
        chain.len() == stops.len() && route_chain(plan, stops, j, chain) && chain.last() == last
            && forall|c: int| 0 <= c < plan.len() && #[trigger] on_branch(plan[c], j) ==> chain.contains(c as usize)
}

proof fn lemma_increasing_from_steps(s: Seq<usize>, b: int)
    requires
        forall|k: int| 0 < k < s.len() ==> s[k - 1] < #[trigger] s[k],
        0 <= b < s.len(),
    ensures
        forall|a: int| 0 <= a < b ==> s[a] < s[b],
    decreases b,
{
    if b > 0 {
        lemma_increasing_from_steps(s, b - 1);
    }
}

/// The last commit of a complete chain is the head of the route's branch.
proof fn lemma_chain_ends_branch(
    plan: Seq<PlannedCommit>,
    stops: Seq<GitStop>,
    j: int,
    chain: Seq<CommitId>,
    n: int,
)
    requires
        route_chain(plan, stops, j, chain),
        chain.len() == stops.len(),
        chain.len() >= 1,
        plan_wf(plan, n),
        plan.len() <= usize::MAX,
        forall|c: int| 0 <= c < plan.len() && #[trigger] on_branch(plan[c], j) ==> chain.contains(c as usize),
    ensures
        has_chain(plan, stops, j, chain.last()),
        branch_head(plan, j, chain.last()),
{
    assert forall|k: int| 0 < k < chain.len() implies chain[k - 1] < #[trigger] chain[k] by {
        assert(plan[chain[k] as int].parents@.contains(chain[k - 1]));
        let x = choose|x: int| 0 <= x < plan[chain[k] as int].parents@.len() && plan[chain[k] as int].parents@[x] == chain[k - 1];
        assert(plan[chain[k] as int].parents@[x] < chain[k]);
    }
    lemma_increasing_from_steps(chain, chain.len() - 1);
    let last = chain.last();
    assert(on_branch(plan[last as int], j)) by {
        assert(chain[chain.len() - 1] == last);
    }
    assert forall|d: int| last < d < plan.len() implies !(#[trigger] on_branch(plan[d], j)) by {
        if on_branch(plan[d], j) {
            let i = choose|i: int| 0 <= i < chain.len() && chain[i] == d as usize;
            if i < chain.len() - 1 {
                assert(chain[i] < chain[chain.len() - 1]);
            }
        }
    }
}

/// No two routes visit a common stop.
pub open spec fn disjoint_routes(rs: Seq<GitRoute>) -> bool {
    forall|i: int, j: int, s: Seq<char>|
        0 <= i < rs.len() && 0 <= j < rs.len() && i != j ==> !(#[trigger] visits(rs, i, s) && #[trigger] visits(rs, j, s))
}

/// The number of stops of the first `n` routes.
pub open spec fn total_stops(rs: Seq<GitRoute>, n: int) -> nat
    decreases n,
{
    if n <= 0 {
        0
    } else {
        total_stops(rs, n - 1) + rs[n - 1].stops@.len()
    }
}

proof fn lemma_total_stops_same(a: Seq<GitRoute>, b: Seq<GitRoute>, n: int)
    requires
        0 <= n <= a.len(),
        n <= b.len(),
        forall|j: int| 0 <= j < n ==> (#[trigger] a[j]).stops@.len() == b[j].stops@.len(),
    ensures
        total_stops(a, n) == total_stops(b, n),
    decreases n,
{
    if n > 0 {
        lemma_total_stops_same(a, b, n - 1);
    }
}

/// The commit graph of a set of routes, with the routes in the order chosen
/// for them and the final state of each.
pub struct BuiltGraph {
    pub routes: Vec<GitRoute>,
    pub conflicts: Vec<StopGroup>,
    pub states: Vec<RouteBuildState>,
    pub commits: Vec<PlannedCommit>,
}

/// Where the construction stopped without a merge to make: the routes in
/// the order chosen for them, the shared stops, the state of each route and
/// the commits planned so far.
pub struct Deadlock {
    pub routes: Vec<GitRoute>,
    pub conflicts: Vec<StopGroup>,
    pub states: Vec<RouteBuildState>,
    pub commits: Vec<PlannedCommit>,
}

/// Why no commit graph could be built.
pub enum BuildError {
    /// The routes cannot be given one order.
    Order(OrderError),
    /// Some routes wait for shared stops that will never be ready.
    Deadlock(Deadlock),
}

/// Builds the commit graph of a set of routes: chooses one order per route,
/// finds the shared stops, builds each route on its own up to its first
/// shared stop, then merges at each shared stop once every route that
/// shares it has reached it, until every route is built.
pub fn build_repository(routes: Vec<GitRoute>) -> (r: Result<BuiltGraph, BuildError>)
    requires
        forall|j: int| 0 <= j < routes@.len() ==> (#[trigger] routes@[j]).stops@.len() >= 1,
    ensures
        match r {
            Ok(g) => {
                &&& reconcile(stops_of(routes@)) == Some(stops_of(g.routes@))
                &&& g.routes@.len() == routes@.len()
                &&& forall|j: int|
                    0 <= j < routes@.len() ==> (#[trigger] g.routes@[j]).id == routes@[j].id && g.routes@[j].name
                        == routes@[j].name
                &&& g.states@.len() == routes@.len()
                &&& forall|j: int| 0 <= j < routes@.len() ==> #[trigger] g.states@[j] is Built
                &&& plan_covers(g.commits@, stops_of(g.routes@), g.states@)
                &&& is_conflict_set(g.routes@, g.conflicts@)
                &&& settled(g.routes@, g.conflicts@) == (g.states@, views(g.commits@), false)
            },
            Err(BuildError::Order(_)) => reconcile(stops_of(routes@)) is None,
            Err(BuildError::Deadlock(d)) => {
                &&& reconcile(stops_of(routes@)) == Some(stops_of(d.routes@))
                &&& is_conflict_set(d.routes@, d.conflicts@)
                &&& d.states@.len() == routes@.len()
                &&& exists|j: int| 0 <= j < routes@.len() && !(#[trigger] d.states@[j] is Built)
                &&& stuck(d.routes@, d.conflicts@, d.states@)
                &&& settled(d.routes@, d.conflicts@) == (d.states@, views(d.commits@), true)
            },
        },
        disjoint_routes(routes@) ==> (r matches Ok(g) && g.commits@.len() == total_stops(routes@, routes@.len() as int)
            && forall|c: int|
            0 <= c < g.commits@.len() ==> (#[trigger] g.commits@[c]).fast_forward@.len() == 0
                && g.commits@[c].parents@.len() <= 1),
{
    let ghost input = routes@;
    proof {
        if disjoint_routes(input) {
            let st = stops_of(input);
            assert forall|i: int, j: int, s: Seq<char>|
                0 <= i < st.len() && 0 <= j < st.len() && i != j implies !(#[trigger] stop_ids(st[i]).contains(s)
                    && #[trigger] stop_ids(st[j]).contains(s)) by {
                assert(st[i] == input[i].stops@ && st[j] == input[j].stops@);
                if stop_ids(st[i]).contains(s) && stop_ids(st[j]).contains(s) {
                    assert(visits(input, i, s) && visits(input, j, s));
                }
            }
            crate::order::lemma_disjoint_routes_kept(st);
        }
    }
    let routes = match fix_order(routes) {
        Ok(r) => r,
        Err(e) => {
            return Err(BuildError::Order(e));
        },
    };
    let ghost rs = routes@;
    let ghost n = rs.len() as int;
    proof {
        if disjoint_routes(input) {
            let st = stops_of(input);
            assert(stops_of(rs) == st);
            assert forall|j: int| 0 <= j < n implies (#[trigger] rs[j]).stops@ == input[j].stops@ by {
                assert(stops_of(rs)[j] == st[j]);
            }
            lemma_total_stops_same(rs, input, n);
            assert forall|i: int, j: int, s: Seq<char>|
                0 <= i < n && 0 <= j < n && i != j implies !(#[trigger] visits(rs, i, s) && #[trigger] visits(rs, j, s)) by {
                assert(rs[i].stops@ == input[i].stops@ && rs[j].stops@ == input[j].stops@);
                if visits(rs, i, s) && visits(rs, j, s) {
                    assert(visits(input, i, s) && visits(input, j, s));
                }
            }
        }
    }
    assert forall|j: int| 0 <= j < n implies (#[trigger] rs[j]).stops@.len() >= 1 by {
        assert(stops_of(rs)[j] == rs[j].stops@);
        assert(stops_of(input)[j] == input[j].stops@);
        assert(input[j].stops@.len() >= 1);
        if rs[j].stops@ != input[j].stops@ {
            assert(rs[j].stops@ == crate::model::reversed(input[j].stops@));
        }
    }
    let conflicts = get_conflicts(&routes);
    proof {
        if disjoint_routes(rs) && conflicts@.len() > 0 {
            let c = conflicts@[0];
            assert(lists_visitors(rs, c));
            let j1 = c.routes@[0] as int;
            let j2 = c.routes@[1] as int;
            assert(c.routes@.contains(j1 as usize));
            assert(c.routes@.contains(j2 as usize));
            assert(visits(rs, j1, c.stop_id@) && visits(rs, j2, c.stop_id@));
        }
    }
    let mut states = initialize_states(&routes);
    let mut plan: Vec<PlannedCommit> = Vec::new();
    let ghost keys = group_keys(conflicts@);
    let ghost init = states@;
    assert(views(plan@) =~= Seq::<CommitView>::empty());
    let ghost mut chains: Seq<Seq<CommitId>> = Seq::new(n as nat, |j: int| Seq::<CommitId>::empty());
    assert(branches_owned(plan@, chains)) by {
        reveal(branches_owned);
    }
    let mut j: usize = 0;
    while j < routes.len()
        invariant
            rs == routes@,
            n == rs.len(),
            is_conflict_set(rs, conflicts@),
            j <= n,
            states@.len() == n,
            chains.len() == n,
            plan_wf(plan@, n),
            forall|k: int| 0 <= k < n ==> (#[trigger] rs[k]).stops@.len() >= 1,
            forall|k: int| 0 <= k < j ==> (#[trigger] states@[k]).fits(rs[k].stops@.len()),
            forall|k: int| 0 <= k < j ==> chain_ok(plan@, rs[k].stops@, k, states@[k], #[trigger] chains[k]),
            forall|k: int| j <= k < n ==> #[trigger] states@[k].untouched_for(rs[k].stops@.len()),
            forall|k: int| j <= k < n ==> #[trigger] chains[k] == Seq::<CommitId>::empty(),
            disjoint_routes(input) ==> conflicts@.len() == 0 && total_stops(rs, n) == total_stops(input, n),
            conflicts@.len() == 0 ==> {
                &&& plan@.len() == total_stops(rs, j as int)
                &&& forall|k: int| 0 <= k < j ==> #[trigger] states@[k] is Built
                &&& forall|c: int|
                    0 <= c < plan@.len() ==> (#[trigger] plan@[c]).fast_forward@.len() == 0 && plan@[c].parents@.len() <= 1
            },
            keys == group_keys(conflicts@),
            init == init_states(rs),
            forall|k: int| j <= k < n ==> #[trigger] states@[k] == init[k],
            branches_owned(plan@, chains),
            (states@, views(plan@)) == bootstrap_upto(rs, keys, init, Seq::empty(), j as int),
        decreases n - j,
    {
        let ghost before = plan@;
        assert(states@[j as int].untouched_for(rs[j as int].stops@.len()));
        assert(rs[j as int].stops@.len() >= 1);
        assert(chains[j as int] == Seq::<CommitId>::empty());
        let s = build_route_alone(j, &routes[j], states[j], &conflicts, &mut plan);
        // The length of a vector fits in `usize`; asking for it brings that fact in.
        let _ = plan.len();
        proof {
            crate::builder::lemma_built_alone_exact(j, rs[j as int].stops@, states@[j as int], keys, before, plan@, s);
            if conflicts@.len() == 0 {
                let ids = stop_ids(rs[j as int].stops@);
                let keys = group_keys(conflicts@);
                crate::builder::lemma_stop_point(ids, keys, 0);
                let stop = crate::builder::stop_point(ids, keys, 0);
                if stop < ids.len() {
                    assert(keys.len() == 0);
                }
                assert(stop == ids.len());
                assert forall|c: int| 0 <= c < plan@.len() implies (#[trigger] plan@[c]).fast_forward@.len() == 0
                    && plan@[c].parents@.len() <= 1 by {
                    if c < before.len() {
                        assert(plan@.take(before.len() as int)[c] == plan@[c]);
                    } else {
                        let x = c - before.len();
                        assert(planned(plan@[before.len() + x - 0], rs[j as int].stops@[x], parent_list(states@[j as int], 0, x, before.len() as int), j));
                    }
                }
            }
            assert(chain_ok(before, rs[j as int].stops@, j as int, states@[j as int], chains[j as int]));
            lemma_build_extends_chain(j, rs[j as int].stops@, states@[j as int], group_keys(conflicts@), before, plan@, s, chains[j as int]);
            lemma_build_keeps_plan_wf(j, rs[j as int].stops@, states@[j as int], group_keys(conflicts@), before, plan@, s, chains[j as int], n);
            lemma_build_keeps_owned(j, rs[j as int].stops@, states@[j as int], keys, before, plan@, s, chains);
            let ext = Seq::new((plan@.len() - before.len()) as nat, |t: int| (before.len() + t) as usize);
            let old_chains = chains;
            chains = chains.update(j as int, chains[j as int] + ext);
            assert forall|k: int| 0 <= k < j implies chain_ok(plan@, rs[k].stops@, k, states@[k], #[trigger] chains[k]) by {
                assert(chains[k] == old_chains[k]);
                lemma_chain_grows(before, plan@, rs[k].stops@, k, states@[k], old_chains[k]);
            }
        }
        states.set(j, s);
        j += 1;
    }
    proof {
        assert(progress_inv(rs, states@, plan@, chains));
        lemma_total_remaining_bounded(rs, states@, n);
    }
    let ghost mut fuel: nat = (total_stops(rs, n) + 1) as nat;
    let mut blocked = false;
    while !blocked && !all_built(&states)
        invariant
            rs == routes@,
            n == rs.len(),
            is_conflict_set(rs, conflicts@),
            states@.len() == n,
            exists|chains: Seq<Seq<CommitId>>| progress_inv(rs, states@, plan@, chains),
            blocked ==> stuck(rs, conflicts@, states@) && exists|j: int| 0 <= j < n && !(#[trigger] states@[j] is Built),
            disjoint_routes(input) ==> conflicts@.len() == 0 && total_stops(rs, n) == total_stops(input, n),
            conflicts@.len() == 0 ==> {
                &&& !blocked
                &&& plan@.len() == total_stops(rs, n)
                &&& forall|k: int| 0 <= k < n ==> #[trigger] states@[k] is Built
                &&& forall|c: int|
                    0 <= c < plan@.len() ==> (#[trigger] plan@[c]).fast_forward@.len() == 0 && plan@[c].parents@.len() <= 1
            },
            !blocked ==> run(rs, conflicts@, states@, views(plan@), fuel) == settled(rs, conflicts@),
            !blocked ==> fuel > total_remaining(rs, states@, n),
            blocked ==> settled(rs, conflicts@) == (states@, views(plan@), true),
        decreases total_remaining(rs, states@, n), if blocked { 0int } else { 1int },
    {
        let ghost ss = states@;
        let ghost ps = views(plan@);
        assert(exists|j: int| 0 <= j < n && !(#[trigger] ss[j] is Built));
        assert(!every_built(ss));
        let merged = resolve_pass(&routes, &conflicts, &mut states, &mut plan);
        if !merged {
            assert(run(rs, conflicts@, ss, ps, fuel) == (ss, ps, true));
            blocked = true;
        } else {
            proof {
                assert(run(rs, conflicts@, ss, ps, fuel) == run(rs, conflicts@, states@, views(plan@), (fuel - 1) as nat));
                fuel = (fuel - 1) as nat;
            }
        }
    }
    if blocked {
        return Err(BuildError::Deadlock(Deadlock { routes, conflicts, states, commits: plan }));
    }
    assert(every_built(states@));
    assert(run(rs, conflicts@, states@, views(plan@), fuel) == (states@, views(plan@), false));
    // The length of a vector fits in `usize`; asking for it brings that fact in.
    let _ = plan.len();
    proof {
        let chains = choose|chains: Seq<Seq<CommitId>>| progress_inv(rs, states@, plan@, chains);
        let st = stops_of(rs);
        assert forall|j: int| 0 <= j < st.len() implies #[trigger] route_done(plan@, st[j], j, states@[j]) by {
            assert(st[j] == rs[j].stops@);
            assert(chain_ok(plan@, rs[j].stops@, j, states@[j], chains[j]));
            assert(states@[j] is Built);
            assert(rs[j].stops@.len() >= 1);
            assert forall|c: int| 0 <= c < plan@.len() && #[trigger] on_branch(plan@[c], j) implies chains[j].contains(c as usize) by {
                reveal(branches_owned);
            }
            lemma_chain_ends_branch(plan@, rs[j].stops@, j, chains[j], n);
        }
    }
    Ok(BuiltGraph { routes, conflicts, states, commits: plan })
}

} // verus!
