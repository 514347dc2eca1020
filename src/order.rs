use vstd::prelude::*;
use crate::model::{GitRoute, GitStop, has_stop_id, reversed, stop_ids, stops_of, string_views};

verus! {

/// The elements of `a` that also occur in `b`, in `a`'s order, repeats kept.
pub open spec fn common_with(a: Seq<Seq<char>>, b: Seq<Seq<char>>) -> Seq<Seq<char>>
    decreases a.len(),
{
    if a.len() == 0 {
        Seq::empty()
    } else {
        let rest = common_with(a.drop_last(), b);
        if b.contains(a.last()) {
            rest.push(a.last())
        } else {
            rest
        }
    }
}

/// Two id sequences visit their common ids in the same order.
pub open spec fn same_order_ids(a: Seq<Seq<char>>, b: Seq<Seq<char>>) -> bool {
    common_with(b, a) == common_with(a, b)
}

/// Two stop sequences visit their common stops in the same order.
pub open spec fn agrees(a: Seq<GitStop>, b: Seq<GitStop>) -> bool {
    same_order_ids(stop_ids(a), stop_ids(b))
}

/// `r` agrees with every sequence of `acc`.
pub open spec fn agrees_with_all(acc: Seq<Seq<GitStop>>, r: Seq<GitStop>) -> bool {
    forall|j: int| 0 <= j < acc.len() ==> agrees(r, #[trigger] acc[j])
}

/// Any two distinct members of `acc` agree.
pub open spec fn pairwise_agree(acc: Seq<Seq<GitStop>>) -> bool {
    forall|i: int, j: int|
        0 <= i < acc.len() && 0 <= j < acc.len() && i != j ==> agrees(#[trigger] acc[i], #[trigger] acc[j])
}

/// The accepted sequences, with those that disagree with `flipped` turned around.
pub open spec fn repaired(acc: Seq<Seq<GitStop>>, flipped: Seq<GitStop>) -> Seq<Seq<GitStop>> {
    Seq::new(
        acc.len(),
        |j: int|
            if agrees(flipped, acc[j]) {
                acc[j]
            } else {
                reversed(acc[j])
            },
    )
}

/// One step of the reconciliation: the accepted orientations after `r`
/// comes in, or `None` when `r` cannot be fitted.
pub open spec fn accept(acc: Seq<Seq<GitStop>>, r: Seq<GitStop>) -> Option<Seq<Seq<GitStop>>> {
    if agrees_with_all(acc, r) {
        Some(acc.push(r))
    } else if agrees_with_all(acc, reversed(r)) {
        Some(acc.push(reversed(r)))
    } else {
        let cand = repaired(acc, reversed(r));
        if agrees_with_all(cand, r) && pairwise_agree(cand) {
            Some(cand.push(r))
        } else {
            None
        }
    }
}

/// The orientations chosen for `rs`, taken one by one in order.
pub open spec fn reconcile(rs: Seq<Seq<GitStop>>) -> Option<Seq<Seq<GitStop>>>
    decreases rs.len(),
{
    if rs.len() == 0 {
        Some(Seq::empty())
    } else {
        match reconcile(rs.drop_last()) {
            Some(acc) => accept(acc, rs.last()),
            None => None,
        }
    }
}

/// Why a set of routes could not be given one order: the route that did not
/// fit, the routes accepted before it in the orientation chosen for them, and
/// how the route compared with each of them, as given and reversed.
pub struct OrderError {
    pub route: usize,
    pub accepted: Vec<GitRoute>,
    pub agrees: Vec<bool>,
    pub agrees_reversed: Vec<bool>,
}

/// After a successful reconciliation every two routes visit their common
/// stops in the same order, and each route is kept as given or reversed.
pub proof fn lemma_reconciled_routes_agree(rs: Seq<Seq<GitStop>>)
    requires
        reconcile(rs) is Some,
    ensures
        pairwise_agree(reconcile(rs)->0),
        reconcile(rs)->0.len() == rs.len(),
        forall|i: int|
            0 <= i < rs.len() ==> (#[trigger] reconcile(rs)->0[i] == rs[i] || reconcile(rs)->0[i]
                == reversed(rs[i])),
    decreases rs.len(),
{
    if rs.len() > 0 {
        let prev = rs.drop_last();
        lemma_reconciled_routes_agree(prev);
        let acc = reconcile(prev)->0;
        let r = rs.last();
        let out = reconcile(rs)->0;
        assert(out == accept(acc, r)->0);
        if agrees_with_all(acc, r) {
            assert(out =~= acc.push(r));
            assert forall|i: int, j: int|
                0 <= i < out.len() && 0 <= j < out.len() && i != j implies agrees(
                    #[trigger] out[i],
                    #[trigger] out[j],
                ) by {
                if i < acc.len() && j < acc.len() {
                    assert(agrees(acc[i], acc[j]));
                } else if i < acc.len() {
                    assert(agrees(r, acc[i]));
                } else {
                    assert(agrees(r, acc[j]));
                }
            }
            assert forall|i: int| 0 <= i < rs.len() implies (#[trigger] out[i] == rs[i] || out[i]
                == reversed(rs[i])) by {
                if i < acc.len() {
                    assert(prev[i] == rs[i]);
                }
            }
        } else if agrees_with_all(acc, reversed(r)) {
            let f = reversed(r);
            assert(out =~= acc.push(f));
            assert forall|i: int, j: int|
                0 <= i < out.len() && 0 <= j < out.len() && i != j implies agrees(
                    #[trigger] out[i],
                    #[trigger] out[j],
                ) by {
                if i < acc.len() && j < acc.len() {
                    assert(agrees(acc[i], acc[j]));
                } else if i < acc.len() {
                    assert(agrees(f, acc[i]));
                } else {
                    assert(agrees(f, acc[j]));
                }
            }
            assert forall|i: int| 0 <= i < rs.len() implies (#[trigger] out[i] == rs[i] || out[i]
                == reversed(rs[i])) by {
                if i < acc.len() {
                    assert(prev[i] == rs[i]);
                }
            }
        } else {
            let cand = repaired(acc, reversed(r));
            assert(out =~= cand.push(r));
            assert forall|i: int, j: int|
                0 <= i < out.len() && 0 <= j < out.len() && i != j implies agrees(
                    #[trigger] out[i],
                    #[trigger] out[j],
                ) by {
                if i < acc.len() && j < acc.len() {
                    assert(agrees(cand[i], cand[j]));
                } else if i < acc.len() {
                    assert(agrees(r, cand[i]));
                } else {
                    assert(agrees(r, cand[j]));
                }
            }
            assert forall|i: int| 0 <= i < rs.len() implies (#[trigger] out[i] == rs[i] || out[i]
                == reversed(rs[i])) by {
                if i < acc.len() {
                    assert(prev[i] == rs[i]);
                    crate::model::lemma_reversed_twice(rs[i]);
                }
            }
        }
    }
}

/// The ids of `a`'s stops that `b` also visits, in `a`'s order.
fn common_ids(a: &Vec<GitStop>, b: &Vec<GitStop>) -> (r: Vec<String>)
    ensures
        string_views(r@) == common_with(stop_ids(a@), stop_ids(b@)),
{
    let mut r: Vec<String> = Vec::new();
    let mut i: usize = 0;
    while i < a.len()
        invariant
            i <= a@.len(),
            string_views(r@) == common_with(stop_ids(a@).take(i as int), stop_ids(b@)),
        decreases a@.len() - i,
    {
        let ghost prev = stop_ids(a@).take(i as int);
        assert(stop_ids(a@).take(i + 1).drop_last() =~= prev);
        if has_stop_id(b, &a[i].id) {
            r.push(a[i].id.clone());
            assert(string_views(r@) =~= common_with(prev, stop_ids(b@)).push(a@[i as int].id@));
        }
        i += 1;
    }
    assert(stop_ids(a@).take(a@.len() as int) =~= stop_ids(a@));
    r
}

/// Whether two string sequences hold the same strings in the same order.
fn same_strings(x: &Vec<String>, y: &Vec<String>) -> (r: bool)
    ensures
        r == (string_views(x@) == string_views(y@)),
{
    if x.len() != y.len() {
        assert(string_views(x@).len() != string_views(y@).len());
        return false;
    }
    let mut i: usize = 0;
    while i < x.len()
        invariant
            x@.len() == y@.len(),
            i <= x@.len(),
            forall|k: int| 0 <= k < i ==> x@[k]@ == y@[k]@,
        decreases x@.len() - i,
    {
        if !(x[i] == y[i]) {
            assert(string_views(x@)[i as int] != string_views(y@)[i as int]);
            return false;
        }
        i += 1;
    }
    assert(string_views(x@) =~= string_views(y@));
    true
}

/// Whether two routes visit the stops they share in the same order.
pub fn same_order(a: &GitRoute, b: &GitRoute) -> (r: bool)
    ensures
        r == agrees(a.stops@, b.stops@),
{
    let common_stops = common_ids(&b.stops, &a.stops);
    let a_stops = common_ids(&a.stops, &b.stops);
    same_strings(&a_stops, &common_stops)
}

/// Whether `route` agrees with every route of `acc`.
fn agrees_with_every(acc: &Vec<GitRoute>, route: &GitRoute) -> (r: bool)
    ensures
        r == agrees_with_all(stops_of(acc@), route.stops@),
{
    let mut j: usize = 0;
    while j < acc.len()
        invariant
            j <= acc@.len(),
            forall|k: int| 0 <= k < j ==> agrees(route.stops@, #[trigger] stops_of(acc@)[k]),
        decreases acc@.len() - j,
    {
        if !same_order(route, &acc[j]) {
            assert(!agrees(route.stops@, stops_of(acc@)[j as int]));
            return false;
        }
        j += 1;
    }
    true
}

/// How `route` compares with each route of `acc`.
fn verdicts(acc: &Vec<GitRoute>, route: &GitRoute) -> (r: Vec<bool>)
    ensures
        r@.len() == acc@.len(),
        forall|j: int| 0 <= j < acc@.len() ==> r@[j] == agrees(route.stops@, #[trigger] acc@[j].stops@),
{
    let mut r: Vec<bool> = Vec::new();
    let mut j: usize = 0;
    while j < acc.len()
        invariant
            j <= acc@.len(),
            r@.len() == j,
            forall|k: int| 0 <= k < j ==> r@[k] == agrees(route.stops@, #[trigger] acc@[k].stops@),
        decreases acc@.len() - j,
    {
        r.push(same_order(route, &acc[j]));
        j += 1;
    }
    r
}

/// Whether any two distinct routes of `acc` agree.
fn all_pairs_agree(acc: &Vec<GitRoute>) -> (r: bool)
    ensures
        r == pairwise_agree(stops_of(acc@)),
{
    let ghost s = stops_of(acc@);
    let mut i: usize = 0;
    while i < acc.len()
        invariant
            s == stops_of(acc@),
            i <= acc@.len(),
            forall|a: int, b: int|
                0 <= a < i && 0 <= b < acc@.len() && a != b ==> agrees(#[trigger] s[a], #[trigger] s[b]),
        decreases acc@.len() - i,
    {
        let mut j: usize = 0;
        while j < acc.len()
            invariant
                s == stops_of(acc@),
                i < acc@.len(),
                j <= acc@.len(),
                forall|a: int, b: int|
                    0 <= a < i && 0 <= b < acc@.len() && a != b ==> agrees(#[trigger] s[a], #[trigger] s[b]),
                forall|b: int| 0 <= b < j && b != i ==> agrees(s[i as int], #[trigger] s[b]),
            decreases acc@.len() - j,
        {
            if j != i && !same_order(&acc[i], &acc[j]) {
                assert(!agrees(s[i as int], s[j as int]));
                return false;
            }
            j += 1;
        }
        i += 1;
    }
    true
}

/// `acc` with each route that disagrees with `flipped` turned around.
fn repair(acc: &Vec<GitRoute>, flipped: &GitRoute) -> (r: Vec<GitRoute>)
    ensures
        stops_of(r@) == repaired(stops_of(acc@), flipped.stops@),
        r@.len() == acc@.len(),
        forall|j: int|
            0 <= j < acc@.len() ==> (#[trigger] r@[j]).id == acc@[j].id && r@[j].name == acc@[j].name,
{
    let mut r: Vec<GitRoute> = Vec::new();
    let mut j: usize = 0;
    while j < acc.len()
        invariant
            j <= acc@.len(),
            stops_of(r@) == repaired(stops_of(acc@), flipped.stops@).take(j as int),
            r@.len() == j,
            forall|k: int|
                0 <= k < j ==> (#[trigger] r@[k]).id == acc@[k].id && r@[k].name == acc@[k].name,
        decreases acc@.len() - j,
    {
        if same_order(flipped, &acc[j]) {
            r.push(acc[j].duplicate());
        } else {
            r.push(acc[j].reversed());
        }
        assert(stops_of(r@) =~= repaired(stops_of(acc@), flipped.stops@).take(j + 1));
        j += 1;
    }
    assert(repaired(stops_of(acc@), flipped.stops@).take(j as int) =~= repaired(
        stops_of(acc@),
        flipped.stops@,
    ));
    r
}

proof fn lemma_nothing_in_common(a: Seq<Seq<char>>, b: Seq<Seq<char>>)
    requires
        forall|x: Seq<char>| !(a.contains(x) && b.contains(x)),
    ensures
        common_with(a, b) == Seq::<Seq<char>>::empty(),
    decreases a.len(),
{
    if a.len() > 0 {
        assert(a.contains(a.last()));
        assert forall|x: Seq<char>| !(a.drop_last().contains(x) && b.contains(x)) by {
            if a.drop_last().contains(x) {
                let i = choose|i: int| 0 <= i < a.drop_last().len() && a.drop_last()[i] == x;
                assert(a[i] == x);
            }
        }
        lemma_nothing_in_common(a.drop_last(), b);
    }
}

/// Stop sequences of which no two share a stop are each kept as given.
pub proof fn lemma_disjoint_routes_kept(rs: Seq<Seq<GitStop>>)
    requires
        forall|i: int, j: int, s: Seq<char>|
            0 <= i < rs.len() && 0 <= j < rs.len() && i != j ==> !(#[trigger] stop_ids(rs[i]).contains(s)
                && #[trigger] stop_ids(rs[j]).contains(s)),
    ensures
        reconcile(rs) == Some(rs),
    decreases rs.len(),
{
    if rs.len() > 0 {
        let prev = rs.drop_last();
        assert forall|i: int, j: int, s: Seq<char>|
            0 <= i < prev.len() && 0 <= j < prev.len() && i != j implies !(#[trigger] stop_ids(prev[i]).contains(s)
                && #[trigger] stop_ids(prev[j]).contains(s)) by {
            assert(prev[i] == rs[i] && prev[j] == rs[j]);
        }
        lemma_disjoint_routes_kept(prev);
        let r = rs.last();
        assert forall|j: int| 0 <= j < prev.len() implies agrees(r, #[trigger] prev[j]) by {
            assert(prev[j] == rs[j]);
            assert forall|x: Seq<char>| !(stop_ids(r).contains(x) && stop_ids(prev[j]).contains(x)) by {
                if stop_ids(r).contains(x) && stop_ids(prev[j]).contains(x) {
                    assert(stop_ids(rs[rs.len() - 1]).contains(x));
                }
            }
            lemma_nothing_in_common(stop_ids(r), stop_ids(prev[j]));
            assert forall|x: Seq<char>| !(stop_ids(prev[j]).contains(x) && stop_ids(r).contains(x)) by {}
            lemma_nothing_in_common(stop_ids(prev[j]), stop_ids(r));
        }
        assert(prev.push(r) =~= rs);
    }
}

/// Once a prefix cannot be reconciled, no longer sequence can.
proof fn lemma_reconcile_fails_onward(rs: Seq<Seq<GitStop>>, k: int)
    requires
        0 <= k <= rs.len(),
        reconcile(rs.take(k)) is None,
    ensures
        reconcile(rs) is None,
    decreases rs.len(),
{
    if rs.len() == k {
        assert(rs.take(k) =~= rs);
    } else {
        assert(rs.drop_last().take(k) =~= rs.take(k));
        lemma_reconcile_fails_onward(rs.drop_last(), k);
    }
}

/// Chooses for each route its given or its reversed order, so that every
/// two routes visit their common stops in the same order. Routes are taken
/// in order: each one is kept if it agrees with all accepted routes, else
/// reversed if that agrees; else the accepted routes that disagree with its
/// reversal are turned around, and the result is kept if it is consistent.
/// Positions, ids and names are kept.
pub fn fix_order(routes: Vec<GitRoute>) -> (r: Result<Vec<GitRoute>, OrderError>)
    ensures
        match r {
            Ok(out) => {
                &&& reconcile(stops_of(routes@)) == Some(stops_of(out@))
                &&& out@.len() == routes@.len()
                &&& forall|i: int|
                    0 <= i < routes@.len() ==> (#[trigger] out@[i]).id == routes@[i].id
                        && out@[i].name == routes@[i].name
                &&& forall|i: int|
                    0 <= i < routes@.len() ==> (#[trigger] out@[i].stops@ == routes@[i].stops@
                        || out@[i].stops@ == reversed(routes@[i].stops@))
                &&& pairwise_agree(stops_of(out@))
            },
            Err(e) => {
                let acc = reconcile(stops_of(routes@).take(e.route as int))->0;
                let failed = routes@[e.route as int].stops@;
                &&& reconcile(stops_of(routes@)) is None
                &&& e.route < routes@.len()
                &&& reconcile(stops_of(routes@).take(e.route as int)) is Some
                &&& accept(acc, failed) is None
                &&& stops_of(e.accepted@) == acc
                &&& e.agrees@.len() == acc.len()
                &&& e.agrees_reversed@.len() == acc.len()
                &&& forall|j: int| 0 <= j < acc.len() ==> e.agrees@[j] == agrees(failed, #[trigger] acc[j])
                &&& forall|j: int|
                    0 <= j < acc.len() ==> e.agrees_reversed@[j] == agrees(reversed(failed), #[trigger] acc[j])
            },
        },
{
    let ghost rs = stops_of(routes@);
    let mut acc: Vec<GitRoute> = Vec::new();
    let mut i: usize = 0;
    assert(rs.take(0) =~= Seq::<Seq<GitStop>>::empty());
    assert(stops_of(acc@) =~= Seq::<Seq<GitStop>>::empty());
    while i < routes.len()
        invariant
            rs == stops_of(routes@),
            i <= routes@.len(),
            reconcile(rs.take(i as int)) == Some(stops_of(acc@)),
            acc@.len() == i,
            forall|k: int|
                0 <= k < i ==> (#[trigger] acc@[k]).id == routes@[k].id && acc@[k].name == routes@[k].name,
        decreases routes@.len() - i,
    {
        let ghost before = stops_of(acc@);
        assert(rs.take(i + 1).drop_last() =~= rs.take(i as int));
        assert(rs.take(i + 1).last() == routes@[i as int].stops@);
        assert(reconcile(rs.take(i + 1)) == accept(before, routes@[i as int].stops@));
        let route = &routes[i];
        if agrees_with_every(&acc, route) {
            acc.push(route.duplicate());
            assert(stops_of(acc@) =~= before.push(route.stops@));
        } else {
            let flipped = route.reversed();
            if agrees_with_every(&acc, &flipped) {
                acc.push(flipped);
                assert(stops_of(acc@) =~= before.push(reversed(route.stops@)));
            } else {
                let cand = repair(&acc, &flipped);
                if agrees_with_every(&cand, route) && all_pairs_agree(&cand) {
                    let ghost cs = stops_of(cand@);
                    acc = cand;
                    acc.push(route.duplicate());
                    assert(stops_of(acc@) =~= cs.push(route.stops@));
                } else {
                    proof {
                        lemma_reconcile_fails_onward(rs, i + 1);
                    }
                    let agrees = verdicts(&acc, route);
                    let agrees_reversed = verdicts(&acc, &flipped);
                    return Err(OrderError { route: i, accepted: acc, agrees, agrees_reversed });
                }
            }
        }
        i += 1;
    }
    assert(rs.take(i as int) =~= rs);
    proof {
        lemma_reconciled_routes_agree(rs);
    }
    assert(stops_of(acc@) == reconcile(rs)->0);
    assert forall|k: int| 0 <= k < routes@.len() implies (#[trigger] acc@[k].stops@ == routes@[k].stops@
        || acc@[k].stops@ == reversed(routes@[k].stops@)) by {
        assert(stops_of(acc@)[k] == acc@[k].stops@);
        assert(rs[k] == routes@[k].stops@);
    }
    Ok(acc)
}

} // verus!
