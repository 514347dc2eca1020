use vstd::prelude::*;
use crate::model::{GitRoute, stop_ids};

verus! {

/// A stop id with routes, given by their positions in increasing order:
/// the routes that share the stop, or the routes that wait for it.
#[derive(Debug)]
pub struct StopGroup {
    pub stop_id: String,
    pub routes: Vec<usize>,
}

/// Route `j` of `rs` visits the stop with id `s`.
pub open spec fn visits(rs: Seq<GitRoute>, j: int, s: Seq<char>) -> bool {
    stop_ids(rs[j].stops@).contains(s)
}

/// The positions in `v` increase strictly.
pub open spec fn increasing(v: Seq<usize>) -> bool {
    forall|a: int, b: int| 0 <= a < b < v.len() ==> v[a] < v[b]
}

/// `c` lists, in increasing order, exactly the routes of `rs` that visit its stop.
pub open spec fn lists_visitors(rs: Seq<GitRoute>, c: StopGroup) -> bool {
    &&& increasing(c.routes@)
    &&& forall|x: int| 0 <= x < c.routes@.len() ==> #[trigger] c.routes@[x] < rs.len()
    &&& forall|j: int| 0 <= j < rs.len() ==> (c.routes@.contains(j as usize) <==> visits(rs, j, c.stop_id@))
}

/// `cs` holds one entry for each stop visited by two or more distinct
/// routes of `rs`, and no other entry.
pub open spec fn is_conflict_set(rs: Seq<GitRoute>, cs: Seq<StopGroup>) -> bool {
    &&& forall|e: int| 0 <= e < cs.len() ==> lists_visitors(rs, #[trigger] cs[e]) && cs[e].routes@.len() >= 2
    &&& forall|a: int, b: int| 0 <= a < cs.len() && 0 <= b < cs.len() && a != b ==> #[trigger] cs[a].stop_id@ != #[trigger] cs[b].stop_id@
    &&& forall|s: Seq<char>, j1: int, j2: int|
        0 <= j1 < rs.len() && 0 <= j2 < rs.len() && j1 != j2 && #[trigger] visits(rs, j1, s) && #[trigger] visits(rs, j2, s)
            ==> exists|e: int| 0 <= e < cs.len() && #[trigger] cs[e].stop_id@ == s
}

/// Route `j` visits `s` among the stops scanned so far: all of the routes
/// before `i`, and the first `k` stops of route `i`.
spec fn seen(rs: Seq<GitRoute>, i: int, k: int, j: int, s: Seq<char>) -> bool {
    ||| 0 <= j < i && visits(rs, j, s)
    ||| j == i && stop_ids(rs[i].stops@).take(k).contains(s)
}

/// The invariant of the scan in `get_conflicts`.
spec fn scanned(rs: Seq<GitRoute>, i: int, k: int, all: Seq<StopGroup>) -> bool {
    &&& forall|a: int, b: int| 0 <= a < all.len() && 0 <= b < all.len() && a != b ==> #[trigger] all[a].stop_id@ != #[trigger] all[b].stop_id@
    &&& forall|e: int| 0 <= e < all.len() ==> {
        let c = #[trigger] all[e];
        &&& increasing(c.routes@)
        &&& c.routes@.len() > 0
        &&& forall|x: int| 0 <= x < c.routes@.len() ==> #[trigger] c.routes@[x] <= i
        &&& forall|j: int| 0 <= j <= i ==> (c.routes@.contains(j as usize) <==> seen(rs, i, k, j, c.stop_id@))
    }
    &&& forall|s: Seq<char>, j: int| 0 <= j <= i && #[trigger] seen(rs, i, k, j, s) ==> exists|e: int| 0 <= e < all.len() && #[trigger] all[e].stop_id@ == s
}

/// A copy of a sequence of positions.
fn copy_positions(v: &Vec<usize>) -> (r: Vec<usize>)
    ensures
        r@ == v@,
{
    let mut r: Vec<usize> = Vec::new();
    let mut i: usize = 0;
    while i < v.len()
        invariant
            i <= v@.len(),
            r@ == v@.take(i as int),
        decreases v@.len() - i,
    {
        r.push(v[i]);
        assert(r@ =~= v@.take(i + 1));
        i += 1;
    }
    assert(r@ =~= v@);
    r
}

/// The stops shared by two or more distinct routes, each with the routes
/// that visit it. A route that visits a stop twice counts once.
pub fn get_conflicts(routes: &Vec<GitRoute>) -> (r: Vec<StopGroup>)
    ensures
        is_conflict_set(routes@, r@),
{
    let ghost rs = routes@;
    let mut all: Vec<StopGroup> = Vec::new();
    let mut i: usize = 0;
    while i < routes.len()
        invariant
            rs == routes@,
            i <= rs.len(),
            scanned(rs, i as int, 0, all@),
        decreases rs.len() - i,
    {
        let stops = &routes[i].stops;
        let mut k: usize = 0;
        while k < stops.len()
            invariant
                rs == routes@,
                i < rs.len(),
                *stops == rs[i as int].stops,
                k <= stops@.len(),
                scanned(rs, i as int, k as int, all@),
            decreases stops@.len() - k,
        {
            let ghost before = all@;
            let ghost ids = stop_ids(stops@);
            let id = &stops[k].id;
            assert(ids.take(k + 1) =~= ids.take(k as int).push(id@));
            assert forall|j: int, s: Seq<char>| 0 <= j <= i implies #[trigger] seen(rs, i as int, k + 1, j, s)
                == (seen(rs, i as int, k as int, j, s) || (j == i && s == id@)) by {
                if j == i {
                    if ids.take(k + 1).contains(s) && s != id@ {
                        let x = choose|x: int| 0 <= x < k + 1 && #[trigger] ids.take(k + 1)[x] == s;
                        assert(ids.take(k as int)[x] == s);
                    }
                    if s == id@ {
                        assert(ids.take(k + 1)[k as int] == s);
                    }
                    if ids.take(k as int).contains(s) {
                        let x = choose|x: int| 0 <= x < k && #[trigger] ids.take(k as int)[x] == s;
                        assert(ids.take(k + 1)[x] == s);
                    }
                }
            }
            let mut e: usize = 0;
            let mut found = false;
            while !found && e < all.len()
                invariant
                    all@ == before,
                    e <= all@.len(),
                    forall|x: int| 0 <= x < e ==> #[trigger] all@[x].stop_id@ != id@,
                    found ==> e < all@.len() && all@[e as int].stop_id@ == id@,
                decreases all@.len() - e + (if found { 0int } else { 1int }),
            {
                if all[e].stop_id == *id {
                    found = true;
                } else {
                    e += 1;
                }
            }
            if found {
                let c = &all[e];
                let last = c.routes[c.routes.len() - 1];
                if last != i {
                    all[e].routes.push(i);
                    assert forall|x: int| 0 <= x < all@.len() && x != e implies #[trigger] all@[x] == before[x] by {}
                    let ghost c2 = all@[e as int];
                    assert forall|a: int, b: int| 0 <= a < c2.routes@.len() && a < b < c2.routes@.len() implies c2.routes@[a] < c2.routes@[b] by {
                        if b == c2.routes@.len() - 1 {
                            assert(before[e as int].routes@[a] <= before[e as int].routes@.last());
                        }
                    }
                    assert forall|j: int| 0 <= j <= i implies (c2.routes@.contains(j as usize) <==> #[trigger] seen(rs, i as int, k + 1, j, c2.stop_id@)) by {
                        if j < i && c2.routes@.contains(j as usize) {
                            let x = choose|x: int| 0 <= x < c2.routes@.len() && #[trigger] c2.routes@[x] == j as usize;
                            assert(before[e as int].routes@[x] == j as usize);
                        }
                        if j < i && seen(rs, i as int, k + 1, j, c2.stop_id@) {
                            assert(before[e as int].routes@.contains(j as usize));
                            let x = choose|x: int| 0 <= x < before[e as int].routes@.len() && #[trigger] before[e as int].routes@[x] == j as usize;
                            assert(c2.routes@[x] == j as usize);
                        }
                        if j == i {
                            assert(c2.routes@.last() == i);
                        }
                    }
                } else {
                    let ghost c0 = before[e as int];
                    assert(c0.routes@.contains(i) ) by {
                        assert(c0.routes@[c0.routes@.len() - 1] == i);
                    }
                }
                assert forall|s: Seq<char>, j: int| 0 <= j <= i && #[trigger] seen(rs, i as int, k + 1, j, s) implies exists|x: int| 0 <= x < all@.len() && #[trigger] all@[x].stop_id@ == s by {
                    if s == id@ {
                        assert(all@[e as int].stop_id@ == s);
                    } else {
                        assert(seen(rs, i as int, k as int, j, s));
                        let x = choose|x: int| 0 <= x < before.len() && #[trigger] before[x].stop_id@ == s;
                        assert(all@[x].stop_id@ == s);
                    }
                }
            } else {
                assert(forall|x: int| 0 <= x < before.len() ==> #[trigger] before[x].stop_id@ != id@);
                let mut first: Vec<usize> = Vec::new();
                first.push(i);
                all.push(StopGroup { stop_id: id.clone(), routes: first });
                let ghost c2 = all@[before.len() as int];
                assert forall|j: int| 0 <= j <= i implies (c2.routes@.contains(j as usize) <==> #[trigger] seen(rs, i as int, k + 1, j, c2.stop_id@)) by {
                    if j < i && seen(rs, i as int, k + 1, j, id@) {
                        assert(seen(rs, i as int, k as int, j, id@));
                        let x = choose|x: int| 0 <= x < before.len() && #[trigger] before[x].stop_id@ == id@;
                        assert(false);
                    }
                    if j == i {
                        assert(c2.routes@[0] == i);
                    }
                }
                assert forall|s: Seq<char>, j: int| 0 <= j <= i && #[trigger] seen(rs, i as int, k + 1, j, s) implies exists|x: int| 0 <= x < all@.len() && #[trigger] all@[x].stop_id@ == s by {
                    if s == id@ {
                        assert(all@[before.len() as int].stop_id@ == s);
                    } else {
                        assert(seen(rs, i as int, k as int, j, s));
                        let x = choose|x: int| 0 <= x < before.len() && #[trigger] before[x].stop_id@ == s;
                        assert(all@[x].stop_id@ == s);
                    }
                }
            }
            k += 1;
        }
        let ghost ids = stop_ids(stops@);
        assert(ids.take(k as int) =~= ids);
        assert forall|j: int, s: Seq<char>| 0 <= j <= i + 1 implies #[trigger] seen(rs, i + 1, 0, j, s)
            == (j <= i && seen(rs, i as int, k as int, j, s)) by {
            if j == i + 1 {
                assert(stop_ids(rs[j].stops@).take(0) =~= Seq::<Seq<char>>::empty());
            }
        }
        i += 1;
    }
    let ghost whole = all@;
    assert forall|e: int| 0 <= e < whole.len() implies lists_visitors(rs, #[trigger] whole[e]) by {
        let c = whole[e];
        assert forall|j: int| 0 <= j < rs.len() implies (c.routes@.contains(j as usize) <==> visits(rs, j, c.stop_id@)) by {
            assert(seen(rs, i as int, 0, j, c.stop_id@) == visits(rs, j, c.stop_id@));
        }
        assert forall|x: int| 0 <= x < c.routes@.len() implies #[trigger] c.routes@[x] < rs.len() by {
            assert(c.routes@[x] <= i);
            if c.routes@[x] == i {
                assert(c.routes@.contains(i));
                assert(seen(rs, i as int, 0, i as int, c.stop_id@));
                assert(stop_ids(rs[i as int].stops@).take(0) =~= Seq::<Seq<char>>::empty());
            }
        }
    }
    let out = keep_shared(&all);
    proof {
        let cs = out@;
        assert forall|x: int| 0 <= x < cs.len() implies lists_visitors(rs, #[trigger] cs[x]) && cs[x].routes@.len() >= 2 by {
            let y = choose|y: int| 0 <= y < whole.len() && #[trigger] same_group(cs[x], whole[y]);
            assert(lists_visitors(rs, whole[y]));
        }
        assert forall|s: Seq<char>, j1: int, j2: int|
            0 <= j1 < rs.len() && 0 <= j2 < rs.len() && j1 != j2 && #[trigger] visits(rs, j1, s) && #[trigger] visits(rs, j2, s)
            implies exists|e: int| 0 <= e < cs.len() && #[trigger] cs[e].stop_id@ == s by {
            assert(seen(rs, i as int, 0, j1, s));
            let x = choose|x: int| 0 <= x < whole.len() && #[trigger] whole[x].stop_id@ == s;
            let c = whole[x];
            assert(seen(rs, i as int, 0, j1, c.stop_id@));
            assert(seen(rs, i as int, 0, j2, c.stop_id@));
            assert(c.routes@.contains(j1 as usize));
            assert(c.routes@.contains(j2 as usize));
            let p = choose|p: int| 0 <= p < c.routes@.len() && #[trigger] c.routes@[p] == j1 as usize;
            let q = choose|q: int| 0 <= q < c.routes@.len() && #[trigger] c.routes@[q] == j2 as usize;
            assert(p != q);
            assert(shared(whole[x]));
            let y = choose|y: int| 0 <= y < cs.len() && #[trigger] same_group(cs[y], whole[x]);
            assert(cs[y].stop_id@ == s);
        }
    }
    out
}

/// The group holds two routes or more.
pub open spec fn shared(g: StopGroup) -> bool {
    g.routes@.len() >= 2
}

/// Two groups hold the same stop id and the same routes.
pub open spec fn same_group(a: StopGroup, b: StopGroup) -> bool {
    a.stop_id@ == b.stop_id@ && a.routes@ == b.routes@
}

/// The groups of `all` with two routes or more, in order.
pub fn keep_shared(all: &Vec<StopGroup>) -> (out: Vec<StopGroup>)
    requires
        forall|a: int, b: int| 0 <= a < all@.len() && 0 <= b < all@.len() && a != b ==> #[trigger] all@[a].stop_id@ != #[trigger] all@[b].stop_id@,
    ensures
        forall|x: int| 0 <= x < out@.len() ==> (#[trigger] out@[x]).routes@.len() >= 2 && exists|y: int| 0 <= y < all@.len() && #[trigger] same_group(out@[x], all@[y]),
        forall|y: int| 0 <= y < all@.len() && #[trigger] shared(all@[y]) ==> exists|x: int| 0 <= x < out@.len() && #[trigger] same_group(out@[x], all@[y]),
        forall|a: int, b: int| 0 <= a < out@.len() && 0 <= b < out@.len() && a != b ==> #[trigger] out@[a].stop_id@ != #[trigger] out@[b].stop_id@,
{
    let ghost whole = all@;
    let mut out: Vec<StopGroup> = Vec::new();
    let ghost mut taken: Seq<int> = Seq::empty();
    let mut e: usize = 0;
    while e < all.len()
        invariant
            all@ == whole,
            e <= whole.len(),
            forall|a: int, b: int| 0 <= a < whole.len() && 0 <= b < whole.len() && a != b ==> #[trigger] whole[a].stop_id@ != #[trigger] whole[b].stop_id@,
            out@.len() == taken.len(),
            forall|x: int| 0 <= x < taken.len() ==> 0 <= #[trigger] taken[x] < e && same_group(out@[x], whole[taken[x]]),
            forall|x: int, y: int| 0 <= x < y < taken.len() ==> #[trigger] taken[x] < #[trigger] taken[y],
            forall|x: int| 0 <= x < e && #[trigger] shared(whole[x]) ==> exists|y: int| 0 <= y < taken.len() && #[trigger] taken[y] == x,
            forall|x: int| 0 <= x < out@.len() ==> (#[trigger] out@[x]).routes@.len() >= 2,
        decreases whole.len() - e,
    {
        if all[e].routes.len() >= 2 {
            let routes_copy = copy_positions(&all[e].routes);
            out.push(StopGroup { stop_id: all[e].stop_id.clone(), routes: routes_copy });
            proof {
                let old_taken = taken;
                taken = taken.push(e as int);
                assert forall|x: int| 0 <= x < e + 1 && #[trigger] shared(whole[x]) implies exists|y: int| 0 <= y < taken.len() && #[trigger] taken[y] == x by {
                    if x < e {
                        let y = choose|y: int| 0 <= y < old_taken.len() && #[trigger] old_taken[y] == x;
                        assert(taken[y] == x);
                    } else {
                        assert(taken[taken.len() - 1] == x);
                    }
                }
            }
        }
        e += 1;
    }
    proof {
        let cs = out@;
        assert forall|x: int| 0 <= x < cs.len() implies (#[trigger] cs[x]).routes@.len() >= 2 && exists|y: int| 0 <= y < whole.len() && #[trigger] same_group(cs[x], whole[y]) by {
            assert(same_group(cs[x], whole[taken[x]]));
        }
        assert forall|y: int| 0 <= y < whole.len() && #[trigger] shared(whole[y]) implies exists|x: int| 0 <= x < cs.len() && #[trigger] same_group(cs[x], whole[y]) by {
            let x = choose|x: int| 0 <= x < taken.len() && #[trigger] taken[x] == y;
            assert(same_group(cs[x], whole[taken[x]]));
        }
        assert forall|a: int, b: int| 0 <= a < cs.len() && 0 <= b < cs.len() && a != b implies #[trigger] cs[a].stop_id@ != #[trigger] cs[b].stop_id@ by {
            assert(taken[a] != taken[b]) by {
                if a < b {
                    assert(taken[a] < taken[b]);
                } else {
                    assert(taken[b] < taken[a]);
                }
            }
            assert(whole[taken[a]].stop_id@ != whole[taken[b]].stop_id@);
        }
    }
    out
}

} // verus!
