use gtfs_git::builder::PlannedCommit;
use gtfs_git::driver::{build_repository, BuildError, BuiltGraph};
use gtfs_git::model::{GitRoute, GitStop};
use gtfs_git::state::RouteBuildState;

fn stop(id: &str) -> GitStop {
    GitStop { id: id.to_string(), name: format!("Stop {}", id) }
}

fn route(id: &str, stops: &[&str]) -> GitRoute {
    GitRoute { id: id.to_string(), name: format!("Line {}", id), stops: stops.iter().map(|s| stop(s)).collect() }
}

fn stop_ids(r: &GitRoute) -> Vec<String> {
    r.stops.iter().map(|s| s.id.clone()).collect()
}

fn built(routes: Vec<GitRoute>) -> BuiltGraph {
    match build_repository(routes) {
        Ok(g) => g,
        Err(BuildError::Order(e)) => panic!("order error at route {}", e.route),
        Err(BuildError::Deadlock(_)) => panic!("deadlock"),
    }
}

fn merges(commits: &[PlannedCommit]) -> usize {
    commits.iter().filter(|c| !c.fast_forward.is_empty()).count()
}

/// The head of each route's branch after the commits are made in order.
fn branch_heads(n: usize, commits: &[PlannedCommit]) -> Vec<Option<usize>> {
    let mut heads = vec![None; n];
    for (i, c) in commits.iter().enumerate() {
        heads[c.branch] = Some(i);
        for &f in &c.fast_forward {
            heads[f] = Some(i);
        }
    }
    heads
}

#[test]
fn disjoint_routes_make_independent_branches() {
    let routes = vec![route("A", &["a1", "a2", "a3"]), route("B", &["b1", "b2"]), route("C", &["c1"])];
    let g = built(routes);
    assert_eq!(g.commits.len(), 3 + 2 + 1);
    assert_eq!(merges(&g.commits), 0);
    for c in &g.commits {
        assert!(c.parents.len() <= 1);
    }
    let branches: std::collections::HashSet<usize> = g.commits.iter().map(|c| c.branch).collect();
    assert_eq!(branches.len(), 3);
    assert!(g.states.iter().all(|s| matches!(s, RouteBuildState::Built(_))));
}

#[test]
fn shared_stop_makes_one_merge_commit() {
    let routes = vec![route("A", &["S1", "S2", "S3"]), route("B", &["S4", "S2", "S5"])];
    let g = built(routes);
    assert_eq!(g.commits.len(), 5);
    let c = &g.commits;
    assert_eq!(c[0].stop.id, "S1");
    assert!(c[0].parents.is_empty());
    assert_eq!(c[0].branch, 0);
    assert_eq!(c[1].stop.id, "S4");
    assert!(c[1].parents.is_empty());
    assert_eq!(c[1].branch, 1);
    assert_eq!(c[2].stop.id, "S2");
    assert_eq!(c[2].parents, vec![0, 1]);
    assert_eq!(c[2].branch, 0);
    assert_eq!(c[2].fast_forward, vec![1]);
    assert_eq!(c[3].stop.id, "S3");
    assert_eq!(c[3].parents, vec![2]);
    assert_eq!(c[3].branch, 0);
    assert_eq!(c[4].stop.id, "S5");
    assert_eq!(c[4].parents, vec![2]);
    assert_eq!(c[4].branch, 1);
    assert_eq!(g.states, vec![RouteBuildState::Built(3), RouteBuildState::Built(4)]);
    assert_eq!(branch_heads(2, &g.commits), vec![Some(3), Some(4)]);
    assert_eq!(g.conflicts.len(), 1);
    assert_eq!(g.conflicts[0].stop_id, "S2");
}

#[test]
fn reversed_route_is_turned_around() {
    let routes = vec![route("A", &["S1", "S2", "S3"]), route("B", &["S3", "S2", "S1"])];
    let g = built(routes);
    assert_eq!(stop_ids(&g.routes[0]), vec!["S1", "S2", "S3"]);
    assert_eq!(stop_ids(&g.routes[1]), vec!["S1", "S2", "S3"]);
    assert_eq!(g.commits.len(), 3);
    assert_eq!(merges(&g.commits), 3);
    assert!(g.commits[0].parents.is_empty());
    assert_eq!(g.commits[1].parents, vec![0]);
    assert_eq!(g.commits[2].parents, vec![1]);
    assert_eq!(g.states, vec![RouteBuildState::Built(2), RouteBuildState::Built(2)]);
    for c in &g.commits {
        assert_eq!(c.branch, 0);
        assert_eq!(c.fast_forward, vec![1]);
    }
    assert_eq!(branch_heads(2, &g.commits), vec![Some(2), Some(2)]);
}

#[test]
fn ordering_cycle_is_rejected() {
    let routes = vec![
        route("R1", &["a", "b", "e", "f"]),
        route("R2", &["a", "b", "c", "d"]),
        route("R3", &["c", "d", "f", "e"]),
    ];
    match build_repository(routes) {
        Err(BuildError::Order(e)) => {
            assert_eq!(e.route, 2);
            assert_eq!(e.agrees, vec![false, true]);
            assert_eq!(e.agrees_reversed, vec![true, false]);
        },
        Err(BuildError::Deadlock(_)) => panic!("expected an order error, got a deadlock"),
        Ok(_) => panic!("expected an order error"),
    }
}

#[test]
fn waiting_cycle_is_a_deadlock() {
    let routes = vec![route("A", &["S1", "S2"]), route("B", &["S2", "S3"]), route("C", &["S3", "S1"])];
    match build_repository(routes) {
        Err(BuildError::Deadlock(d)) => {
            assert_eq!(d.routes.len(), 3);
            assert_eq!(d.conflicts.len(), 3);
            assert!(d.commits.is_empty());
            assert!(d.states.iter().all(|s| matches!(s, RouteBuildState::Untouched(2))));
        },
        Err(BuildError::Order(_)) => panic!("expected a deadlock, got an order error"),
        Ok(_) => panic!("expected a deadlock"),
    }
}

#[test]
fn partial_progress_then_deadlock() {
    let routes = vec![
        route("A", &["x", "S1", "S2"]),
        route("B", &["y", "S2", "S3"]),
        route("C", &["z", "S3", "S1"]),
    ];
    match build_repository(routes) {
        Err(BuildError::Deadlock(d)) => {
            assert_eq!(d.commits.len(), 3);
            assert_eq!(
                d.states,
                vec![
                    RouteBuildState::Pending(0, 3, 0),
                    RouteBuildState::Pending(0, 3, 1),
                    RouteBuildState::Pending(0, 3, 2),
                ]
            );
        },
        _ => panic!("expected a deadlock"),
    }
}

#[test]
fn every_stop_gets_a_chained_commit() {
    let routes = vec![
        route("A", &["a", "S", "b", "T", "c"]),
        route("B", &["d", "S", "e"]),
        route("C", &["T", "f"]),
    ];
    let g = built(routes);
    for (j, r) in g.routes.iter().enumerate() {
        let mut prev: Option<usize> = None;
        let mut at = 0usize;
        for s in &r.stops {
            let k = (at..g.commits.len())
                .find(|&k| {
                    let c = &g.commits[k];
                    c.stop.id == s.id
                        && (c.branch == j || c.fast_forward.contains(&j))
                        && prev.map_or(true, |p| c.parents.contains(&p))
                })
                .expect("a commit for every stop");
            prev = Some(k);
            at = k + 1;
        }
    }
    assert_eq!(merges(&g.commits), 2);
    assert_eq!(g.commits.len(), 5 + 3 + 2 - 2);
}

#[test]
fn commit_counts_with_shared_stops() {
    let routes = vec![
        route("A", &["a", "S", "b", "T"]),
        route("B", &["S", "c", "T"]),
        route("C", &["d", "T", "e"]),
    ];
    let g = built(routes);
    let shared = g.conflicts.len();
    assert_eq!(shared, 2);
    let unshared = 2 + 1 + 2;
    assert_eq!(g.commits.len(), unshared + shared);
    let moves: usize = g.commits.iter().map(|c| c.fast_forward.len()).sum();
    assert_eq!(moves, (2 - 1) + (3 - 1));
    let t = g.commits.iter().position(|c| c.stop.id == "T").expect("a merge for T");
    assert_eq!(g.commits[t].branch, 0);
    assert_eq!(g.commits[t].fast_forward, vec![1, 2]);
    assert_eq!(branch_heads(3, &g.commits), {
        let last_of = |j: usize, id: &str| {
            g.commits.iter().rposition(|c| c.stop.id == id && (c.branch == j || c.fast_forward.contains(&j)))
        };
        vec![last_of(0, "T"), last_of(1, "T"), last_of(2, "e")]
    });
}
