use gtfs_git::builder::{build_route_alone, PlannedCommit};
use gtfs_git::conflicts::{get_conflicts, StopGroup};
use gtfs_git::driver::{all_built, find_dependencies, initialize_states, resolve_pass};
use gtfs_git::model::{GitRoute, GitStop};
use gtfs_git::order::{fix_order, same_order};
use gtfs_git::state::RouteBuildState;

fn stop(id: &str) -> GitStop {
    GitStop { id: id.to_string(), name: format!("Stop {}", id) }
}

fn route(id: &str, stops: &[&str]) -> GitRoute {
    GitRoute { id: id.to_string(), name: format!("Line {}", id), stops: stops.iter().map(|s| stop(s)).collect() }
}

fn ids(r: &GitRoute) -> Vec<String> {
    r.stops.iter().map(|s| s.id.clone()).collect()
}

fn group<'a>(groups: &'a [StopGroup], id: &str) -> Option<&'a StopGroup> {
    groups.iter().find(|g| g.stop_id == id)
}

#[test]
fn route_accessors() {
    let r = route("A", &["s1", "s2"]);
    assert_eq!(r.stops().len(), 2);
    assert_eq!(r.stop(1).map(|s| s.id.clone()), Some("s2".to_string()));
    assert!(r.stop(2).is_none());
}

#[test]
fn reversed_route_keeps_id_and_name() {
    let r = route("A", &["s1", "s2", "s3"]);
    let f = r.reversed();
    assert_eq!(f.id, "A");
    assert_eq!(f.name, "Line A");
    assert_eq!(ids(&f), vec!["s3", "s2", "s1"]);
}

#[test]
fn same_order_compares_common_stops() {
    let a = route("A", &["s1", "x", "s2", "s3"]);
    let b = route("B", &["y", "s1", "s2", "z", "s3"]);
    let c = route("C", &["s3", "s1"]);
    let d = route("D", &["q", "r"]);
    assert!(same_order(&a, &b));
    assert!(same_order(&b, &a));
    assert!(!same_order(&a, &c));
    assert!(same_order(&a, &d));
    assert!(same_order(&a, &route("E", &["s2"])));
}

#[test]
fn same_order_counts_repeated_stops() {
    let a = route("A", &["s1", "s2", "s1"]);
    let b = route("B", &["s1", "s2"]);
    assert!(!same_order(&a, &b));
    assert!(same_order(&a, &route("C", &["s1", "s2", "s1"])));
}

#[test]
fn reconciled_routes_agree_pairwise() {
    let routes = vec![
        route("A", &["s1", "s2", "s3", "s4"]),
        route("B", &["s4", "s3", "x"]),
        route("C", &["y", "s2", "s1"]),
        route("D", &["z"]),
    ];
    let out = match fix_order(routes) {
        Ok(out) => out,
        Err(e) => panic!("order error at route {}", e.route),
    };
    assert_eq!(ids(&out[0]), vec!["s1", "s2", "s3", "s4"]);
    assert_eq!(ids(&out[1]), vec!["x", "s3", "s4"]);
    assert_eq!(ids(&out[2]), vec!["s1", "s2", "y"]);
    assert_eq!(ids(&out[3]), vec!["z"]);
    for a in &out {
        for b in &out {
            assert!(same_order(a, b));
        }
    }
}

#[test]
fn conflict_set_holds_exactly_shared_stops() {
    let routes = vec![
        route("A", &["s1", "s2", "s1", "a"]),
        route("B", &["s2", "b"]),
        route("C", &["c", "s2", "s3"]),
        route("D", &["s3", "s1"]),
    ];
    let cs = get_conflicts(&routes);
    assert_eq!(cs.len(), 3);
    assert_eq!(group(&cs, "s1").map(|g| g.routes.clone()), Some(vec![0, 3]));
    assert_eq!(group(&cs, "s2").map(|g| g.routes.clone()), Some(vec![0, 1, 2]));
    assert_eq!(group(&cs, "s3").map(|g| g.routes.clone()), Some(vec![2, 3]));
    assert!(group(&cs, "a").is_none());
}

#[test]
fn empty_input_has_no_conflicts() {
    assert!(get_conflicts(&Vec::new()).is_empty());
}

#[test]
fn did_stop_advances_by_index() {
    assert_eq!(RouteBuildState::Untouched(3).did_stop(0, 7), RouteBuildState::Pending(0, 3, 7));
    assert_eq!(RouteBuildState::Untouched(1).did_stop(0, 7), RouteBuildState::Built(7));
    assert_eq!(RouteBuildState::Pending(0, 3, 7).did_stop(1, 8), RouteBuildState::Pending(1, 3, 8));
    assert_eq!(RouteBuildState::Pending(1, 3, 8).did_stop(2, 9), RouteBuildState::Built(9));
}

#[test]
fn did_commit_advances_by_one() {
    assert_eq!(RouteBuildState::Untouched(3).did_commit(4), RouteBuildState::Pending(0, 3, 4));
    assert_eq!(RouteBuildState::Pending(0, 3, 4).did_commit(5), RouteBuildState::Pending(1, 3, 5));
    assert_eq!(RouteBuildState::Pending(1, 3, 5).did_commit(6), RouteBuildState::Built(6));
    assert_eq!(RouteBuildState::Pending(1, 3, 5).commit(), Some(5));
    assert_eq!(RouteBuildState::Untouched(3).commit(), None);
}

#[test]
fn builder_stops_before_shared_stop() {
    let routes = vec![route("A", &["a", "b", "S", "c"]), route("B", &["S"])];
    let cs = get_conflicts(&routes);
    let mut plan: Vec<PlannedCommit> = Vec::new();
    let s = build_route_alone(0, &routes[0], RouteBuildState::Untouched(4), &cs, &mut plan);
    assert_eq!(s, RouteBuildState::Pending(1, 4, 1));
    assert_eq!(plan.len(), 2);
    assert_eq!(plan[0].stop.id, "a");
    assert!(plan[0].parents.is_empty());
    assert_eq!(plan[1].stop.id, "b");
    assert_eq!(plan[1].parents, vec![0]);
    let again = build_route_alone(0, &routes[0], s, &cs, &mut plan);
    assert_eq!(again, s);
    assert_eq!(plan.len(), 2);
}

#[test]
fn builder_leaves_built_route_alone() {
    let routes = vec![route("A", &["a"])];
    let cs = get_conflicts(&routes);
    let mut plan: Vec<PlannedCommit> = Vec::new();
    let s = build_route_alone(0, &routes[0], RouteBuildState::Built(3), &cs, &mut plan);
    assert_eq!(s, RouteBuildState::Built(3));
    assert!(plan.is_empty());
    let t = build_route_alone(0, &routes[0], RouteBuildState::Pending(0, 1, 5), &cs, &mut plan);
    assert_eq!(t, RouteBuildState::Built(5));
    assert!(plan.is_empty());
}

#[test]
fn builder_finishes_route_without_shared_stop() {
    let routes = vec![route("A", &["a", "b", "c"])];
    let cs = get_conflicts(&routes);
    let mut plan: Vec<PlannedCommit> = Vec::new();
    let s = build_route_alone(0, &routes[0], RouteBuildState::Pending(0, 3, 9), &cs, &mut plan);
    assert_eq!(s, RouteBuildState::Built(1));
    assert_eq!(plan[0].stop.id, "b");
    assert_eq!(plan[0].parents, vec![9]);
    assert_eq!(plan[1].parents, vec![0]);
}

#[test]
fn frontier_groups_waiting_routes() {
    let routes = vec![route("A", &["S", "a"]), route("B", &["b", "S"]), route("C", &["S"]), route("D", &["d"])];
    let states = vec![
        RouteBuildState::Untouched(2),
        RouteBuildState::Pending(0, 2, 0),
        RouteBuildState::Untouched(1),
        RouteBuildState::Untouched(1),
    ];
    let deps = find_dependencies(&routes, &states);
    assert_eq!(deps.len(), 1);
    assert_eq!(deps[0].stop_id, "S");
    assert_eq!(deps[0].routes, vec![0, 1, 2]);
}

#[test]
fn pass_merges_ready_stop_and_advances_states() {
    let routes = vec![route("A", &["a", "S", "b"]), route("B", &["S", "c"])];
    let cs = get_conflicts(&routes);
    let mut states = initialize_states(&routes);
    let mut plan: Vec<PlannedCommit> = Vec::new();
    for j in 0..routes.len() {
        states[j] = build_route_alone(j, &routes[j], states[j], &cs, &mut plan);
    }
    assert_eq!(states, vec![RouteBuildState::Pending(0, 3, 0), RouteBuildState::Untouched(2)]);
    let before = plan.len();
    assert!(resolve_pass(&routes, &cs, &mut states, &mut plan));
    assert!(plan[before..].iter().any(|c| !c.fast_forward.is_empty()));
    assert_eq!(plan[1].parents, vec![0]);
    assert_eq!(states, vec![RouteBuildState::Built(2), RouteBuildState::Built(3)]);
    assert!(all_built(&states));
    assert!(!resolve_pass(&routes, &cs, &mut states, &mut plan));
}

#[test]
fn pass_without_ready_stop_changes_nothing() {
    let routes = vec![route("A", &["S", "T"]), route("B", &["T", "S"]), route("C", &["S", "T"])];
    let cs = get_conflicts(&routes);
    let mut states = vec![RouteBuildState::Untouched(2), RouteBuildState::Untouched(2), RouteBuildState::Untouched(2)];
    let mut plan: Vec<PlannedCommit> = Vec::new();
    assert!(!resolve_pass(&routes, &cs, &mut states, &mut plan));
    assert!(plan.is_empty());
    assert_eq!(states[1], RouteBuildState::Untouched(2));
}
