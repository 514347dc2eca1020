use gtfs_git::feed::{passes_prefilter, route_name, station_id, stop_from_feed};
use gtfs_git::model::GitRoute;
use gtfs_git::order::fix_order;

#[test]
fn station_id_cuts_at_first_colon() {
    assert_eq!(station_id("StopArea:OCE87"), "StopArea");
    assert_eq!(station_id("A:B:C"), "A");
    assert_eq!(station_id("plain"), "plain");
    assert_eq!(station_id(":x"), "");
    assert_eq!(station_id(""), "");
}

#[test]
fn stop_name_falls_back_to_feed_id() {
    let named = stop_from_feed("S1:platform", Some("Central".to_string()));
    assert_eq!(named.id, "S1");
    assert_eq!(named.name, "Central");
    let unnamed = stop_from_feed("S1:platform", None);
    assert_eq!(unnamed.id, "S1");
    assert_eq!(unnamed.name, "S1:platform");
}

#[test]
fn route_name_prefers_long_then_short_then_id() {
    assert_eq!(route_name(Some("Long".to_string()), Some("S".to_string()), "id".to_string()), "Long");
    assert_eq!(route_name(None, Some("S".to_string()), "id".to_string()), "S");
    assert_eq!(route_name(None, None, "id".to_string()), "id");
}

#[test]
fn prefilter_keeps_listed_names() {
    let filter = vec!["Red".to_string(), "R".to_string()];
    assert!(passes_prefilter(&Vec::new(), &Some("Blue".to_string()), &None));
    assert!(passes_prefilter(&filter, &Some("Red".to_string()), &Some("R".to_string())));
    assert!(passes_prefilter(&filter, &None, &Some("R".to_string())));
    assert!(!passes_prefilter(&filter, &Some("Blue".to_string()), &Some("R".to_string())));
    assert!(!passes_prefilter(&filter, &Some("Red".to_string()), &Some("B".to_string())));
    assert!(passes_prefilter(&filter, &None, &None));
}

#[test]
fn order_error_reports_accepted_routes() {
    let mk = |id: &str, stops: &[&str]| GitRoute {
        id: id.to_string(),
        name: id.to_string(),
        stops: stops.iter().map(|s| stop_from_feed(s, None)).collect(),
    };
    let routes = vec![mk("R1", &["a", "b", "e", "f"]), mk("R2", &["a", "b", "c", "d"]), mk("R3", &["c", "d", "f", "e"])];
    match fix_order(routes) {
        Err(e) => {
            assert_eq!(e.route, 2);
            assert_eq!(e.accepted.len(), 2);
            assert_eq!(e.accepted[0].id, "R1");
            assert_eq!(e.accepted[1].stops[0].id, "a");
        },
        Ok(_) => panic!("expected an order error"),
    }
}
