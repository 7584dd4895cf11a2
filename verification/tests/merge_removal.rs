use gw_routes::Error;
use gw_routes::geo::Coords;
use gw_routes::geo::MICRO_PER_DEGREE;
use gw_routes::merge::MergeRouteRequest;
use gw_routes::merge::merge_commit;
use gw_routes::merge::merge_preview;
use gw_routes::merge::merge_routes;
use gw_routes::model::CargoRequest;
use gw_routes::model::Segment;
use gw_routes::model::State;
use gw_routes::model::Station;
use gw_routes::model::Trip;
use gw_routes::removal::remove_requests;
use gw_routes::removal::removal_preview;

fn deg(lat: i64, lon: i64) -> Coords {
    Coords { lat: lat * MICRO_PER_DEGREE, lon: lon * MICRO_PER_DEGREE }
}

fn station(id: u128, lat: i64, lon: i64) -> Station {
    Station { id, address: format!("station {id}"), coords: deg(lat, lon) }
}

fn seg(s1: u128, s2: u128) -> Segment {
    Segment { s1, s2, points: vec![], distance: 1, time: 1 }
}

/// A trip 1 -> 2 -> 3 along a meridian, and a request 10 -> 11 whose
/// stations sit between the trip's stops.
fn meridian_state() -> State {
    let mut st = State::new();
    st.stations = vec![
        station(1, 0, 0),
        station(2, 0, 10),
        station(3, 0, 20),
        station(10, 0, 5),
        station(11, 0, 15),
    ];
    st.trips = vec![Trip { id: 100, path: vec![1, 2, 3] }];
    st.requests = vec![CargoRequest { id: 200, trip_id: None, source: 10, destination: 11 }];
    st
}

#[test]
fn merge_splices_request_between_stops() {
    let mut st = meridian_state();
    let provided = vec![seg(1, 10), seg(10, 2), seg(2, 11), seg(11, 3)];
    let rq = MergeRouteRequest { trip_route_id: 100, request_routes: vec![200] };
    let resp = merge_routes(&mut st, &rq, &provided).unwrap();
    assert_eq!(resp.graph, vec![1, 10, 2, 11, 3]);
    // A new trip identity was minted; the old trip is left behind.
    assert_ne!(resp.route_id, 100);
    assert_eq!(st.trips.len(), 2);
    assert_eq!(st.trips[1].id, resp.route_id);
    assert_eq!(st.trips[1].path, vec![1, 10, 2, 11, 3]);
    assert_eq!(st.trips[0].path, vec![1, 2, 3]);
    // The merged request now references the new trip.
    assert_eq!(st.requests[0].trip_id, Some(resp.route_id));
    // Every newly adjacent pair gained a segment.
    assert!(st.has_segment(1, 10));
    assert!(st.has_segment(10, 2));
    assert!(st.has_segment(2, 11));
    assert!(st.has_segment(11, 3));
}

#[test]
fn merge_without_geometry_answers_aborts_whole_operation() {
    let mut st = meridian_state();
    let rq = MergeRouteRequest { trip_route_id: 100, request_routes: vec![200] };
    let err = merge_routes(&mut st, &rq, &vec![]).unwrap_err();
    assert_eq!(err, Error::GeometryProviderError);
    // Nothing was committed.
    assert_eq!(st.trips.len(), 1);
    assert_eq!(st.trips[0].path, vec![1, 2, 3]);
    assert_eq!(st.requests[0].trip_id, None);
    assert_eq!(st.segments.len(), 0);
}

#[test]
fn merge_into_single_station_trip_is_invalid_trip_state() {
    let mut st = meridian_state();
    st.trips = vec![Trip { id: 100, path: vec![1] }];
    let rq = MergeRouteRequest { trip_route_id: 100, request_routes: vec![200] };
    let err = merge_routes(&mut st, &rq, &vec![]).unwrap_err();
    assert_eq!(err, Error::InvalidTripState);
    assert_eq!(st.trips[0].path, vec![1]);
}

#[test]
fn merge_of_unknown_trip_or_request_is_not_found() {
    let mut st = meridian_state();
    let rq = MergeRouteRequest { trip_route_id: 999, request_routes: vec![200] };
    assert_eq!(merge_routes(&mut st, &rq, &vec![]).unwrap_err(), Error::NotFound);
    let rq = MergeRouteRequest { trip_route_id: 100, request_routes: vec![999] };
    assert_eq!(merge_routes(&mut st, &rq, &vec![]).unwrap_err(), Error::NotFound);
}

#[test]
fn removal_restores_the_original_path() {
    let mut st = meridian_state();
    let provided = vec![seg(1, 10), seg(10, 2), seg(2, 11), seg(11, 3)];
    let rq = MergeRouteRequest { trip_route_id: 100, request_routes: vec![200] };
    let merged = merge_routes(&mut st, &rq, &provided).unwrap();
    // Removing the request's stations from 1 -> 10 -> 2 -> 11 -> 3
    // restores 1 -> 2 -> 3, renumbered 0, 1, 2, in place.
    let removal_provided = vec![seg(1, 2), seg(2, 3)];
    let resp = remove_requests(&mut st, merged.route_id, &vec![200], &removal_provided).unwrap();
    assert_eq!(resp.route_id, merged.route_id);
    assert_eq!(resp.graph, vec![1, 2, 3]);
    let trip = st.find_trip(merged.route_id).unwrap();
    assert_eq!(trip.path, vec![1, 2, 3]);
    assert_eq!(trip.path.len(), 3);
    // The removed request no longer references any trip.
    assert_eq!(st.requests[0].trip_id, None);
    // The newly adjacent pairs gained segments.
    assert!(st.has_segment(1, 2));
    assert!(st.has_segment(2, 3));
}

#[test]
fn removal_leaving_fewer_than_two_stations_is_invalid_operation() {
    let mut st = meridian_state();
    // Trip 10 -> 11 consists solely of the request's stations.
    st.trips = vec![Trip { id: 100, path: vec![10, 11] }];
    st.requests = vec![CargoRequest { id: 200, trip_id: Some(100), source: 10, destination: 11 }];
    let err = remove_requests(&mut st, 100, &vec![200], &vec![]).unwrap_err();
    assert_eq!(err, Error::InvalidOperation);
    assert_eq!(st.trips[0].path, vec![10, 11]);
    assert_eq!(st.requests[0].trip_id, Some(100));
}

#[test]
fn removal_of_detached_request_is_invalid_operation() {
    let mut st = meridian_state();
    // The request was never merged into the trip.
    let err = remove_requests(&mut st, 100, &vec![200], &vec![]).unwrap_err();
    assert_eq!(err, Error::InvalidOperation);
}

#[test]
fn removal_of_unknown_trip_or_request_is_not_found() {
    let mut st = meridian_state();
    assert_eq!(remove_requests(&mut st, 999, &vec![200], &vec![]).unwrap_err(), Error::NotFound);
    assert_eq!(remove_requests(&mut st, 100, &vec![999], &vec![]).unwrap_err(), Error::NotFound);
}

#[test]
fn sequential_merges_plan_against_the_updated_path() {
    let mut st = meridian_state();
    st.stations.push(station(12, 0, 7));
    st.stations.push(station(13, 0, 8));
    st.requests.push(CargoRequest { id: 201, trip_id: None, source: 12, destination: 13 });
    let provided = vec![
        seg(1, 10),
        seg(10, 2),
        seg(2, 11),
        seg(11, 3),
        seg(10, 12),
        seg(12, 13),
        seg(13, 2),
    ];
    let rq = MergeRouteRequest { trip_route_id: 100, request_routes: vec![200, 201] };
    let resp = merge_routes(&mut st, &rq, &provided).unwrap();
    // The second request lands inside the path already holding the first.
    assert_eq!(resp.graph, vec![1, 10, 12, 13, 2, 11, 3]);
    assert_eq!(st.requests[1].trip_id, Some(resp.route_id));
}

#[test]
fn merge_preview_names_exactly_the_missing_pairs() {
    let mut st = meridian_state();
    // One of the four new hops is already cached.
    st.store_segment(seg(10, 2));
    let rq = MergeRouteRequest { trip_route_id: 100, request_routes: vec![200] };
    let (graph, missing) = merge_preview(&st, &rq).unwrap();
    assert_eq!(graph, vec![1, 10, 2, 11, 3]);
    let pairs: Vec<(u128, u128)> = missing.iter().map(|h| (h.s1, h.s2)).collect();
    assert_eq!(pairs, vec![(1, 10), (2, 11), (11, 3)]);
    // The preview hands out the coordinates the provider needs.
    assert_eq!(missing[0].from, deg(0, 0));
    assert_eq!(missing[0].to, deg(0, 5));
    // Nothing was committed.
    assert_eq!(st.trips.len(), 1);
    assert_eq!(st.segments.len(), 1);
}

#[test]
fn merge_with_every_segment_cached_needs_no_answers() {
    let mut st = meridian_state();
    st.store_segment(seg(1, 10));
    st.store_segment(seg(10, 2));
    st.store_segment(seg(2, 11));
    st.store_segment(seg(11, 3));
    let rq = MergeRouteRequest { trip_route_id: 100, request_routes: vec![200] };
    let (_, missing) = merge_preview(&st, &rq).unwrap();
    assert!(missing.is_empty());
    let resp = merge_routes(&mut st, &rq, &vec![]).unwrap();
    assert_eq!(resp.graph, vec![1, 10, 2, 11, 3]);
    // No duplicate cache entries were created.
    assert_eq!(st.segments.len(), 4);
}

#[test]
fn removal_preview_names_only_newly_adjacent_missing_pairs() {
    let mut st = meridian_state();
    st.trips = vec![Trip { id: 100, path: vec![1, 10, 2, 11, 3] }];
    st.requests = vec![CargoRequest { id: 200, trip_id: Some(100), source: 10, destination: 11 }];
    // (1, 2) and (2, 3) become adjacent; (2, 3) is already cached.
    st.store_segment(seg(2, 3));
    let (graph, missing) = removal_preview(&st, 100, &vec![200]).unwrap();
    assert_eq!(graph, vec![1, 2, 3]);
    let pairs: Vec<(u128, u128)> = missing.iter().map(|h| (h.s1, h.s2)).collect();
    assert_eq!(pairs, vec![(1, 2)]);
    // Nothing was committed.
    assert_eq!(st.trips[0].path, vec![1, 10, 2, 11, 3]);
}

#[test]
fn merge_commit_refuses_an_id_already_in_use() {
    let mut st = meridian_state();
    let provided = vec![seg(1, 10), seg(10, 2), seg(2, 11), seg(11, 3)];
    let rq = MergeRouteRequest { trip_route_id: 100, request_routes: vec![200] };
    // The old trip's own id collides: refused, nothing committed.
    let err = merge_commit(&mut st, &rq, &provided, 100).unwrap_err();
    assert_eq!(err, Error::PersistenceError);
    assert_eq!(st.trips.len(), 1);
    assert_eq!(st.requests[0].trip_id, None);
    assert_eq!(st.segments.len(), 0);
    // A free id commits under exactly that id.
    let resp = merge_commit(&mut st, &rq, &provided, 777).unwrap();
    assert_eq!(resp.route_id, 777);
    assert_eq!(st.trips[1].id, 777);
    assert_eq!(st.requests[0].trip_id, Some(777));
}

#[test]
fn merge_preview_lists_each_missing_pair_once() {
    let mut st = meridian_state();
    // A trip that visits the same two stations twice: the same uncached
    // ordered pair becomes adjacent twice, but the provider is asked
    // once per pair.
    st.trips = vec![Trip { id: 100, path: vec![1, 2, 1, 2] }];
    let rq = MergeRouteRequest { trip_route_id: 100, request_routes: vec![] };
    let (graph, missing) = merge_preview(&st, &rq).unwrap();
    assert_eq!(graph, vec![1, 2, 1, 2]);
    let pairs: Vec<(u128, u128)> = missing.iter().map(|h| (h.s1, h.s2)).collect();
    assert_eq!(pairs, vec![(1, 2), (2, 1)]);
}

#[test]
fn removal_preview_lists_each_missing_pair_once() {
    let mut st = meridian_state();
    st.trips = vec![Trip { id: 100, path: vec![1, 10, 2, 10, 1, 10, 2] }];
    st.requests = vec![CargoRequest { id: 200, trip_id: Some(100), source: 10, destination: 11 }];
    let (graph, missing) = removal_preview(&st, 100, &vec![200]).unwrap();
    // The new path repeats the pair (1, 2); it is fetched once.
    assert_eq!(graph, vec![1, 2, 1, 2]);
    let pairs: Vec<(u128, u128)> = missing.iter().map(|h| (h.s1, h.s2)).collect();
    assert_eq!(pairs, vec![(1, 2), (2, 1)]);
}
