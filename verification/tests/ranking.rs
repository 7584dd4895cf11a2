use gw_routes::Error;
use gw_routes::geo::Coords;
use gw_routes::geo::MICRO_PER_DEGREE;
use gw_routes::model::CargoRequest;
use gw_routes::model::State;
use gw_routes::model::Station;
use gw_routes::model::Trip;
use gw_routes::ranker::get_potential_routes;
use gw_routes::ranker::rank_by_cost;

fn deg(lat: i64, lon: i64) -> Coords {
    Coords { lat: lat * MICRO_PER_DEGREE, lon: lon * MICRO_PER_DEGREE }
}

fn station(id: u128, lat: i64, lon: i64) -> Station {
    Station { id, address: format!("station {id}"), coords: deg(lat, lon) }
}

/// A trip 1 -> 2 along a meridian and three candidate requests: one on
/// the trip's line (cost 0), one a small detour, one far away.
fn ranking_state() -> State {
    let mut st = State::new();
    st.stations = vec![
        station(1, 0, 0),
        station(2, 0, 10),
        // On the line.
        station(10, 0, 2),
        station(11, 0, 6),
        // Slightly off the line.
        station(12, 1, 3),
        station(13, 1, 7),
        // Far away.
        station(14, 80, 120),
        station(15, 80, 130),
    ];
    st.trips = vec![Trip { id: 100, path: vec![1, 2] }];
    st.requests = vec![
        CargoRequest { id: 200, trip_id: None, source: 10, destination: 11 },
        CargoRequest { id: 201, trip_id: None, source: 12, destination: 13 },
        CargoRequest { id: 202, trip_id: None, source: 14, destination: 15 },
    ];
    st
}

#[test]
fn cheaper_candidates_rank_first() {
    let st = ranking_state();
    let ranked = get_potential_routes(&st, 100, &vec![202, 201, 200], i64::MAX).unwrap();
    // The zero-detour candidate first, the small detour second, the
    // distant one last.
    assert_eq!(ranked, vec![200, 201, 202]);
}

#[test]
fn threshold_filters_expensive_candidates() {
    let st = ranking_state();
    // 10 degrees of detour in microdegrees: the far candidate costs
    // much more than this, the near two much less.
    let ranked = get_potential_routes(&st, 100, &vec![200, 201, 202], 10_000_000).unwrap();
    assert_eq!(ranked, vec![200, 201]);
    // A zero threshold admits nothing: even a zero-cost candidate must
    // be strictly below the maximum.
    let ranked = get_potential_routes(&st, 100, &vec![200, 201, 202], 0).unwrap();
    assert_eq!(ranked, Vec::<u128>::new());
}

#[test]
fn ranking_is_read_only_and_independent_per_candidate() {
    let st = ranking_state();
    let before_paths: Vec<Vec<u128>> = st.trips.iter().map(|t| t.path.clone()).collect();
    let ranked = get_potential_routes(&st, 100, &vec![200, 201], i64::MAX).unwrap();
    assert_eq!(ranked.len(), 2);
    // No candidate's tentative insertion persisted anywhere.
    let after_paths: Vec<Vec<u128>> = st.trips.iter().map(|t| t.path.clone()).collect();
    assert_eq!(before_paths, after_paths);
    assert_eq!(st.segments.len(), 0);
}

#[test]
fn ranking_unknown_trip_or_candidate_is_not_found() {
    let st = ranking_state();
    assert_eq!(get_potential_routes(&st, 999, &vec![200], 10).unwrap_err(), Error::NotFound);
    assert_eq!(get_potential_routes(&st, 100, &vec![999], 10).unwrap_err(), Error::NotFound);
}

#[test]
fn ranking_single_station_trip_is_invalid_trip_state() {
    let mut st = ranking_state();
    st.trips = vec![Trip { id: 100, path: vec![1] }];
    assert_eq!(
        get_potential_routes(&st, 100, &vec![200], 10).unwrap_err(),
        Error::InvalidTripState
    );
}

#[test]
fn rank_by_cost_sorts_stably_and_filters() {
    let costs = vec![(5u128, 30i64), (6u128, 10i64), (7u128, 30i64), (8u128, 50i64)];
    // Ascending by cost; equal costs keep their input order; entries at
    // or above the maximum are dropped.
    assert_eq!(rank_by_cost(&costs, 50), vec![6, 5, 7]);
    assert_eq!(rank_by_cost(&costs, 31), vec![6, 5, 7]);
    assert_eq!(rank_by_cost(&costs, 30), vec![6]);
    assert_eq!(rank_by_cost(&costs, i64::MAX), vec![6, 5, 7, 8]);
    assert_eq!(rank_by_cost(&vec![], 10), Vec::<u128>::new());
}
