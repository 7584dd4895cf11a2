use gw_routes::Error;
use gw_routes::config::Config;
use gw_routes::config::DEFAULT_LISTEN_PORT;
use gw_routes::config::parse_port;
use gw_routes::geo::Coords;
use gw_routes::geo::MICRO_PER_DEGREE;
use gw_routes::model::Segment;
use gw_routes::model::State;
use gw_routes::model::Station;
use gw_routes::service::ErrorResponse;
use gw_routes::service::GetRouteRequest;
use gw_routes::service::ProviderRoute;
use gw_routes::service::create_cargo_request;
use gw_routes::service::create_cargo_request_with_id;
use gw_routes::service::create_trip;
use gw_routes::service::create_trip_with_id;
use gw_routes::service::get_cargo_request;
use gw_routes::service::get_cargo_request_points;
use gw_routes::service::get_trip;
use gw_routes::service::get_trip_points;

fn deg(lat: i64, lon: i64) -> Coords {
    Coords { lat: lat * MICRO_PER_DEGREE, lon: lon * MICRO_PER_DEGREE }
}

fn station(id: u128, lat: i64, lon: i64) -> Station {
    Station { id, address: format!("station {id}"), coords: deg(lat, lon) }
}

fn route(points: Vec<Coords>, distance: u64, duration: u64) -> ProviderRoute {
    ProviderRoute { way: points, distance, duration }
}

#[test]
fn create_trip_persists_stations_path_and_segment() {
    let mut st = State::new();
    let answer = route(vec![deg(0, 0), deg(0, 1)], 111, 60);
    let id = create_trip(&mut st, station(1, 0, 0), station(2, 0, 1), Some(answer)).unwrap();
    assert_eq!(st.stations.len(), 2);
    assert_eq!(st.trips.len(), 1);
    assert_eq!(st.trips[0].id, id);
    assert_eq!(st.trips[0].path, vec![1, 2]);
    assert!(st.has_segment(1, 2));
    assert_eq!(st.segments[0].distance, 111);

    let resp = get_trip(&st, &GetRouteRequest { route_id: id }).unwrap();
    assert_eq!(resp.stations.len(), 2);
    assert_eq!(resp.stations[0].station.id, 1);
    assert_eq!(resp.stations[0].distance, 0);
    assert_eq!(resp.stations[0].trip_time, 0);
    assert_eq!(resp.stations[1].station.id, 2);
    assert_eq!(resp.stations[1].distance, 111);
    assert_eq!(resp.stations[1].trip_time, 60);

    let pts = get_trip_points(&st, &GetRouteRequest { route_id: id }).unwrap();
    assert_eq!(pts.points, vec![deg(0, 0), deg(0, 1)]);
}

#[test]
fn create_trip_without_route_answer_needs_cached_segment() {
    let mut st = State::new();
    let err = create_trip(&mut st, station(1, 0, 0), station(2, 0, 1), None).unwrap_err();
    assert_eq!(err, Error::GeometryProviderError);
    assert_eq!(st.stations.len(), 0);
    assert_eq!(st.trips.len(), 0);

    // With the segment already cached no provider answer is needed.
    st.store_segment(Segment { s1: 1, s2: 2, points: vec![], distance: 5, time: 5 });
    let id = create_trip(&mut st, station(1, 0, 0), station(2, 0, 1), None).unwrap();
    assert_eq!(st.trips[0].id, id);
    // The cached geometry was kept, not replaced.
    assert_eq!(st.segments.len(), 1);
    assert_eq!(st.segments[0].distance, 5);
}

#[test]
fn create_cargo_request_rejects_equal_stations() {
    let mut st = State::new();
    let err =
        create_cargo_request(&mut st, station(1, 0, 0), station(1, 0, 0), None).unwrap_err();
    assert_eq!(err, Error::InvalidOperation);
    assert_eq!(st.stations.len(), 0);
}

#[test]
fn cargo_request_round_trip() {
    let mut st = State::new();
    let answer = route(vec![deg(0, 0), deg(1, 1), deg(2, 2)], 250, 180);
    let id = create_cargo_request(&mut st, station(1, 0, 0), station(2, 2, 2), Some(answer))
        .unwrap();
    assert_eq!(st.requests.len(), 1);
    assert_eq!(st.requests[0].id, id);
    assert_eq!(st.requests[0].trip_id, None);
    // No path rows for a request: only the segment is cached.
    assert_eq!(st.trips.len(), 0);

    let resp = get_cargo_request(&st, &GetRouteRequest { route_id: id }).unwrap();
    assert_eq!(resp.stations.len(), 2);
    assert_eq!(resp.stations[0].station.id, 1);
    assert_eq!(resp.stations[1].station.id, 2);
    assert_eq!(resp.stations[1].distance, 250);
    assert_eq!(resp.stations[1].trip_time, 180);

    let pts = get_cargo_request_points(&st, &GetRouteRequest { route_id: id }).unwrap();
    assert_eq!(pts.points, vec![deg(0, 0), deg(1, 1), deg(2, 2)]);
}

#[test]
fn station_registry_is_idempotent() {
    let mut st = State::new();
    st.get_or_create_station(station(1, 0, 0));
    // A second create with the same id changes nothing: the first
    // writer wins, even with different data.
    st.get_or_create_station(station(1, 5, 5));
    assert_eq!(st.stations.len(), 1);
    assert_eq!(st.stations[0].coords, deg(0, 0));
}

#[test]
fn segment_cache_is_idempotent() {
    let mut st = State::new();
    assert!(!st.has_segment(7, 8));
    st.store_segment(Segment { s1: 7, s2: 8, points: vec![deg(0, 0)], distance: 42, time: 9 });
    assert!(st.has_segment(7, 8));
    // A second store for the same ordered pair leaves the first entry.
    st.store_segment(Segment { s1: 7, s2: 8, points: vec![], distance: 1, time: 1 });
    assert_eq!(st.segments.len(), 1);
    assert_eq!(st.segments[0].distance, 42);
    // The ordered pair is the key: the reverse direction is distinct.
    assert!(!st.has_segment(8, 7));
}

#[test]
fn get_of_unknown_route_is_not_found() {
    let st = State::new();
    let rq = GetRouteRequest { route_id: 12345 };
    assert_eq!(get_trip(&st, &rq).unwrap_err(), Error::NotFound);
    assert_eq!(get_cargo_request(&st, &rq).unwrap_err(), Error::NotFound);
    assert_eq!(get_trip_points(&st, &rq).unwrap_err(), Error::NotFound);
    assert_eq!(get_cargo_request_points(&st, &rq).unwrap_err(), Error::NotFound);
}

#[test]
fn parse_port_accepts_digits_and_plus_sign() {
    assert_eq!(parse_port("8080"), Some(8080));
    assert_eq!(parse_port("+80"), Some(80));
    assert_eq!(parse_port("0"), Some(0));
    assert_eq!(parse_port("65535"), Some(65535));
    assert_eq!(parse_port(""), None);
    assert_eq!(parse_port("+"), None);
    assert_eq!(parse_port("65536"), None);
    assert_eq!(parse_port("123456789"), None);
    assert_eq!(parse_port("12a"), None);
    assert_eq!(parse_port("-1"), None);
}

#[test]
fn config_env_requires_database_and_map_service() {
    let err = Config::env(None, Some("http://maps".to_string()), None).unwrap_err();
    assert_eq!(err.message, "PG_URL not set");
    let err = Config::env(Some("postgres://db".to_string()), None, None).unwrap_err();
    assert_eq!(err.message, "MAP_SERVICE_ADDR not set");

    let c = Config::env(
        Some("postgres://db".to_string()),
        Some("http://maps".to_string()),
        Some("7777".to_string()),
    )
    .unwrap();
    assert_eq!(c.pg_url, "postgres://db");
    assert_eq!(c.map_service_addr, "http://maps");
    assert_eq!(c.listen_port, 7777);

    // A missing or malformed port falls back to the default.
    let c = Config::env(
        Some("postgres://db".to_string()),
        Some("http://maps".to_string()),
        None,
    )
    .unwrap();
    assert_eq!(c.listen_port, DEFAULT_LISTEN_PORT);
    let c = Config::env(
        Some("postgres://db".to_string()),
        Some("http://maps".to_string()),
        Some("not a port".to_string()),
    )
    .unwrap();
    assert_eq!(c.listen_port, DEFAULT_LISTEN_PORT);
}

#[test]
fn error_responses_carry_their_messages() {
    assert_eq!(ErrorResponse::from_error(&Error::InvalidTripState).message, "invalid trip state");
    assert_eq!(ErrorResponse::from_error(&Error::InvalidOperation).message, "invalid operation");
    assert_eq!(ErrorResponse::from_error(&Error::NotFound).message, "not found");
    assert_eq!(
        ErrorResponse::from_error(&Error::GeometryProviderError).message,
        "map service returned error"
    );
    assert_eq!(ErrorResponse::from_error(&Error::PersistenceError).message, "db returned error");
    assert_eq!(ErrorResponse::new("boom".to_string()).message, "boom");
}

#[test]
fn create_with_id_commits_under_that_id_or_refuses_a_collision() {
    let mut st = State::new();
    let answer = route(vec![deg(0, 0), deg(0, 1)], 1, 1);
    let id = create_trip_with_id(&mut st, station(1, 0, 0), station(2, 0, 1), Some(answer), 42)
        .unwrap();
    assert_eq!(id, 42);
    assert_eq!(st.trips[0].id, 42);
    // The same trip id again is a persistence failure; nothing changes.
    let err = create_trip_with_id(&mut st, station(1, 0, 0), station(2, 0, 1), None, 42)
        .unwrap_err();
    assert_eq!(err, Error::PersistenceError);
    assert_eq!(st.trips.len(), 1);
    // Cargo requests have their own id space.
    let rid = create_cargo_request_with_id(&mut st, station(1, 0, 0), station(2, 0, 1), None, 42)
        .unwrap();
    assert_eq!(rid, 42);
    let err = create_cargo_request_with_id(&mut st, station(1, 0, 0), station(2, 0, 1), None, 42)
        .unwrap_err();
    assert_eq!(err, Error::PersistenceError);
    assert_eq!(st.requests.len(), 1);
}
