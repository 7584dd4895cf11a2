//! The service operations: creating trips and cargo requests, and reading
//! them back as waypoint lists or flattened polylines.
//!
//! Every operation works against the in-memory store.  Calls that need
//! the external geometry provider take its answer as an argument: the
//! surrounding I/O layer asks [`crate::model::State::has_segment`]
//! whether a fetch is needed, performs it, and passes the result in, so
//! that each operation here commits atomically or not at all.

use vstd::prelude::*;
use vstd::string::StringExecFns;

use crate::Error;
use crate::geo::Coords;
use crate::model::CargoRequest;
use crate::model::Segment;
use crate::model::SegmentData;
use crate::model::Station;
use crate::model::Trip;
use crate::model::StationData;
use crate::model::State;
use crate::model::StateData;
use crate::model::TripData;
use crate::model::all_stations_found;
use crate::model::find_request;
use crate::model::find_segment;
use crate::model::find_station;
use crate::model::find_trip;
use crate::model::fresh_route_id;
use crate::model::lemma_find_request_none;
use crate::model::lemma_find_trip_none;
use crate::model::station_at;

verus! {

/// Identifies a trip or cargo request route.
#[derive(Clone, Copy, Debug, PartialEq, Eq, Structural)]
pub struct GetRouteRequest {
    pub route_id: u128,
}

/// One stop of a route, with the road distance and travel time of the
/// hop that leads to it (zero for the first stop).
#[derive(Debug)]
pub struct Waypoint {
    pub station: Station,
    pub distance: u64,
    pub trip_time: u64,
}

/// Mathematical value of a [`Waypoint`].
#[verifier::ext_equal]
pub ghost struct WaypointData {
    pub station: StationData,
    pub distance: u64,
    pub trip_time: u64,
}

impl View for Waypoint {
    type V = WaypointData;

    open spec fn view(&self) -> WaypointData {
        WaypointData {
            station: self.station@,
            distance: self.distance,
            trip_time: self.trip_time,
        }
    }
}

/// Ordered stops of a route with per-hop distance and travel time.
#[derive(Debug)]
pub struct GetWaypointsResponse {
    pub stations: Vec<Waypoint>,
}

impl View for GetWaypointsResponse {
    type V = Seq<WaypointData>;

    open spec fn view(&self) -> Seq<WaypointData> {
        self.stations@.map_values(|w: Waypoint| w@)
    }
}

/// Flattened polyline of all hops of a route.
#[derive(Debug)]
pub struct GetPointsResponse {
    pub points: Vec<Coords>,
}

/// What the external geometry provider answers for one ordered station
/// pair: the polyline and the road distance and duration.
#[derive(Debug)]
pub struct ProviderRoute {
    pub way: Vec<Coords>,
    pub distance: u64,
    pub duration: u64,
}

/// The segment persisted for a provider answer on an ordered pair.
pub open spec fn segment_from_route(s1: u128, s2: u128, route: ProviderRoute) -> SegmentData {
    SegmentData {
        s1,
        s2,
        points: route.way@,
        distance: route.distance,
        time: route.duration,
    }
}

/// The station sequence after a get-or-create: unchanged when the id is
/// already registered, extended otherwise.
pub open spec fn add_station(ss: Seq<StationData>, st: StationData) -> Seq<StationData> {
    if find_station(ss, st.id) is Some {
        ss
    } else {
        ss.push(st)
    }
}

/// The segment table after ensuring the ordered pair is cached.
pub open spec fn add_segment(gs: Seq<SegmentData>, g: SegmentData) -> Seq<SegmentData> {
    if find_segment(gs, g.s1, g.s2) is Some {
        gs
    } else {
        gs.push(g)
    }
}

/// Create a trip or a cargo request between two stations under the
/// given route id: register the stations, persist the route, and cache
/// the segment between the two stations, taking its geometry from
/// `route` when the cache misses.  An id already in use is refused as a
/// persistence failure, exactly as a unique constraint would.
fn create_route(
    state: &mut State,
    from: Station,
    to: Station,
    route: Option<ProviderRoute>,
    is_request: bool,
    new_id: u128,
) -> (r: Result<u128, Error>)
    requires
        old(state).wf(),
        from.coords.valid(),
        to.coords.valid(),
    ensures
        final(state).wf(),
        match r {
            Ok(id) => {
                &&& id == new_id
                &&& !(is_request && from.id == to.id)
                &&& find_segment(old(state)@.segments, from.id, to.id) is None ==> route is Some
                &&& final(state)@.stations == add_station(
                    add_station(old(state)@.stations, from@),
                    to@,
                )
                &&& final(state)@.segments == (if find_segment(
                    old(state)@.segments,
                    from.id,
                    to.id,
                ) is Some {
                    old(state)@.segments
                } else {
                    old(state)@.segments.push(
                        segment_from_route(from.id, to.id, route->Some_0),
                    )
                })
                &&& (is_request ==> {
                    &&& find_request(old(state)@.requests, id) is None
                    &&& final(state)@.requests == old(state)@.requests.push(
                        CargoRequest {
                            id,
                            trip_id: None,
                            source: from.id,
                            destination: to.id,
                        },
                    )
                    &&& final(state)@.trips == old(state)@.trips
                })
                &&& (!is_request ==> {
                    &&& find_trip(old(state)@.trips, id) is None
                    &&& final(state)@.trips == old(state)@.trips.push(
                        TripData { id, path: seq![from.id, to.id] },
                    )
                    &&& final(state)@.requests == old(state)@.requests
                })
            },
            Err(e) => {
                &&& final(state)@ == old(state)@
                &&& (e == Error::InvalidOperation <==> is_request && from.id == to.id)
                &&& (e == Error::GeometryProviderError <==> !(is_request && from.id == to.id)
                    && find_segment(old(state)@.segments, from.id, to.id) is None
                    && route is None)
                &&& (e == Error::PersistenceError <==> !(is_request && from.id == to.id) && !(
                find_segment(old(state)@.segments, from.id, to.id) is None && route is None) && (
                if is_request {
                    find_request(old(state)@.requests, new_id) is Some
                } else {
                    find_trip(old(state)@.trips, new_id) is Some
                }))
                &&& (e == Error::InvalidOperation || e == Error::GeometryProviderError || e
                    == Error::PersistenceError)
            },
        },
{
    let fid = from.id;
    let tid = to.id;
    if is_request && fid == tid {
        return Err(Error::InvalidOperation);
    }
    let need_segment = !state.has_segment(fid, tid);
    if need_segment && route.is_none() {
        return Err(Error::GeometryProviderError);
    }
    let nid = new_id;
    if is_request {
        if state.find_request(nid).is_some() {
            return Err(Error::PersistenceError);
        }
    } else {
        if state.find_trip(nid).is_some() {
            return Err(Error::PersistenceError);
        }
    }
    state.get_or_create_station(from);
    state.get_or_create_station(to);
    let ghost mid = state@;
    if is_request {
        proof {
            lemma_find_request_none(state@.requests, nid);
        }
        state.requests.push(
            CargoRequest { id: nid, trip_id: None, source: fid, destination: tid },
        );
        proof {
            assert(state@.requests =~= mid.requests.push(
                CargoRequest { id: nid, trip_id: None, source: fid, destination: tid },
            ));
            assert(state@.stations == mid.stations);
            assert(state@.trips == mid.trips);
            assert(state@.segments == mid.segments);
        }
    } else {
        proof {
            lemma_find_trip_none(state@.trips, nid);
        }
        let mut path: Vec<u128> = Vec::new();
        path.push(fid);
        path.push(tid);
        state.trips.push(Trip { id: nid, path });
        proof {
            assert(state@.trips =~~= mid.trips.push(TripData { id: nid, path: seq![fid, tid] }));
            assert(state@.stations == mid.stations);
            assert(state@.requests == mid.requests);
            assert(state@.segments == mid.segments);
        }
    }
    if need_segment {
        match route {
            Some(pr) => {
                state.store_segment(
                    Segment {
                        s1: fid,
                        s2: tid,
                        points: pr.way,
                        distance: pr.distance,
                        time: pr.duration,
                    },
                );
            },
            None => {},
        }
    }
    Ok(nid)
}


/// Create a trip between two stations under the given route id.  The
/// new trip's path is the two stations in order; the segment between
/// them is cached from `route` when not already cached.  An id already
/// naming a trip is refused with `PersistenceError`, exactly as the
/// store's unique constraint would refuse it.
pub fn create_trip_with_id(
    state: &mut State,
    from: Station,
    to: Station,
    route: Option<ProviderRoute>,
    new_id: u128,
) -> (r: Result<u128, Error>)
    requires
        old(state).wf(),
        from.coords.valid(),
        to.coords.valid(),
    ensures
        final(state).wf(),
        match r {
            Ok(id) => {
                &&& id == new_id
                &&& find_trip(old(state)@.trips, id) is None
                &&& final(state)@.stations == add_station(
                    add_station(old(state)@.stations, from@),
                    to@,
                )
                &&& final(state)@.trips == old(state)@.trips.push(
                    TripData { id, path: seq![from.id, to.id] },
                )
                &&& final(state)@.requests == old(state)@.requests
                &&& final(state)@.segments == (if find_segment(
                    old(state)@.segments,
                    from.id,
                    to.id,
                ) is Some {
                    old(state)@.segments
                } else {
                    old(state)@.segments.push(
                        segment_from_route(from.id, to.id, route->Some_0),
                    )
                })
            },
            Err(e) => {
                &&& final(state)@ == old(state)@
                &&& (e == Error::GeometryProviderError <==> find_segment(
                    old(state)@.segments,
                    from.id,
                    to.id,
                ) is None && route is None)
                &&& (e == Error::PersistenceError <==> !(find_segment(
                    old(state)@.segments,
                    from.id,
                    to.id,
                ) is None && route is None) && find_trip(old(state)@.trips, new_id) is Some)
                &&& (e == Error::GeometryProviderError || e == Error::PersistenceError)
            },
        },
{
    create_route(state, from, to, route, false, new_id)
}

/// Create a trip between two stations, minting a fresh route id for it.
/// A minted id that collides with an existing trip is refused with
/// `PersistenceError`; every other outcome is that of
/// [`create_trip_with_id`] for the minted id.
pub fn create_trip(
    state: &mut State,
    from: Station,
    to: Station,
    route: Option<ProviderRoute>,
) -> (r: Result<u128, Error>)
    requires
        old(state).wf(),
        from.coords.valid(),
        to.coords.valid(),
    ensures
        final(state).wf(),
        match r {
            Ok(id) => {
                &&& find_trip(old(state)@.trips, id) is None
                &&& final(state)@.stations == add_station(
                    add_station(old(state)@.stations, from@),
                    to@,
                )
                &&& final(state)@.trips == old(state)@.trips.push(
                    TripData { id, path: seq![from.id, to.id] },
                )
                &&& final(state)@.requests == old(state)@.requests
                &&& final(state)@.segments == (if find_segment(
                    old(state)@.segments,
                    from.id,
                    to.id,
                ) is Some {
                    old(state)@.segments
                } else {
                    old(state)@.segments.push(
                        segment_from_route(from.id, to.id, route->Some_0),
                    )
                })
            },
            Err(e) => {
                &&& final(state)@ == old(state)@
                &&& (e == Error::GeometryProviderError <==> find_segment(
                    old(state)@.segments,
                    from.id,
                    to.id,
                ) is None && route is None)
                &&& (e == Error::GeometryProviderError || e == Error::PersistenceError)
            },
        },
{
    let nid = fresh_route_id();
    create_trip_with_id(state, from, to, route, nid)
}

/// Create a cargo request between two distinct stations under the
/// given route id.  The segment between them is cached from `route`
/// when not already cached.  An id already naming a request is refused
/// with `PersistenceError`, exactly as the store's unique constraint
/// would refuse it.
pub fn create_cargo_request_with_id(
    state: &mut State,
    from: Station,
    to: Station,
    route: Option<ProviderRoute>,
    new_id: u128,
) -> (r: Result<u128, Error>)
    requires
        old(state).wf(),
        from.coords.valid(),
        to.coords.valid(),
    ensures
        final(state).wf(),
        match r {
            Ok(id) => {
                &&& id == new_id
                &&& from.id != to.id
                &&& find_request(old(state)@.requests, id) is None
                &&& final(state)@.stations == add_station(
                    add_station(old(state)@.stations, from@),
                    to@,
                )
                &&& final(state)@.requests == old(state)@.requests.push(
                    CargoRequest { id, trip_id: None, source: from.id, destination: to.id },
                )
                &&& final(state)@.trips == old(state)@.trips
                &&& final(state)@.segments == (if find_segment(
                    old(state)@.segments,
                    from.id,
                    to.id,
                ) is Some {
                    old(state)@.segments
                } else {
                    old(state)@.segments.push(
                        segment_from_route(from.id, to.id, route->Some_0),
                    )
                })
            },
            Err(e) => {
                &&& final(state)@ == old(state)@
                &&& (e == Error::InvalidOperation <==> from.id == to.id)
                &&& (e == Error::GeometryProviderError <==> from.id != to.id && find_segment(
                    old(state)@.segments,
                    from.id,
                    to.id,
                ) is None && route is None)
                &&& (e == Error::PersistenceError <==> from.id != to.id && !(find_segment(
                    old(state)@.segments,
                    from.id,
                    to.id,
                ) is None && route is None) && find_request(old(state)@.requests, new_id) is Some)
                &&& (e == Error::InvalidOperation || e == Error::GeometryProviderError || e
                    == Error::PersistenceError)
            },
        },
{
    create_route(state, from, to, route, true, new_id)
}

/// Create a cargo request between two distinct stations, minting a
/// fresh route id for it.  A minted id that collides with an existing
/// request is refused with `PersistenceError`; every other outcome is
/// that of [`create_cargo_request_with_id`] for the minted id.
pub fn create_cargo_request(
    state: &mut State,
    from: Station,
    to: Station,
    route: Option<ProviderRoute>,
) -> (r: Result<u128, Error>)
    requires
        old(state).wf(),
        from.coords.valid(),
        to.coords.valid(),
    ensures
        final(state).wf(),
        match r {
            Ok(id) => {
                &&& from.id != to.id
                &&& find_request(old(state)@.requests, id) is None
                &&& final(state)@.stations == add_station(
                    add_station(old(state)@.stations, from@),
                    to@,
                )
                &&& final(state)@.requests == old(state)@.requests.push(
                    CargoRequest { id, trip_id: None, source: from.id, destination: to.id },
                )
                &&& final(state)@.trips == old(state)@.trips
                &&& final(state)@.segments == (if find_segment(
                    old(state)@.segments,
                    from.id,
                    to.id,
                ) is Some {
                    old(state)@.segments
                } else {
                    old(state)@.segments.push(
                        segment_from_route(from.id, to.id, route->Some_0),
                    )
                })
            },
            Err(e) => {
                &&& final(state)@ == old(state)@
                &&& (e == Error::InvalidOperation <==> from.id == to.id)
                &&& (e == Error::GeometryProviderError <==> from.id != to.id && find_segment(
                    old(state)@.segments,
                    from.id,
                    to.id,
                ) is None && route is None)
                &&& (e == Error::InvalidOperation || e == Error::GeometryProviderError || e
                    == Error::PersistenceError)
            },
        },
{
    let nid = fresh_route_id();
    create_cargo_request_with_id(state, from, to, route, nid)
}

/// Every consecutive pair of the path has a cached segment.
pub open spec fn hops_cached(gs: Seq<SegmentData>, path: Seq<u128>) -> bool {
    forall|i: int|
        0 <= i < path.len() - 1 ==> (#[trigger] find_segment(gs, path[i], path[i + 1])) is Some
}

/// The cached segment of hop `i` (from `path[i]` to `path[i + 1]`).
pub open spec fn hop_segment(gs: Seq<SegmentData>, path: Seq<u128>, i: int) -> SegmentData {
    find_segment(gs, path[i], path[i + 1])->Some_0
}

/// A route can be rendered as waypoints: at least two stops, every stop
/// registered, every hop's segment cached.
pub open spec fn route_viewable(st: StateData, path: Seq<u128>) -> bool {
    &&& path.len() >= 2
    &&& all_stations_found(st.stations, path)
    &&& hops_cached(st.segments, path)
}

/// The waypoints of a trip: each stop with the road distance and travel
/// time of the hop leading to it (zero for the first stop).
pub fn get_trip(state: &State, rq: &GetRouteRequest) -> (r: Result<GetWaypointsResponse, Error>)
    ensures
        match r {
            Ok(resp) => {
                &&& find_trip(state@.trips, rq.route_id) is Some
                &&& route_viewable(state@, find_trip(state@.trips, rq.route_id)->Some_0.path)
                &&& resp@.len() == find_trip(state@.trips, rq.route_id)->Some_0.path.len()
                &&& resp@[0].station == station_at(
                    state@.stations,
                    find_trip(state@.trips, rq.route_id)->Some_0.path[0],
                )
                &&& resp@[0].distance == 0
                &&& resp@[0].trip_time == 0
                &&& forall|i: int|
                    1 <= i < resp@.len() ==> {
                        &&& (#[trigger] resp@[i]).station == station_at(
                            state@.stations,
                            find_trip(state@.trips, rq.route_id)->Some_0.path[i],
                        )
                        &&& resp@[i].distance == hop_segment(
                            state@.segments,
                            find_trip(state@.trips, rq.route_id)->Some_0.path,
                            i - 1,
                        ).distance
                        &&& resp@[i].trip_time == hop_segment(
                            state@.segments,
                            find_trip(state@.trips, rq.route_id)->Some_0.path,
                            i - 1,
                        ).time
                    }
            },
            Err(e) => {
                &&& e == Error::NotFound
                &&& (find_trip(state@.trips, rq.route_id) is Some ==> !route_viewable(
                    state@,
                    find_trip(state@.trips, rq.route_id)->Some_0.path,
                ))
            },
        },
{
    let t = match state.find_trip(rq.route_id) {
        Some(t) => t,
        None => {
            return Err(Error::NotFound);
        },
    };
    let n = t.path.len();
    if n < 2 {
        return Err(Error::NotFound);
    }
    let st0 = match state.find_station(t.path[0]) {
        Some(s) => s,
        None => {
            proof {
                assert(!all_stations_found(state@.stations, t@.path)) by {
                    if all_stations_found(state@.stations, t@.path) {
                        assert(find_station(state@.stations, t@.path[0]) is Some);
                    }
                }
            }
            return Err(Error::NotFound);
        },
    };
    let mut ways: Vec<Waypoint> = Vec::new();
    ways.push(
        Waypoint {
            station: Station { id: st0.id, address: st0.address.clone(), coords: st0.coords },
            distance: 0,
            trip_time: 0,
        },
    );
    let mut i: usize = 1;
    while i < n
        invariant
            find_trip(state@.trips, rq.route_id) == Some(t@),
            n == t.path.len(),
            2 <= n,
            1 <= i <= n,
            ways@.len() == i,
            forall|k: int|
                0 <= k < i ==> find_station(state@.stations, #[trigger] t.path@[k]) is Some,
            forall|k: int|
                0 <= k < i - 1 ==> (#[trigger] find_segment(
                    state@.segments,
                    t.path@[k],
                    t.path@[k + 1],
                )) is Some,
            (ways@[0])@.station == station_at(state@.stations, t.path@[0]),
            (ways@[0])@.distance == 0,
            (ways@[0])@.trip_time == 0,
            forall|k: int|
                1 <= k < i ==> {
                    &&& (#[trigger] ways@[k])@.station == station_at(state@.stations, t.path@[k])
                    &&& (ways@[k])@.distance == hop_segment(state@.segments, t.path@, k - 1).distance
                    &&& (ways@[k])@.trip_time == hop_segment(state@.segments, t.path@, k - 1).time
                },
        decreases n - i,
    {
        let prev = t.path[i - 1];
        let here = t.path[i];
        let stn = match state.find_station(here) {
            Some(s) => s,
            None => {
                proof {
                    assert(!all_stations_found(state@.stations, t@.path)) by {
                        if all_stations_found(state@.stations, t@.path) {
                            assert(find_station(state@.stations, t@.path[i as int]) is Some);
                        }
                    }
                }
                return Err(Error::NotFound);
            },
        };
        let seg = match state.find_segment(prev, here) {
            Some(g) => g,
            None => {
                proof {
                    assert(!hops_cached(state@.segments, t@.path)) by {
                        if hops_cached(state@.segments, t@.path) {
                            assert(0 <= i - 1 < t@.path.len() - 1);
                            assert(find_segment(
                                state@.segments,
                                t@.path[i as int - 1],
                                t@.path[i as int - 1 + 1],
                            ) is Some);
                        }
                    }
                }
                return Err(Error::NotFound);
            },
        };
        ways.push(
            Waypoint {
                station: Station { id: stn.id, address: stn.address.clone(), coords: stn.coords },
                distance: seg.distance,
                trip_time: seg.time,
            },
        );
        i = i + 1;
    }
    Ok(GetWaypointsResponse { stations: ways })
}

/// The two waypoints of a cargo request: its source, then its
/// destination with the cached distance and travel time between them.
pub fn get_cargo_request(state: &State, rq: &GetRouteRequest) -> (r: Result<
    GetWaypointsResponse,
    Error,
>)
    ensures
        match r {
            Ok(resp) => {
                &&& find_request(state@.requests, rq.route_id) is Some
                &&& find_station(
                    state@.stations,
                    find_request(state@.requests, rq.route_id)->Some_0.source,
                ) is Some
                &&& find_station(
                    state@.stations,
                    find_request(state@.requests, rq.route_id)->Some_0.destination,
                ) is Some
                &&& find_segment(
                    state@.segments,
                    find_request(state@.requests, rq.route_id)->Some_0.source,
                    find_request(state@.requests, rq.route_id)->Some_0.destination,
                ) is Some
                &&& resp@.len() == 2
                &&& resp@[0].station == station_at(
                    state@.stations,
                    find_request(state@.requests, rq.route_id)->Some_0.source,
                )
                &&& resp@[0].distance == 0
                &&& resp@[0].trip_time == 0
                &&& resp@[1].station == station_at(
                    state@.stations,
                    find_request(state@.requests, rq.route_id)->Some_0.destination,
                )
                &&& resp@[1].distance == find_segment(
                    state@.segments,
                    find_request(state@.requests, rq.route_id)->Some_0.source,
                    find_request(state@.requests, rq.route_id)->Some_0.destination,
                )->Some_0.distance
                &&& resp@[1].trip_time == find_segment(
                    state@.segments,
                    find_request(state@.requests, rq.route_id)->Some_0.source,
                    find_request(state@.requests, rq.route_id)->Some_0.destination,
                )->Some_0.time
            },
            Err(e) => {
                &&& e == Error::NotFound
                &&& (find_request(state@.requests, rq.route_id) is Some ==> {
                    ||| find_station(
                        state@.stations,
                        find_request(state@.requests, rq.route_id)->Some_0.source,
                    ) is None
                    ||| find_station(
                        state@.stations,
                        find_request(state@.requests, rq.route_id)->Some_0.destination,
                    ) is None
                    ||| find_segment(
                        state@.segments,
                        find_request(state@.requests, rq.route_id)->Some_0.source,
                        find_request(state@.requests, rq.route_id)->Some_0.destination,
                    ) is None
                })
            },
        },
{
    let req = match state.find_request(rq.route_id) {
        Some(rr) => rr,
        None => {
            return Err(Error::NotFound);
        },
    };
    let src = match state.find_station(req.source) {
        Some(s) => s,
        None => {
            return Err(Error::NotFound);
        },
    };
    let dst = match state.find_station(req.destination) {
        Some(s) => s,
        None => {
            return Err(Error::NotFound);
        },
    };
    let seg = match state.find_segment(req.source, req.destination) {
        Some(g) => g,
        None => {
            return Err(Error::NotFound);
        },
    };
    let mut ways: Vec<Waypoint> = Vec::new();
    ways.push(
        Waypoint {
            station: Station { id: src.id, address: src.address.clone(), coords: src.coords },
            distance: 0,
            trip_time: 0,
        },
    );
    ways.push(
        Waypoint {
            station: Station { id: dst.id, address: dst.address.clone(), coords: dst.coords },
            distance: seg.distance,
            trip_time: seg.time,
        },
    );
    Ok(GetWaypointsResponse { stations: ways })
}

/// The polyline a hop contributes: the cached segment's points, or
/// nothing when the hop has no cached segment yet.
pub open spec fn hop_points(gs: Seq<SegmentData>, s1: u128, s2: u128) -> Seq<Coords> {
    match find_segment(gs, s1, s2) {
        Some(g) => g.points,
        None => Seq::empty(),
    }
}

/// The flattened polyline of a path: the hops' polylines in path order.
pub open spec fn path_points(gs: Seq<SegmentData>, path: Seq<u128>) -> Seq<Coords>
    decreases path.len(),
{
    if path.len() < 2 {
        Seq::empty()
    } else {
        hop_points(gs, path[0], path[1]) + path_points(gs, path.drop_first())
    }
}

/// The flattened polyline of all hops of a trip.
pub fn get_trip_points(state: &State, rq: &GetRouteRequest) -> (r: Result<GetPointsResponse, Error>)
    ensures
        match r {
            Ok(resp) => {
                &&& find_trip(state@.trips, rq.route_id) is Some
                &&& resp.points@ == path_points(
                    state@.segments,
                    find_trip(state@.trips, rq.route_id)->Some_0.path,
                )
                &&& resp.points@.len() > 0
            },
            Err(e) => {
                &&& e == Error::NotFound
                &&& (find_trip(state@.trips, rq.route_id) is Some ==> path_points(
                    state@.segments,
                    find_trip(state@.trips, rq.route_id)->Some_0.path,
                ).len() == 0)
            },
        },
{
    let t = match state.find_trip(rq.route_id) {
        Some(t) => t,
        None => {
            return Err(Error::NotFound);
        },
    };
    let n = t.path.len();
    let mut pts: Vec<Coords> = Vec::new();
    if n >= 2 {
        let mut i: usize = 0;
        proof {
            assert(t.path@.skip(0) =~= t.path@);
            assert(pts@ + path_points(state@.segments, t.path@.skip(0)) =~= path_points(
                state@.segments,
                t.path@,
            ));
        }
        while i < n - 1
            invariant
                find_trip(state@.trips, rq.route_id) == Some(t@),
                n == t.path.len(),
                2 <= n,
                0 <= i <= n - 1,
                pts@ + path_points(state@.segments, t.path@.skip(i as int)) == path_points(
                    state@.segments,
                    t.path@,
                ),
            decreases n - i,
        {
            let ghost tail = t.path@.skip(i as int);
            proof {
                assert(tail.len() >= 2);
                assert(tail[0] == t.path@[i as int]);
                assert(tail[1] == t.path@[i as int + 1]);
                assert(tail.drop_first() =~= t.path@.skip(i as int + 1));
            }
            match state.find_segment(t.path[i], t.path[i + 1]) {
                Some(seg) => {
                    let ghost base = pts@;
                    let m = seg.points.len();
                    let mut j: usize = 0;
                    while j < m
                        invariant
                            m == seg.points.len(),
                            0 <= j <= m,
                            pts@ == base + seg.points@.take(j as int),
                        decreases m - j,
                    {
                        pts.push(seg.points[j]);
                        proof {
                            assert(base + seg.points@.take(j as int + 1) =~= (base
                                + seg.points@.take(j as int)).push(seg.points@[j as int]));
                        }
                        j = j + 1;
                    }
                    proof {
                        assert(seg.points@.take(m as int) =~= seg.points@);
                        assert(pts@ == base + seg.points@);
                        assert(hop_points(state@.segments, tail[0], tail[1]) == seg.points@);
                        assert((base + seg.points@) + path_points(
                            state@.segments,
                            t.path@.skip(i as int + 1),
                        ) =~= base + (seg.points@ + path_points(
                            state@.segments,
                            t.path@.skip(i as int + 1),
                        )));
                    }
                },
                None => {
                    proof {
                        assert(hop_points(state@.segments, tail[0], tail[1]) =~= Seq::<
                            Coords,
                        >::empty());
                        assert(Seq::<Coords>::empty() + path_points(
                            state@.segments,
                            t.path@.skip(i as int + 1),
                        ) =~= path_points(state@.segments, t.path@.skip(i as int + 1)));
                    }
                },
            }
            i = i + 1;
        }
        proof {
            assert(t.path@.skip(n as int - 1).len() == 1);
            assert(pts@ + Seq::<Coords>::empty() =~= pts@);
        }
    }
    proof {
        if n < 2 {
            assert(path_points(state@.segments, t.path@).len() == 0);
        }
    }
    if pts.is_empty() {
        return Err(Error::NotFound);
    }
    Ok(GetPointsResponse { points: pts })
}

/// The polyline of a cargo request: the cached segment between its
/// source and destination.
pub fn get_cargo_request_points(state: &State, rq: &GetRouteRequest) -> (r: Result<
    GetPointsResponse,
    Error,
>)
    ensures
        match r {
            Ok(resp) => {
                &&& find_request(state@.requests, rq.route_id) is Some
                &&& find_station(
                    state@.stations,
                    find_request(state@.requests, rq.route_id)->Some_0.source,
                ) is Some
                &&& find_station(
                    state@.stations,
                    find_request(state@.requests, rq.route_id)->Some_0.destination,
                ) is Some
                &&& find_segment(
                    state@.segments,
                    find_request(state@.requests, rq.route_id)->Some_0.source,
                    find_request(state@.requests, rq.route_id)->Some_0.destination,
                ) is Some
                &&& resp.points@ == find_segment(
                    state@.segments,
                    find_request(state@.requests, rq.route_id)->Some_0.source,
                    find_request(state@.requests, rq.route_id)->Some_0.destination,
                )->Some_0.points
                &&& resp.points@.len() > 0
            },
            Err(e) => {
                &&& e == Error::NotFound
                &&& !(find_request(state@.requests, rq.route_id) is Some && find_station(
                    state@.stations,
                    find_request(state@.requests, rq.route_id)->Some_0.source,
                ) is Some && find_station(
                    state@.stations,
                    find_request(state@.requests, rq.route_id)->Some_0.destination,
                ) is Some && find_segment(
                    state@.segments,
                    find_request(state@.requests, rq.route_id)->Some_0.source,
                    find_request(state@.requests, rq.route_id)->Some_0.destination,
                ) is Some && find_segment(
                    state@.segments,
                    find_request(state@.requests, rq.route_id)->Some_0.source,
                    find_request(state@.requests, rq.route_id)->Some_0.destination,
                )->Some_0.points.len() > 0)
            },
        },
{
    let req = match state.find_request(rq.route_id) {
        Some(rr) => rr,
        None => {
            return Err(Error::NotFound);
        },
    };
    if state.find_station(req.source).is_none() {
        return Err(Error::NotFound);
    }
    if state.find_station(req.destination).is_none() {
        return Err(Error::NotFound);
    }
    let seg = match state.find_segment(req.source, req.destination) {
        Some(g) => g,
        None => {
            return Err(Error::NotFound);
        },
    };
    let mut pts: Vec<Coords> = Vec::new();
    let m = seg.points.len();
    let mut j: usize = 0;
    while j < m
        invariant
            m == seg.points.len(),
            0 <= j <= m,
            pts@ == seg.points@.take(j as int),
        decreases m - j,
    {
        pts.push(seg.points[j]);
        proof {
            assert(seg.points@.take(j as int + 1) =~= seg.points@.take(j as int).push(
                seg.points@[j as int],
            ));
        }
        j = j + 1;
    }
    proof {
        assert(seg.points@.take(m as int) =~= seg.points@);
    }
    if pts.is_empty() {
        return Err(Error::NotFound);
    }
    Ok(GetPointsResponse { points: pts })
}


/// Segment cache idempotence: once a missing ordered pair has been
/// cached, a later get-or-compute issues no further provider call —
/// looking the pair up finds exactly the stored geometry, and storing
/// any second answer for the same pair leaves the cache unchanged.
pub proof fn law_segment_cache_idempotent(gs: Seq<SegmentData>, g: SegmentData, g2: SegmentData)
    requires
        find_segment(gs, g.s1, g.s2) is None,
        g2.s1 == g.s1,
        g2.s2 == g.s2,
    ensures
        find_segment(gs.push(g), g.s1, g.s2) == Some(g),
        add_segment(gs.push(g), g2) == gs.push(g),
{
    crate::model::lemma_find_segment_push(gs, g, g.s1, g.s2);
}


/// The message a failure is reported with.
pub open spec fn error_message(e: Error) -> Seq<char> {
    match e {
        Error::InvalidTripState => "invalid trip state"@,
        Error::InvalidOperation => "invalid operation"@,
        Error::NotFound => "not found"@,
        Error::GeometryProviderError => "map service returned error"@,
        Error::PersistenceError => "db returned error"@,
    }
}

/// The error body handed back to callers of the service layer.
#[derive(Debug)]
pub struct ErrorResponse {
    pub message: String,
}

impl ErrorResponse {
    /// An error body with the given message.
    pub fn new(message: String) -> (r: ErrorResponse)
        ensures
            r.message@ == message@,
    {
        ErrorResponse { message }
    }

    /// The error body that reports the given failure.
    pub fn from_error(e: &Error) -> (r: ErrorResponse)
        ensures
            r.message@ == error_message(*e),
    {
        match e {
            Error::InvalidTripState => ErrorResponse::new(
                String::from_str("invalid trip state"),
            ),
            Error::InvalidOperation => ErrorResponse::new(String::from_str("invalid operation")),
            Error::NotFound => ErrorResponse::new(String::from_str("not found")),
            Error::GeometryProviderError => ErrorResponse::new(
                String::from_str("map service returned error"),
            ),
            Error::PersistenceError => ErrorResponse::new(
                String::from_str("db returned error"),
            ),
        }
    }
}

} // verus!
