//! The data model: stations, trips, cargo requests, cached path segments,
//! and the in-memory store they live in.
//!
//! The store plays the role of the persistent tables: each operation either
//! commits as a whole or leaves the store untouched, and the store's
//! well-formedness (unique identifiers, valid coordinates, one segment per
//! ordered station pair) is an invariant of every operation.

use vstd::prelude::*;

use crate::geo::Coords;

verus! {

/// A named geographic point.  Immutable once created; referenced by id.
#[derive(Debug)]
pub struct Station {
    pub id: u128,
    pub address: String,
    pub coords: Coords,
}

/// Mathematical value of a [`Station`].
#[verifier::ext_equal]
pub ghost struct StationData {
    pub id: u128,
    pub address: Seq<char>,
    pub coords: Coords,
}

impl View for Station {
    type V = StationData;

    open spec fn view(&self) -> StationData {
        StationData { id: self.id, address: self.address@, coords: self.coords }
    }
}

/// An ordered sequence of stations a vehicle visits, identified by `id`.
/// The first and last stations of `path` are the trip's source and
/// destination.
#[derive(Debug)]
pub struct Trip {
    pub id: u128,
    pub path: Vec<u128>,
}

/// Mathematical value of a [`Trip`].
#[verifier::ext_equal]
pub ghost struct TripData {
    pub id: u128,
    pub path: Seq<u128>,
}

impl View for Trip {
    type V = TripData;

    open spec fn view(&self) -> TripData {
        TripData { id: self.id, path: self.path@ }
    }
}

/// A pickup/drop-off demand between two distinct stations, optionally
/// absorbed into a trip.
#[derive(Clone, Copy, Debug)]
pub struct CargoRequest {
    pub id: u128,
    pub trip_id: Option<u128>,
    pub source: u128,
    pub destination: u128,
}

/// Cached path geometry between an ordered pair of stations.  Created at
/// most once per ordered pair and never mutated afterwards.
#[derive(Debug)]
pub struct Segment {
    pub s1: u128,
    pub s2: u128,
    pub points: Vec<Coords>,
    pub distance: u64,
    pub time: u64,
}

/// Mathematical value of a [`Segment`].
#[verifier::ext_equal]
pub ghost struct SegmentData {
    pub s1: u128,
    pub s2: u128,
    pub points: Seq<Coords>,
    pub distance: u64,
    pub time: u64,
}

impl View for Segment {
    type V = SegmentData;

    open spec fn view(&self) -> SegmentData {
        SegmentData {
            s1: self.s1,
            s2: self.s2,
            points: self.points@,
            distance: self.distance,
            time: self.time,
        }
    }
}

/// First station of the sequence with the given id, if any.
pub open spec fn find_station(ss: Seq<StationData>, id: u128) -> Option<StationData>
    decreases ss.len(),
{
    if ss.len() == 0 {
        None
    } else if ss[0].id == id {
        Some(ss[0])
    } else {
        find_station(ss.drop_first(), id)
    }
}

/// First trip of the sequence with the given id, if any.
pub open spec fn find_trip(ts: Seq<TripData>, id: u128) -> Option<TripData>
    decreases ts.len(),
{
    if ts.len() == 0 {
        None
    } else if ts[0].id == id {
        Some(ts[0])
    } else {
        find_trip(ts.drop_first(), id)
    }
}

/// First cargo request of the sequence with the given id, if any.
pub open spec fn find_request(rs: Seq<CargoRequest>, id: u128) -> Option<CargoRequest>
    decreases rs.len(),
{
    if rs.len() == 0 {
        None
    } else if rs[0].id == id {
        Some(rs[0])
    } else {
        find_request(rs.drop_first(), id)
    }
}

/// First segment of the sequence keyed by the ordered pair, if any.
pub open spec fn find_segment(gs: Seq<SegmentData>, s1: u128, s2: u128) -> Option<SegmentData>
    decreases gs.len(),
{
    if gs.len() == 0 {
        None
    } else if gs[0].s1 == s1 && gs[0].s2 == s2 {
        Some(gs[0])
    } else {
        find_segment(gs.drop_first(), s1, s2)
    }
}

/// A station search that misses saw no element carrying the id.
pub proof fn lemma_find_station_none(ss: Seq<StationData>, id: u128)
    requires
        find_station(ss, id) is None,
    ensures
        forall|i: int| 0 <= i < ss.len() ==> (#[trigger] ss[i]).id != id,
    decreases ss.len(),
{
    if ss.len() > 0 {
        lemma_find_station_none(ss.drop_first(), id);
        assert forall|i: int| 0 <= i < ss.len() implies (#[trigger] ss[i]).id != id by {
            if i > 0 {
                assert(ss[i] == ss.drop_first()[i - 1]);
            }
        }
    }
}

/// A found station carries the id and occurs in the sequence.
pub proof fn lemma_find_station_some(ss: Seq<StationData>, id: u128)
    requires
        find_station(ss, id) is Some,
    ensures
        find_station(ss, id)->Some_0.id == id,
        exists|i: int|
            0 <= i < ss.len() && ss[i] == find_station(ss, id)->Some_0,
    decreases ss.len(),
{
    if ss.len() > 0 && ss[0].id != id {
        lemma_find_station_some(ss.drop_first(), id);
        let j = choose|j: int|
            0 <= j < ss.drop_first().len() && ss.drop_first()[j] == find_station(ss, id)->Some_0;
        assert(ss[j + 1] == ss.drop_first()[j]);
    }
}

/// A trip search that misses saw no element carrying the id.
pub proof fn lemma_find_trip_none(ts: Seq<TripData>, id: u128)
    requires
        find_trip(ts, id) is None,
    ensures
        forall|i: int| 0 <= i < ts.len() ==> (#[trigger] ts[i]).id != id,
    decreases ts.len(),
{
    if ts.len() > 0 {
        lemma_find_trip_none(ts.drop_first(), id);
        assert forall|i: int| 0 <= i < ts.len() implies (#[trigger] ts[i]).id != id by {
            if i > 0 {
                assert(ts[i] == ts.drop_first()[i - 1]);
            }
        }
    }
}

/// A request search that misses saw no element carrying the id.
pub proof fn lemma_find_request_none(rs: Seq<CargoRequest>, id: u128)
    requires
        find_request(rs, id) is None,
    ensures
        forall|i: int| 0 <= i < rs.len() ==> (#[trigger] rs[i]).id != id,
    decreases rs.len(),
{
    if rs.len() > 0 {
        lemma_find_request_none(rs.drop_first(), id);
        assert forall|i: int| 0 <= i < rs.len() implies (#[trigger] rs[i]).id != id by {
            if i > 0 {
                assert(rs[i] == rs.drop_first()[i - 1]);
            }
        }
    }
}

/// A segment search that misses saw no element carrying the pair.
pub proof fn lemma_find_segment_none(gs: Seq<SegmentData>, s1: u128, s2: u128)
    requires
        find_segment(gs, s1, s2) is None,
    ensures
        forall|i: int|
            0 <= i < gs.len() ==> !((#[trigger] gs[i]).s1 == s1 && gs[i].s2 == s2),
    decreases gs.len(),
{
    if gs.len() > 0 {
        lemma_find_segment_none(gs.drop_first(), s1, s2);
        assert forall|i: int|
            0 <= i < gs.len() implies !((#[trigger] gs[i]).s1 == s1 && gs[i].s2 == s2) by {
            if i > 0 {
                assert(gs[i] == gs.drop_first()[i - 1]);
            }
        }
    }
}

/// Mathematical value of the whole store.
#[verifier::ext_equal]
pub ghost struct StateData {
    pub stations: Seq<StationData>,
    pub trips: Seq<TripData>,
    pub requests: Seq<CargoRequest>,
    pub segments: Seq<SegmentData>,
}

/// The in-memory store of the coordination service: the station registry,
/// the trips with their paths, the cargo requests, and the segment cache.
#[derive(Debug)]
pub struct State {
    pub stations: Vec<Station>,
    pub trips: Vec<Trip>,
    pub requests: Vec<CargoRequest>,
    pub segments: Vec<Segment>,
}

impl View for State {
    type V = StateData;

    open spec fn view(&self) -> StateData {
        StateData {
            stations: self.stations@.map_values(|s: Station| s@),
            trips: self.trips@.map_values(|t: Trip| t@),
            requests: self.requests@,
            segments: self.segments@.map_values(|g: Segment| g@),
        }
    }
}

impl State {
    /// Well-formedness: identifiers are unique per table, the segment cache
    /// holds at most one entry per ordered pair, and every station
    /// coordinate is geographically valid.
    pub open spec fn wf(self) -> bool {
        &&& forall|i: int, j: int|
            0 <= i < j < self@.stations.len() ==> (#[trigger] self@.stations[i]).id != (
            #[trigger] self@.stations[j]).id
        &&& forall|i: int, j: int|
            0 <= i < j < self@.trips.len() ==> (#[trigger] self@.trips[i]).id != (
            #[trigger] self@.trips[j]).id
        &&& forall|i: int, j: int|
            0 <= i < j < self@.requests.len() ==> (#[trigger] self@.requests[i]).id != (
            #[trigger] self@.requests[j]).id
        &&& forall|i: int, j: int|
            0 <= i < j < self@.segments.len() ==> !((#[trigger] self@.segments[i]).s1 == (
            #[trigger] self@.segments[j]).s1 && self@.segments[i].s2 == self@.segments[j].s2)
        &&& forall|i: int|
            0 <= i < self@.stations.len() ==> (#[trigger] self@.stations[i]).coords.valid()
    }

    /// An empty store.
    pub fn new() -> (s: State)
        ensures
            s.wf(),
            s@.stations == Seq::<StationData>::empty(),
            s@.trips == Seq::<TripData>::empty(),
            s@.requests == Seq::<CargoRequest>::empty(),
            s@.segments == Seq::<SegmentData>::empty(),
    {
        let s = State {
            stations: Vec::new(),
            trips: Vec::new(),
            requests: Vec::new(),
            segments: Vec::new(),
        };
        proof {
            assert(s@.stations =~= Seq::<StationData>::empty());
            assert(s@.trips =~= Seq::<TripData>::empty());
            assert(s@.segments =~= Seq::<SegmentData>::empty());
        }
        s
    }

    /// Station with the given id, if present.
    pub fn find_station(&self, id: u128) -> (r: Option<&Station>)
        ensures
            match r {
                Some(st) => find_station(self@.stations, id) == Some(st@),
                None => find_station(self@.stations, id) is None,
            },
    {
        let n = self.stations.len();
        let mut i: usize = 0;
        proof {
            assert(self@.stations.skip(0) =~= self@.stations);
        }
        while i < n
            invariant
                0 <= i <= n,
                n == self.stations.len(),
                find_station(self@.stations.skip(i as int), id) == find_station(
                    self@.stations,
                    id,
                ),
            decreases n - i,
        {
            if self.stations[i].id == id {
                proof {
                    assert(self@.stations.skip(i as int)[0] == self@.stations[i as int]);
                }
                return Some(&self.stations[i]);
            }
            proof {
                assert(self@.stations.skip(i as int).drop_first() =~= self@.stations.skip(
                    i as int + 1,
                ));
            }
            i = i + 1;
        }
        proof {
            assert(self@.stations.skip(n as int).len() == 0);
        }
        None
    }

    /// Trip with the given id, if present.
    pub fn find_trip(&self, id: u128) -> (r: Option<&Trip>)
        ensures
            match r {
                Some(t) => find_trip(self@.trips, id) == Some(t@),
                None => find_trip(self@.trips, id) is None,
            },
    {
        let n = self.trips.len();
        let mut i: usize = 0;
        proof {
            assert(self@.trips.skip(0) =~= self@.trips);
        }
        while i < n
            invariant
                0 <= i <= n,
                n == self.trips.len(),
                find_trip(self@.trips.skip(i as int), id) == find_trip(self@.trips, id),
            decreases n - i,
        {
            if self.trips[i].id == id {
                proof {
                    assert(self@.trips.skip(i as int)[0] == self@.trips[i as int]);
                }
                return Some(&self.trips[i]);
            }
            proof {
                assert(self@.trips.skip(i as int).drop_first() =~= self@.trips.skip(i as int + 1));
            }
            i = i + 1;
        }
        proof {
            assert(self@.trips.skip(n as int).len() == 0);
        }
        None
    }

    /// Cargo request with the given id, if present.
    pub fn find_request(&self, id: u128) -> (r: Option<CargoRequest>)
        ensures
            r == find_request(self@.requests, id),
    {
        let n = self.requests.len();
        let mut i: usize = 0;
        proof {
            assert(self@.requests.skip(0) =~= self@.requests);
        }
        while i < n
            invariant
                0 <= i <= n,
                n == self.requests.len(),
                find_request(self@.requests.skip(i as int), id) == find_request(
                    self@.requests,
                    id,
                ),
            decreases n - i,
        {
            if self.requests[i].id == id {
                proof {
                    assert(self@.requests.skip(i as int)[0] == self@.requests[i as int]);
                }
                return Some(self.requests[i]);
            }
            proof {
                assert(self@.requests.skip(i as int).drop_first() =~= self@.requests.skip(
                    i as int + 1,
                ));
            }
            i = i + 1;
        }
        proof {
            assert(self@.requests.skip(n as int).len() == 0);
        }
        None
    }

    /// Segment keyed by the ordered pair, if present.
    pub fn find_segment(&self, s1: u128, s2: u128) -> (r: Option<&Segment>)
        ensures
            match r {
                Some(g) => find_segment(self@.segments, s1, s2) == Some(g@),
                None => find_segment(self@.segments, s1, s2) is None,
            },
    {
        let n = self.segments.len();
        let mut i: usize = 0;
        proof {
            assert(self@.segments.skip(0) =~= self@.segments);
        }
        while i < n
            invariant
                0 <= i <= n,
                n == self.segments.len(),
                find_segment(self@.segments.skip(i as int), s1, s2) == find_segment(
                    self@.segments,
                    s1,
                    s2,
                ),
            decreases n - i,
        {
            if self.segments[i].s1 == s1 && self.segments[i].s2 == s2 {
                proof {
                    assert(self@.segments.skip(i as int)[0] == self@.segments[i as int]);
                }
                return Some(&self.segments[i]);
            }
            proof {
                assert(self@.segments.skip(i as int).drop_first() =~= self@.segments.skip(
                    i as int + 1,
                ));
            }
            i = i + 1;
        }
        proof {
            assert(self@.segments.skip(n as int).len() == 0);
        }
        None
    }

    /// Whether the segment cache already holds the ordered pair.
    pub fn has_segment(&self, s1: u128, s2: u128) -> (r: bool)
        ensures
            r == (find_segment(self@.segments, s1, s2) is Some),
    {
        match self.find_segment(s1, s2) {
            Some(_) => true,
            None => false,
        }
    }

    /// Station registry get-or-create: an existing station is returned
    /// unchanged (the input never overwrites it), a new one is persisted.
    pub fn get_or_create_station(&mut self, st: Station)
        requires
            old(self).wf(),
            st.coords.valid(),
        ensures
            final(self).wf(),
            match find_station(old(self)@.stations, st.id) {
                Some(_) => final(self)@ == old(self)@,
                None => final(self)@ == StateData {
                    stations: old(self)@.stations.push(st@),
                    ..old(self)@
                },
            },
    {
        match self.find_station(st.id) {
            Some(_) => {},
            None => {
                proof {
                    lemma_find_station_none(self@.stations, st.id);
                }
                let ghost pre = self@;
                self.stations.push(st);
                proof {
                    assert(self@.stations =~= pre.stations.push(st@));
                }
            },
        }
    }

    /// Segment cache store: the cache is append-only and idempotent, so an
    /// ordered pair that is already cached keeps its original geometry and
    /// the store is unchanged; otherwise the entry is persisted.
    pub fn store_segment(&mut self, seg: Segment)
        requires
            old(self).wf(),
        ensures
            final(self).wf(),
            match find_segment(old(self)@.segments, seg.s1, seg.s2) {
                Some(_) => final(self)@ == old(self)@,
                None => final(self)@ == StateData {
                    segments: old(self)@.segments.push(seg@),
                    ..old(self)@
                },
            },
    {
        match self.find_segment(seg.s1, seg.s2) {
            Some(_) => {},
            None => {
                proof {
                    lemma_find_segment_none(self@.segments, seg.s1, seg.s2);
                }
                let ghost pre = self@;
                self.segments.push(seg);
                proof {
                    assert(self@.segments =~= pre.segments.push(seg@));
                }
            },
        }
    }
}

/// Relies on `uuid::Uuid::new_v4` to mint route identifiers.  The value is
/// random: nothing is assumed of it, and callers handle collisions.
#[verifier::external_body]
pub fn fresh_route_id() -> u128 {
    uuid::Uuid::new_v4().as_u128()
}


/// Every station id of the path resolves in the registry.
pub open spec fn all_stations_found(ss: Seq<StationData>, path: Seq<u128>) -> bool {
    forall|i: int| 0 <= i < path.len() ==> find_station(ss, #[trigger] path[i]) is Some
}

/// The station a path entry resolves to.
pub open spec fn station_at(ss: Seq<StationData>, id: u128) -> StationData {
    find_station(ss, id)->Some_0
}

/// The coordinates of a resolved path, in path order.
pub open spec fn path_coords(ss: Seq<StationData>, path: Seq<u128>) -> Seq<Coords> {
    Seq::new(path.len(), |i: int| station_at(ss, path[i]).coords)
}

/// In a well-formed store every resolved station has valid coordinates.
pub proof fn lemma_station_at_valid(st: State, id: u128)
    requires
        st.wf(),
        find_station(st@.stations, id) is Some,
    ensures
        station_at(st@.stations, id).coords.valid(),
{
    lemma_find_station_some(st@.stations, id);
    let i = choose|i: int|
        0 <= i < st@.stations.len() && st@.stations[i] == find_station(st@.stations, id)->Some_0;
    assert(st@.stations[i].coords.valid());
}

/// In a well-formed store the coordinates of a fully resolved path are
/// all valid.
pub proof fn lemma_path_coords_valid(st: State, path: Seq<u128>)
    requires
        st.wf(),
        all_stations_found(st@.stations, path),
    ensures
        crate::geo::valid_coords_seq(path_coords(st@.stations, path)),
{
    assert forall|i: int|
        0 <= i < path_coords(st@.stations, path).len() implies (#[trigger] path_coords(
        st@.stations,
        path,
    )[i]).valid() by {
        assert(find_station(st@.stations, path[i]) is Some);
        lemma_station_at_valid(st, path[i]);
    }
}

impl State {
    /// Resolve every station of the path to its coordinates, in order.
    /// Misses nothing silently: if any station is absent, `None`.
    pub fn resolve_coords(&self, path: &Vec<u128>) -> (r: Option<Vec<Coords>>)
        ensures
            r is Some <==> all_stations_found(self@.stations, path@),
            r is Some ==> r->Some_0@ == path_coords(self@.stations, path@),
    {
        let mut out: Vec<Coords> = Vec::new();
        let n = path.len();
        let mut i: usize = 0;
        while i < n
            invariant
                0 <= i <= n,
                n == path.len(),
                out@.len() == i,
                forall|k: int|
                    0 <= k < i ==> find_station(self@.stations, #[trigger] path@[k]) is Some,
                forall|k: int|
                    0 <= k < i ==> out@[k] == station_at(self@.stations, #[trigger] path@[k]).coords,
            decreases n - i,
        {
            match self.find_station(path[i]) {
                Some(st) => {
                    out.push(st.coords);
                },
                None => {
                    return None;
                },
            }
            i = i + 1;
        }
        proof {
            assert(out@ =~= path_coords(self@.stations, path@));
        }
        Some(out)
    }
}

/// An exact copy of a vector of station ids.
pub fn copy_ids(v: &Vec<u128>) -> (r: Vec<u128>)
    ensures
        r@ == v@,
{
    let mut out: Vec<u128> = Vec::new();
    let n = v.len();
    let mut i: usize = 0;
    while i < n
        invariant
            0 <= i <= n,
            n == v.len(),
            out@ == v@.take(i as int),
        decreases n - i,
    {
        out.push(v[i]);
        proof {
            assert(v@.take(i as int).push(v@[i as int]) =~= v@.take(i as int + 1));
        }
        i = i + 1;
    }
    proof {
        assert(v@.take(n as int) =~= v@);
    }
    out
}

/// An exact copy of a vector of coordinates.
pub fn copy_coords(v: &Vec<Coords>) -> (r: Vec<Coords>)
    ensures
        r@ == v@,
{
    let mut out: Vec<Coords> = Vec::new();
    let n = v.len();
    let mut i: usize = 0;
    while i < n
        invariant
            0 <= i <= n,
            n == v.len(),
            out@ == v@.take(i as int),
        decreases n - i,
    {
        out.push(v[i]);
        proof {
            assert(v@.take(i as int).push(v@[i as int]) =~= v@.take(i as int + 1));
        }
        i = i + 1;
    }
    proof {
        assert(v@.take(n as int) =~= v@);
    }
    out
}


/// How a segment search behaves on an extended table: an existing entry
/// keeps winning, a new entry is found only if the pair was absent.
pub proof fn lemma_find_segment_push(gs: Seq<SegmentData>, g: SegmentData, s1: u128, s2: u128)
    ensures
        find_segment(gs.push(g), s1, s2) == (if find_segment(gs, s1, s2) is Some {
            find_segment(gs, s1, s2)
        } else if g.s1 == s1 && g.s2 == s2 {
            Some(g)
        } else {
            None::<SegmentData>
        }),
    decreases gs.len(),
{
    if gs.len() == 0 {
        assert(gs.push(g)[0] == g);
        assert(gs.push(g).drop_first() =~= Seq::<SegmentData>::empty());
    } else {
        assert(gs.push(g)[0] == gs[0]);
        assert(gs.push(g).drop_first() =~= gs.drop_first().push(g));
        lemma_find_segment_push(gs.drop_first(), g, s1, s2);
    }
}

/// Whether a list of route ids contains the given id.
pub fn ids_contain(v: &Vec<u128>, x: u128) -> (r: bool)
    ensures
        r == v@.contains(x),
{
    let n = v.len();
    let mut i: usize = 0;
    while i < n
        invariant
            0 <= i <= n,
            n == v.len(),
            forall|k: int| 0 <= k < i ==> v@[k] != x,
        decreases n - i,
    {
        if v[i] == x {
            return true;
        }
        i = i + 1;
    }
    false
}

/// First segment of the list keyed by the ordered pair, if any.
pub fn find_segment_in(v: &Vec<Segment>, s1: u128, s2: u128) -> (r: Option<&Segment>)
    ensures
        match r {
            Some(g) => find_segment(v@.map_values(|g: Segment| g@), s1, s2) == Some(g@),
            None => find_segment(v@.map_values(|g: Segment| g@), s1, s2) is None,
        },
{
    let ghost gv = v@.map_values(|g: Segment| g@);
    let n = v.len();
    let mut i: usize = 0;
    proof {
        assert(gv.skip(0) =~= gv);
    }
    while i < n
        invariant
            0 <= i <= n,
            n == v.len(),
            gv == v@.map_values(|g: Segment| g@),
            find_segment(gv.skip(i as int), s1, s2) == find_segment(gv, s1, s2),
        decreases n - i,
    {
        if v[i].s1 == s1 && v[i].s2 == s2 {
            proof {
                assert(gv.skip(i as int)[0] == gv[i as int]);
            }
            return Some(&v[i]);
        }
        proof {
            assert(gv.skip(i as int)[0] == gv[i as int]);
            assert(gv.skip(i as int).drop_first() =~= gv.skip(i as int + 1));
        }
        i = i + 1;
    }
    proof {
        assert(gv.skip(n as int).len() == 0);
    }
    None
}


/// A found segment carries the ordered pair it was searched by.
pub proof fn lemma_find_segment_some(gs: Seq<SegmentData>, s1: u128, s2: u128)
    requires
        find_segment(gs, s1, s2) is Some,
    ensures
        find_segment(gs, s1, s2)->Some_0.s1 == s1,
        find_segment(gs, s1, s2)->Some_0.s2 == s2,
    decreases gs.len(),
{
    if gs.len() > 0 && !(gs[0].s1 == s1 && gs[0].s2 == s2) {
        lemma_find_segment_some(gs.drop_first(), s1, s2);
    }
}

} // verus!
