//! The removal coordinator: take a set of cargo requests out of a trip.
//!
//! The stations the requests contributed are removed from the trip's
//! path, the remainder keeps its relative order and is renumbered to a
//! contiguous zero-based sequence, and the trip is updated in place
//! (same identity).  Every station pair that becomes adjacent through
//! the removal must have a cached segment; missing ones are taken from
//! the provided geometry answers, and a pair that neither the cache nor
//! the answers cover aborts the whole removal.  Nothing is committed
//! unless every step succeeds.

use vstd::prelude::*;

use crate::Error;
use crate::model::CargoRequest;
use crate::model::Segment;
use crate::model::SegmentData;
use crate::model::State;
use crate::model::StateData;
use crate::model::Trip;
use crate::model::TripData;
use crate::model::all_stations_found;
use crate::model::copy_ids;
use crate::model::find_request;
use crate::model::find_segment;
use crate::model::find_segment_in;
use crate::model::find_trip;
use crate::model::ids_contain;
use crate::model::lemma_find_segment_push;
use crate::model::lemma_find_segment_some;
use crate::model::path_coords;
use crate::model::station_at;
use crate::merge::SegmentRequest;
use crate::merge::hop_listed;
use crate::merge::hops_contain;
use crate::merge::provided_view;
use crate::merge::trip_path;

verus! {

/// The updated trip after a removal: its id and its new station
/// sequence.
#[derive(Debug)]
pub struct RemoveStationsResponse {
    pub route_id: u128,
    pub graph: Vec<u128>,
}

/// Every request id resolves.
pub open spec fn requests_found(st: StateData, rids: Seq<u128>) -> bool {
    forall|i: int| 0 <= i < rids.len() ==> (#[trigger] find_request(st.requests, rids[i])) is Some
}

/// Every request of the batch is attached to the trip.
pub open spec fn requests_attached(st: StateData, rids: Seq<u128>, tid: u128) -> bool {
    forall|i: int|
        0 <= i < rids.len() ==> (#[trigger] find_request(st.requests, rids[i]))->Some_0.trip_id
            == Some(tid)
}

/// The stations the requests contributed: each request's source and
/// destination, in batch order.
pub open spec fn removal_ids(st: StateData, rids: Seq<u128>) -> Seq<u128> {
    Seq::new(
        2 * rids.len(),
        |i: int|
            if i % 2 == 0 {
                find_request(st.requests, rids[i / 2])->Some_0.source
            } else {
                find_request(st.requests, rids[i / 2])->Some_0.destination
            },
    )
}

/// The path with every entry of the removal set taken out; the
/// remainder keeps its relative order.
pub open spec fn removed_path(path: Seq<u128>, removal: Seq<u128>) -> Seq<u128> {
    path.filter(|sid: u128| !removal.contains(sid))
}

/// The persisted path rows of a station sequence: one (station, index)
/// row per position.
pub open spec fn path_rows(path: Seq<u128>) -> Seq<(u128, int)> {
    Seq::new(path.len(), |i: int| (path[i], i))
}

/// Removal contiguity: after a removal the trip's path rows carry
/// exactly the indices `0 .. n - 1`, zero-based with no gaps, and at
/// least two rows remain.
pub proof fn law_removal_contiguous(path: Seq<u128>, removal: Seq<u128>)
    requires
        removed_path(path, removal).len() >= 2,
    ensures
        path_rows(removed_path(path, removal)).len() == removed_path(path, removal).len(),
        forall|i: int|
            0 <= i < removed_path(path, removal).len() ==> #[trigger] path_rows(
                removed_path(path, removal),
            )[i].1 == i,
{
}

/// The pair stood adjacent in the path before the removal.
pub open spec fn was_adjacent(path: Seq<u128>, s1: u128, s2: u128) -> bool {
    exists|i: int| 0 <= i < path.len() - 1 && #[trigger] path[i] == s1 && path[i + 1] == s2
}

/// Every pair made newly adjacent by the removal has a segment, either
/// already cached or among the provided answers.
pub open spec fn removal_covers(
    gs: Seq<SegmentData>,
    old_path: Seq<u128>,
    new_path: Seq<u128>,
    provided: Seq<SegmentData>,
) -> bool {
    forall|k: int|
        0 <= k < new_path.len() - 1 ==> (was_adjacent(old_path, #[trigger] new_path[k], new_path[k
            + 1]) || find_segment(gs, new_path[k], new_path[k + 1]) is Some || find_segment(
            provided,
            new_path[k],
            new_path[k + 1],
        ) is Some)
}

/// The segment table after materializing the new path's first `k` hops:
/// pairs that were already adjacent are left alone, every other pair
/// still missing is taken from the provided answers.
pub open spec fn removal_segments(
    gs: Seq<SegmentData>,
    old_path: Seq<u128>,
    new_path: Seq<u128>,
    provided: Seq<SegmentData>,
    k: int,
) -> Seq<SegmentData>
    decreases k,
{
    if k <= 0 {
        gs
    } else {
        let prev = removal_segments(gs, old_path, new_path, provided, k - 1);
        if was_adjacent(old_path, new_path[k - 1], new_path[k]) {
            prev
        } else if find_segment(prev, new_path[k - 1], new_path[k]) is Some {
            prev
        } else {
            prev.push(find_segment(provided, new_path[k - 1], new_path[k])->Some_0)
        }
    }
}

/// Materializing removal segments never hides an entry already there.
pub proof fn lemma_removal_segments_preserves(
    gs: Seq<SegmentData>,
    old_path: Seq<u128>,
    new_path: Seq<u128>,
    provided: Seq<SegmentData>,
    k: int,
    s1: u128,
    s2: u128,
)
    requires
        find_segment(gs, s1, s2) is Some,
    ensures
        find_segment(removal_segments(gs, old_path, new_path, provided, k), s1, s2)
            == find_segment(gs, s1, s2),
    decreases k,
{
    if k > 0 {
        lemma_removal_segments_preserves(gs, old_path, new_path, provided, k - 1, s1, s2);
        let prev = removal_segments(gs, old_path, new_path, provided, k - 1);
        if !was_adjacent(old_path, new_path[k - 1], new_path[k]) && find_segment(
            prev,
            new_path[k - 1],
            new_path[k],
        ) is None {
            lemma_find_segment_push(
                prev,
                find_segment(provided, new_path[k - 1], new_path[k])->Some_0,
                s1,
                s2,
            );
        }
    }
}

/// The requests after the removal: each one named in the batch no
/// longer references any trip, every other request is untouched.
pub open spec fn clear_trip(rs: Seq<CargoRequest>, rids: Seq<u128>) -> Seq<CargoRequest> {
    Seq::new(
        rs.len(),
        |i: int|
            if rids.contains(rs[i].id) {
                CargoRequest { trip_id: None, ..rs[i] }
            } else {
                rs[i]
            },
    )
}

/// Index of the first trip with the given id.
pub open spec fn find_trip_idx(ts: Seq<TripData>, id: u128) -> int
    decreases ts.len(),
{
    if ts.len() == 0 {
        0
    } else if ts[0].id == id {
        0
    } else {
        1 + find_trip_idx(ts.drop_first(), id)
    }
}

/// When the id is present, its index locates the found trip.
pub proof fn lemma_find_trip_idx(ts: Seq<TripData>, id: u128)
    requires
        find_trip(ts, id) is Some,
    ensures
        0 <= find_trip_idx(ts, id) < ts.len(),
        ts[find_trip_idx(ts, id)] == find_trip(ts, id)->Some_0,
        ts[find_trip_idx(ts, id)].id == id,
        forall|k: int| 0 <= k < find_trip_idx(ts, id) ==> (#[trigger] ts[k]).id != id,
    decreases ts.len(),
{
    if ts.len() > 0 && ts[0].id != id {
        lemma_find_trip_idx(ts.drop_first(), id);
        assert forall|k: int| 0 <= k < find_trip_idx(ts, id) implies (#[trigger] ts[k]).id != id by {
            if k > 0 {
                assert(ts[k] == ts.drop_first()[k - 1]);
            }
        }
    }
}

/// Whether the pair stands adjacent in the path.
fn adjacent_in(v: &Vec<u128>, s1: u128, s2: u128) -> (r: bool)
    ensures
        r == was_adjacent(v@, s1, s2),
{
    let n = v.len();
    if n < 2 {
        proof {
            if was_adjacent(v@, s1, s2) {
                let w = choose|w: int| 0 <= w < v@.len() - 1 && #[trigger] v@[w] == s1 && v@[w + 1] == s2;
            }
        }
        return false;
    }
    let mut i: usize = 0;
    while i < n - 1
        invariant
            0 <= i <= n - 1,
            n == v.len(),
            n >= 2,
            forall|k: int| 0 <= k < i ==> !(v@[k] == s1 && #[trigger] v@[k + 1] == s2),
        decreases n - i,
    {
        if v[i] == s1 && v[i + 1] == s2 {
            return true;
        }
        i = i + 1;
    }
    proof {
        if was_adjacent(v@, s1, s2) {
            let w = choose|w: int| 0 <= w < v@.len() - 1 && #[trigger] v@[w] == s1 && v@[w + 1] == s2;
            assert(!(v@[w] == s1 && v@[w + 1] == s2));
        }
    }
    false
}

/// Take the batch of cargo requests out of the trip, in place.
///
/// On success the trip keeps its identity but its path loses every
/// station the requests contributed, renumbered contiguously; each pair
/// made newly adjacent gains a cached segment (missing ones taken from
/// `provided`); and each removed request no longer references the trip.
/// On failure the store is unchanged: a missing trip or request answers
/// `NotFound`; a request not attached to the trip, or a remainder of
/// fewer than two stations, `InvalidOperation`; an uncovered newly
/// adjacent pair `GeometryProviderError`.
#[verifier::loop_isolation(false)]
#[verifier::rlimit(60)]
pub fn remove_requests(
    state: &mut State,
    trip_id: u128,
    request_ids: &Vec<u128>,
    provided: &Vec<Segment>,
) -> (r: Result<RemoveStationsResponse, Error>)
    requires
        old(state).wf(),
    ensures
        final(state).wf(),
        match r {
            Ok(resp) => {
                &&& resp.route_id == trip_id
                &&& find_trip(old(state)@.trips, trip_id) is Some
                &&& requests_found(old(state)@, request_ids@)
                &&& requests_attached(old(state)@, request_ids@, trip_id)
                &&& resp.graph@ == removed_path(
                    trip_path(old(state)@, trip_id),
                    removal_ids(old(state)@, request_ids@),
                )
                &&& resp.graph@.len() >= 2
                &&& removal_covers(
                    old(state)@.segments,
                    trip_path(old(state)@, trip_id),
                    resp.graph@,
                    provided_view(provided@),
                )
                &&& final(state)@.trips == old(state)@.trips.update(
                    find_trip_idx(old(state)@.trips, trip_id),
                    TripData { id: trip_id, path: resp.graph@ },
                )
                &&& final(state)@.stations == old(state)@.stations
                &&& final(state)@.requests == clear_trip(old(state)@.requests, request_ids@)
                &&& final(state)@.segments == removal_segments(
                    old(state)@.segments,
                    trip_path(old(state)@, trip_id),
                    resp.graph@,
                    provided_view(provided@),
                    resp.graph@.len() - 1,
                )
            },
            Err(e) => {
                &&& final(state)@ == old(state)@
                &&& (e == Error::NotFound <==> (find_trip(old(state)@.trips, trip_id) is None
                    || !requests_found(old(state)@, request_ids@)))
                &&& (e == Error::InvalidOperation <==> (find_trip(old(state)@.trips, trip_id)
                    is Some && requests_found(old(state)@, request_ids@) && (!requests_attached(
                    old(state)@,
                    request_ids@,
                    trip_id,
                ) || removed_path(
                    trip_path(old(state)@, trip_id),
                    removal_ids(old(state)@, request_ids@),
                ).len() < 2)))
                &&& (e == Error::GeometryProviderError <==> (find_trip(
                    old(state)@.trips,
                    trip_id,
                ) is Some && requests_found(old(state)@, request_ids@) && requests_attached(
                    old(state)@,
                    request_ids@,
                    trip_id,
                ) && removed_path(
                    trip_path(old(state)@, trip_id),
                    removal_ids(old(state)@, request_ids@),
                ).len() >= 2 && !removal_covers(
                    old(state)@.segments,
                    trip_path(old(state)@, trip_id),
                    removed_path(
                        trip_path(old(state)@, trip_id),
                        removal_ids(old(state)@, request_ids@),
                    ),
                    provided_view(provided@),
                )))
                &&& (e == Error::NotFound || e == Error::InvalidOperation || e
                    == Error::GeometryProviderError)
            },
        },
{
    let ghost st0 = state@;
    // Load the trip's current path.
    let old_path: Vec<u128> = match state.find_trip(trip_id) {
        None => {
            return Err(Error::NotFound);
        },
        Some(t) => copy_ids(&t.path),
    };
    // Resolve every request first: each must exist.
    let m = request_ids.len();
    let mut reqs: Vec<CargoRequest> = Vec::new();
    let mut qi: usize = 0;
    while qi < m
        invariant
            state@ == st0,
            0 <= qi <= m,
            reqs@.len() == qi,
            forall|k: int|
                0 <= k < qi ==> (#[trigger] find_request(st0.requests, request_ids@[k])) is Some,
            forall|k: int|
                0 <= k < qi ==> reqs@[k] == find_request(
                    st0.requests,
                    #[trigger] request_ids@[k],
                )->Some_0,
        decreases m - qi,
    {
        let rid = request_ids[qi];
        let req = match state.find_request(rid) {
            Some(rr) => rr,
            None => {
                proof {
                    assert(!requests_found(st0, request_ids@)) by {
                        if requests_found(st0, request_ids@) {
                            assert(find_request(st0.requests, request_ids@[qi as int]) is Some);
                        }
                    }
                }
                return Err(Error::NotFound);
            },
        };
        reqs.push(req);
        qi = qi + 1;
    }
    // Each must be attached to the trip; collect its two stations.
    let mut removal: Vec<u128> = Vec::new();
    let mut ai: usize = 0;
    proof {
        assert(removal@ =~= removal_ids(st0, request_ids@).take(0));
    }
    while ai < m
        invariant
            state@ == st0,
            0 <= ai <= m,
            reqs@.len() == m,
            forall|k: int|
                0 <= k < m ==> (#[trigger] find_request(st0.requests, request_ids@[k])) is Some,
            forall|k: int|
                0 <= k < m ==> reqs@[k] == find_request(
                    st0.requests,
                    #[trigger] request_ids@[k],
                )->Some_0,
            removal@ == removal_ids(st0, request_ids@).take(2 * ai as int),
            forall|k: int|
                0 <= k < ai ==> (#[trigger] find_request(
                    st0.requests,
                    request_ids@[k],
                ))->Some_0.trip_id == Some(trip_id),
        decreases m - ai,
    {
        let req = reqs[ai];
        let attached = match req.trip_id {
            Some(x) => x == trip_id,
            None => false,
        };
        if !attached {
            proof {
                assert(!requests_attached(st0, request_ids@, trip_id)) by {
                    if requests_attached(st0, request_ids@, trip_id) {
                        assert(find_request(st0.requests, request_ids@[ai as int])->Some_0.trip_id
                            == Some(trip_id));
                    }
                }
            }
            return Err(Error::InvalidOperation);
        }
        removal.push(req.source);
        removal.push(req.destination);
        proof {
            assert(removal@ =~= removal_ids(st0, request_ids@).take(2 * (ai as int + 1)));
        }
        ai = ai + 1;
    }
    proof {
        assert(removal_ids(st0, request_ids@).take(2 * m as int) =~= removal_ids(
            st0,
            request_ids@,
        ));
    }
    // Filter the path, keeping relative order.
    let ghost rem = removal_ids(st0, request_ids@);
    let mut new_path: Vec<u128> = Vec::new();
    let np = old_path.len();
    let mut pi: usize = 0;
    proof {
        reveal(Seq::filter);
        assert(old_path@.take(0) =~= Seq::<u128>::empty());
        assert(new_path@ =~= removed_path(old_path@.take(0), rem));
    }
    while pi < np
        invariant
            state@ == st0,
            0 <= pi <= np,
            np == old_path.len(),
            removal@ == rem,
            new_path@ == removed_path(old_path@.take(pi as int), rem),
        decreases np - pi,
    {
        proof {
            reveal(Seq::filter);
            assert(old_path@.take(pi as int + 1).drop_last() =~= old_path@.take(pi as int));
            assert(old_path@.take(pi as int + 1).last() == old_path@[pi as int]);
        }
        if !ids_contain(&removal, old_path[pi]) {
            new_path.push(old_path[pi]);
        }
        pi = pi + 1;
    }
    proof {
        assert(old_path@.take(np as int) =~= old_path@);
    }
    if new_path.len() < 2 {
        return Err(Error::InvalidOperation);
    }
    // Every newly adjacent pair must have a segment available.
    let ghost pv = provided_view(provided@);
    let n2 = new_path.len();
    let mut k: usize = 0;
    while k < n2 - 1
        invariant
            state@ == st0,
            n2 == new_path.len(),
            n2 >= 2,
            0 <= k <= n2 - 1,
            forall|j: int|
                0 <= j < k ==> (was_adjacent(old_path@, #[trigger] new_path@[j], new_path@[j + 1])
                    || find_segment(st0.segments, new_path@[j], new_path@[j + 1]) is Some
                    || find_segment(pv, new_path@[j], new_path@[j + 1]) is Some),
        decreases n2 - k,
    {
        if !adjacent_in(&old_path, new_path[k], new_path[k + 1]) {
            if !state.has_segment(new_path[k], new_path[k + 1]) {
                if find_segment_in(provided, new_path[k], new_path[k + 1]).is_none() {
                    proof {
                        assert(!removal_covers(st0.segments, old_path@, new_path@, pv)) by {
                            if removal_covers(st0.segments, old_path@, new_path@, pv) {
                                assert(was_adjacent(
                                    old_path@,
                                    new_path@[k as int],
                                    new_path@[k as int + 1],
                                ) || find_segment(
                                    st0.segments,
                                    new_path@[k as int],
                                    new_path@[k as int + 1],
                                ) is Some || find_segment(
                                    pv,
                                    new_path@[k as int],
                                    new_path@[k as int + 1],
                                ) is Some);
                            }
                        }
                    }
                    return Err(Error::GeometryProviderError);
                }
            }
        }
        k = k + 1;
    }
    // Commit: the trip's path in place, the missing segments, the
    // request links.
    let ti = {
        let tn = state.trips.len();
        let mut i: usize = 0;
        proof {
            lemma_find_trip_idx(st0.trips, trip_id);
        }
        let mut found: usize = 0;
        let mut have: bool = false;
        while i < tn
            invariant
                state@ == st0,
                tn == state.trips.len(),
                0 <= i <= tn,
                !have ==> forall|j: int| 0 <= j < i ==> (#[trigger] st0.trips[j]).id != trip_id,
                have ==> (found < i && st0.trips[found as int].id == trip_id && forall|j: int|
                    0 <= j < found ==> (#[trigger] st0.trips[j]).id != trip_id),
            decreases tn - i,
        {
            if !have && state.trips[i].id == trip_id {
                found = i;
                have = true;
            }
            i = i + 1;
        }
        proof {
            if !have {
                assert(st0.trips[find_trip_idx(st0.trips, trip_id)].id == trip_id);
                assert(false);
            }
            assert(found as int == find_trip_idx(st0.trips, trip_id)) by {
                let fi = find_trip_idx(st0.trips, trip_id);
                if fi < found {
                    assert(st0.trips[fi].id != trip_id);
                } else if found < fi {
                    assert(st0.trips[found as int].id != trip_id);
                }
            }
        }
        found
    };
    let graph = copy_ids(&new_path);
    state.trips.set(ti, Trip { id: trip_id, path: new_path });
    proof {
        assert(state@.trips =~~= st0.trips.update(
            find_trip_idx(st0.trips, trip_id),
            TripData { id: trip_id, path: graph@ },
        ));
        assert(state@.stations == st0.stations);
        assert(state@.requests == st0.requests);
        assert(state@.segments == st0.segments);
        assert(state.wf()) by {
            assert(forall|j: int|
                0 <= j < state@.trips.len() ==> (#[trigger] state@.trips[j]).id
                    == st0.trips[j].id);
        }
    }
    let ghost committed_trips = state@.trips;
    let mut k2: usize = 0;
    while k2 < n2 - 1
        invariant
            state.wf(),
            n2 == graph.len(),
            0 <= k2 <= n2 - 1,
            state@.trips == committed_trips,
            state@.stations == st0.stations,
            state@.requests == st0.requests,
            state@.segments == removal_segments(st0.segments, old_path@, graph@, pv, k2 as int),
        decreases n2 - k2,
    {
        if !adjacent_in(&old_path, graph[k2], graph[k2 + 1]) {
            if !state.has_segment(graph[k2], graph[k2 + 1]) {
                match find_segment_in(provided, graph[k2], graph[k2 + 1]) {
                    Some(pseg) => {
                        let seg = Segment {
                            s1: pseg.s1,
                            s2: pseg.s2,
                            points: crate::model::copy_coords(&pseg.points),
                            distance: pseg.distance,
                            time: pseg.time,
                        };
                        proof {
                            lemma_find_segment_some(
                                pv,
                                graph@[k2 as int],
                                graph@[k2 as int + 1],
                            );
                            assert(seg@ =~= pseg@);
                        }
                        state.store_segment(seg);
                    },
                    None => {
                        proof {
                            if find_segment(st0.segments, graph@[k2 as int], graph@[k2 as int + 1])
                                is Some {
                                lemma_removal_segments_preserves(
                                    st0.segments,
                                    old_path@,
                                    graph@,
                                    pv,
                                    k2 as int,
                                    graph@[k2 as int],
                                    graph@[k2 as int + 1],
                                );
                            }
                            assert(find_segment(pv, graph@[k2 as int], graph@[k2 as int + 1])
                                is Some);
                            assert(false);
                        }
                    },
                }
            }
        }
        k2 = k2 + 1;
    }
    // Clear the trip reference on each removed request.
    let ghost committed_segments = state@.segments;
    let rn = state.requests.len();
    let mut ri: usize = 0;
    while ri < rn
        invariant
            rn == state.requests.len(),
            0 <= ri <= rn,
            state@.trips == committed_trips,
            state@.stations == st0.stations,
            state@.segments == committed_segments,
            state@.requests.len() == st0.requests.len(),
            forall|j: int|
                0 <= j < ri ==> state@.requests[j] == clear_trip(st0.requests, request_ids@)[j],
            forall|j: int| ri <= j < rn ==> state@.requests[j] == st0.requests[j],
        decreases rn - ri,
    {
        if ids_contain(request_ids, state.requests[ri].id) {
            let mut cr = state.requests[ri];
            cr.trip_id = None;
            state.requests.set(ri, cr);
        }
        ri = ri + 1;
    }
    proof {
        assert(state@.requests =~= clear_trip(st0.requests, request_ids@));
        assert(state.wf()) by {
            assert(forall|i: int|
                0 <= i < state@.requests.len() ==> (#[trigger] state@.requests[i]).id
                    == st0.requests[i].id);
        }
    }
    Ok(RemoveStationsResponse { route_id: trip_id, graph })
}


/// The hops of the new path whose segment must be fetched: pairs made
/// newly adjacent by the removal that the cache misses, among the
/// first `k`, with the coordinates the provider needs.  Each ordered
/// pair is listed once, however often it occurs, so the provider is
/// asked once per pair.
pub open spec fn removal_missing(
    st: StateData,
    old_path: Seq<u128>,
    new_path: Seq<u128>,
    k: int,
) -> Seq<SegmentRequest>
    decreases k,
{
    if k <= 0 {
        Seq::empty()
    } else {
        let prev = removal_missing(st, old_path, new_path, k - 1);
        if was_adjacent(old_path, new_path[k - 1], new_path[k]) {
            prev
        } else if find_segment(st.segments, new_path[k - 1], new_path[k]) is Some {
            prev
        } else if hop_listed(prev, new_path[k - 1], new_path[k]) {
            prev
        } else {
            prev.push(
                SegmentRequest {
                    s1: new_path[k - 1],
                    s2: new_path[k],
                    from: station_at(st.stations, new_path[k - 1]).coords,
                    to: station_at(st.stations, new_path[k]).coords,
                },
            )
        }
    }
}

/// Plan a removal without committing anything: the trip's new station
/// sequence and, for every pair made newly adjacent whose segment the
/// cache misses, the ordered pair and coordinates to ask the geometry
/// provider for.  Failures are those of [`remove_requests`] that do
/// not depend on the provider, plus `NotFound` when a remaining
/// station cannot be resolved.
#[verifier::loop_isolation(false)]
pub fn removal_preview(state: &State, trip_id: u128, request_ids: &Vec<u128>) -> (r: Result<
    (Vec<u128>, Vec<SegmentRequest>),
    Error,
>)
    requires
        state.wf(),
    ensures
        match r {
            Ok((graph, missing)) => {
                &&& find_trip(state@.trips, trip_id) is Some
                &&& requests_found(state@, request_ids@)
                &&& requests_attached(state@, request_ids@, trip_id)
                &&& graph@ == removed_path(
                    trip_path(state@, trip_id),
                    removal_ids(state@, request_ids@),
                )
                &&& graph@.len() >= 2
                &&& all_stations_found(state@.stations, graph@)
                &&& missing@ == removal_missing(
                    state@,
                    trip_path(state@, trip_id),
                    graph@,
                    graph@.len() - 1,
                )
            },
            Err(e) => {
                &&& (e == Error::NotFound <==> (find_trip(state@.trips, trip_id) is None
                    || !requests_found(state@, request_ids@) || (requests_found(
                    state@,
                    request_ids@,
                ) && requests_attached(state@, request_ids@, trip_id) && removed_path(
                    trip_path(state@, trip_id),
                    removal_ids(state@, request_ids@),
                ).len() >= 2 && !all_stations_found(
                    state@.stations,
                    removed_path(trip_path(state@, trip_id), removal_ids(state@, request_ids@)),
                ))))
                &&& (e == Error::InvalidOperation <==> (find_trip(state@.trips, trip_id) is Some
                    && requests_found(state@, request_ids@) && (!requests_attached(
                    state@,
                    request_ids@,
                    trip_id,
                ) || removed_path(
                    trip_path(state@, trip_id),
                    removal_ids(state@, request_ids@),
                ).len() < 2)))
                &&& (e == Error::NotFound || e == Error::InvalidOperation)
            },
        },
{
    let ghost st0 = state@;
    let old_path: Vec<u128> = match state.find_trip(trip_id) {
        None => {
            return Err(Error::NotFound);
        },
        Some(t) => copy_ids(&t.path),
    };
    let m = request_ids.len();
    let mut reqs: Vec<CargoRequest> = Vec::new();
    let mut qi: usize = 0;
    while qi < m
        invariant
            0 <= qi <= m,
            reqs@.len() == qi,
            forall|k: int|
                0 <= k < qi ==> (#[trigger] find_request(st0.requests, request_ids@[k])) is Some,
            forall|k: int|
                0 <= k < qi ==> reqs@[k] == find_request(
                    st0.requests,
                    #[trigger] request_ids@[k],
                )->Some_0,
        decreases m - qi,
    {
        let rid = request_ids[qi];
        let req = match state.find_request(rid) {
            Some(rr) => rr,
            None => {
                proof {
                    assert(!requests_found(st0, request_ids@)) by {
                        if requests_found(st0, request_ids@) {
                            assert(find_request(st0.requests, request_ids@[qi as int]) is Some);
                        }
                    }
                }
                return Err(Error::NotFound);
            },
        };
        reqs.push(req);
        qi = qi + 1;
    }
    let mut removal: Vec<u128> = Vec::new();
    let mut ai: usize = 0;
    proof {
        assert(removal@ =~= removal_ids(st0, request_ids@).take(0));
    }
    while ai < m
        invariant
            0 <= ai <= m,
            reqs@.len() == m,
            forall|k: int|
                0 <= k < m ==> reqs@[k] == find_request(
                    st0.requests,
                    #[trigger] request_ids@[k],
                )->Some_0,
            removal@ == removal_ids(st0, request_ids@).take(2 * ai as int),
            forall|k: int|
                0 <= k < ai ==> (#[trigger] find_request(
                    st0.requests,
                    request_ids@[k],
                ))->Some_0.trip_id == Some(trip_id),
        decreases m - ai,
    {
        let req = reqs[ai];
        let attached = match req.trip_id {
            Some(x) => x == trip_id,
            None => false,
        };
        if !attached {
            proof {
                assert(!requests_attached(st0, request_ids@, trip_id)) by {
                    if requests_attached(st0, request_ids@, trip_id) {
                        assert(find_request(st0.requests, request_ids@[ai as int])->Some_0.trip_id
                            == Some(trip_id));
                    }
                }
            }
            return Err(Error::InvalidOperation);
        }
        removal.push(req.source);
        removal.push(req.destination);
        proof {
            assert(removal@ =~= removal_ids(st0, request_ids@).take(2 * (ai as int + 1)));
        }
        ai = ai + 1;
    }
    proof {
        assert(removal_ids(st0, request_ids@).take(2 * m as int) =~= removal_ids(
            st0,
            request_ids@,
        ));
    }
    let ghost rem = removal_ids(st0, request_ids@);
    let mut new_path: Vec<u128> = Vec::new();
    let np = old_path.len();
    let mut pi: usize = 0;
    proof {
        reveal(Seq::filter);
        assert(old_path@.take(0) =~= Seq::<u128>::empty());
        assert(new_path@ =~= removed_path(old_path@.take(0), rem));
    }
    while pi < np
        invariant
            0 <= pi <= np,
            np == old_path.len(),
            removal@ == rem,
            new_path@ == removed_path(old_path@.take(pi as int), rem),
        decreases np - pi,
    {
        proof {
            reveal(Seq::filter);
            assert(old_path@.take(pi as int + 1).drop_last() =~= old_path@.take(pi as int));
            assert(old_path@.take(pi as int + 1).last() == old_path@[pi as int]);
        }
        if !ids_contain(&removal, old_path[pi]) {
            new_path.push(old_path[pi]);
        }
        pi = pi + 1;
    }
    proof {
        assert(old_path@.take(np as int) =~= old_path@);
    }
    if new_path.len() < 2 {
        return Err(Error::InvalidOperation);
    }
    let coords: Vec<crate::geo::Coords> = match state.resolve_coords(&new_path) {
        None => {
            return Err(Error::NotFound);
        },
        Some(cs) => cs,
    };
    let mut missing: Vec<SegmentRequest> = Vec::new();
    let n2 = new_path.len();
    let mut k: usize = 0;
    proof {
        assert(missing@ =~= removal_missing(st0, old_path@, new_path@, 0));
    }
    while k < n2 - 1
        invariant
            0 <= k <= n2 - 1,
            n2 == new_path.len(),
            n2 >= 2,
            coords@ == path_coords(st0.stations, new_path@),
            missing@ == removal_missing(st0, old_path@, new_path@, k as int),
        decreases n2 - k,
    {
        if !adjacent_in(&old_path, new_path[k], new_path[k + 1]) {
            if !state.has_segment(new_path[k], new_path[k + 1]) {
                if !hops_contain(&missing, new_path[k], new_path[k + 1]) {
                    missing.push(
                        SegmentRequest {
                            s1: new_path[k],
                            s2: new_path[k + 1],
                            from: coords[k],
                            to: coords[k + 1],
                        },
                    );
                }
            }
        }
        k = k + 1;
    }
    Ok((new_path, missing))
}

} // verus!
