//! The merge coordinator: absorb a batch of cargo requests into a trip.
//!
//! Each request is planned in the given order against the working path as
//! left by the previous request, and its pickup and drop-off stations are
//! spliced in at the planned positions.  A new trip identity is minted
//! for the merged path; the old trip stays behind, superseded.  Every
//! newly adjacent station pair must have a cached segment: the caller
//! passes the geometry provider's answers for the pairs that the cache
//! misses, and a missing answer aborts the whole merge.  Nothing is
//! committed unless every step succeeds.

use vstd::prelude::*;

use crate::Error;
use crate::geo::Coords;
use crate::geo::valid_coords_seq;
use crate::model::CargoRequest;
use crate::model::Segment;
use crate::model::SegmentData;
use crate::model::State;
use crate::model::StateData;
use crate::model::Trip;
use crate::model::TripData;
use crate::model::all_stations_found;
use crate::model::copy_coords;
use crate::model::copy_ids;
use crate::model::find_request;
use crate::model::find_segment;
use crate::model::find_segment_in;
use crate::model::find_station;
use crate::model::find_trip;
use crate::model::fresh_route_id;
use crate::model::ids_contain;
use crate::model::lemma_find_segment_push;
use crate::model::lemma_find_trip_none;
use crate::model::lemma_station_at_valid;
use crate::model::path_coords;
use crate::model::station_at;
use crate::planner::dst_insert_pos;
use crate::planner::law_insertion_indices_ordered;
use crate::planner::law_merge_preserves_order;
use crate::planner::lemma_double_insert_order;
use crate::planner::merged_path;
use crate::planner::plan_insertion;
use crate::planner::shifted_index;
use crate::planner::src_insert_pos;

verus! {

/// Asks to merge the given cargo requests, in order, into the trip.
#[derive(Debug)]
pub struct MergeRouteRequest {
    pub trip_route_id: u128,
    pub request_routes: Vec<u128>,
}

/// The merged result: the new trip's id and its station sequence.
#[derive(Debug)]
pub struct MergeResponse {
    pub route_id: u128,
    pub graph: Vec<u128>,
}

/// Mathematical values of a list of segments.
pub open spec fn provided_view(p: Seq<Segment>) -> Seq<SegmentData> {
    p.map_values(|g: Segment| g@)
}

/// The path of the trip found under the id.
pub open spec fn trip_path(st: StateData, tid: u128) -> Seq<u128> {
    find_trip(st.trips, tid)->Some_0.path
}

/// The pickup and drop-off of one request, as station ids with their
/// coordinates.
#[verifier::ext_equal]
pub ghost struct ReqPoints {
    pub src_id: u128,
    pub src: Coords,
    pub dst_id: u128,
    pub dst: Coords,
}

/// Every request id resolves, and so do its two stations.
pub open spec fn requests_resolvable(st: StateData, rids: Seq<u128>) -> bool {
    forall|i: int|
        0 <= i < rids.len() ==> {
            &&& (#[trigger] find_request(st.requests, rids[i])) is Some
            &&& find_station(st.stations, find_request(st.requests, rids[i])->Some_0.source)
                is Some
            &&& find_station(st.stations, find_request(st.requests, rids[i])->Some_0.destination)
                is Some
        }
}

/// The pickup and drop-off points of the request found under `rid`.
pub open spec fn req_points(st: StateData, rid: u128) -> ReqPoints {
    let req = find_request(st.requests, rid)->Some_0;
    ReqPoints {
        src_id: req.source,
        src: station_at(st.stations, req.source).coords,
        dst_id: req.destination,
        dst: station_at(st.stations, req.destination).coords,
    }
}

/// The points of each request in the batch, in batch order.
pub open spec fn batch_points(st: StateData, rids: Seq<u128>) -> Seq<ReqPoints> {
    Seq::new(rids.len(), |i: int| req_points(st, rids[i]))
}

/// One merge step on the id sequence: splice the request's stations in
/// at the positions the planner picks on the coordinate sequence.
pub open spec fn merge_step_ids(ids: Seq<u128>, cs: Seq<Coords>, q: ReqPoints) -> Seq<u128> {
    ids.insert(src_insert_pos(cs, q.src), q.src_id).insert(
        dst_insert_pos(cs, q.src, q.dst),
        q.dst_id,
    )
}

/// One merge step on the coordinate sequence.
pub open spec fn merge_step_coords(cs: Seq<Coords>, q: ReqPoints) -> Seq<Coords> {
    merged_path(cs, q.src, q.dst)
}

/// The id sequence after merging a batch of requests, first to last.
pub open spec fn merge_fold_ids(ids: Seq<u128>, cs: Seq<Coords>, qs: Seq<ReqPoints>) -> Seq<u128>
    decreases qs.len(),
{
    if qs.len() == 0 {
        ids
    } else {
        merge_fold_ids(
            merge_step_ids(ids, cs, qs[0]),
            merge_step_coords(cs, qs[0]),
            qs.drop_first(),
        )
    }
}

/// The coordinate sequence after merging a batch of requests.
pub open spec fn merge_fold_coords(cs: Seq<Coords>, qs: Seq<ReqPoints>) -> Seq<Coords>
    decreases qs.len(),
{
    if qs.len() == 0 {
        cs
    } else {
        merge_fold_coords(merge_step_coords(cs, qs[0]), qs.drop_first())
    }
}

/// Folding one more request merges it into the folded state of the
/// batch so far.
pub proof fn lemma_merge_fold_push(
    ids: Seq<u128>,
    cs: Seq<Coords>,
    qs: Seq<ReqPoints>,
    q: ReqPoints,
)
    ensures
        merge_fold_ids(ids, cs, qs.push(q)) == merge_step_ids(
            merge_fold_ids(ids, cs, qs),
            merge_fold_coords(cs, qs),
            q,
        ),
        merge_fold_coords(cs, qs.push(q)) == merge_step_coords(merge_fold_coords(cs, qs), q),
    decreases qs.len(),
{
    if qs.len() == 0 {
        assert(qs.push(q)[0] == q);
        assert(qs.push(q).drop_first() =~= Seq::<ReqPoints>::empty());
        let si = merge_step_ids(ids, cs, q);
        let sc = merge_step_coords(cs, q);
        assert(merge_fold_ids(si, sc, Seq::<ReqPoints>::empty()) == si);
        assert(merge_fold_coords(sc, Seq::<ReqPoints>::empty()) == sc);
    } else {
        assert(qs.push(q)[0] == qs[0]);
        assert(qs.push(q).drop_first() =~= qs.drop_first().push(q));
        lemma_merge_fold_push(
            merge_step_ids(ids, cs, qs[0]),
            merge_step_coords(cs, qs[0]),
            qs.drop_first(),
            q,
        );
    }
}

/// Where an original path index ends up after a whole batch of
/// insertions, applied first to last.
pub open spec fn batch_shifted_index(k: int, cs: Seq<Coords>, qs: Seq<ReqPoints>) -> int
    decreases qs.len(),
{
    if qs.len() == 0 {
        k
    } else {
        batch_shifted_index(
            shifted_index(
                k,
                src_insert_pos(cs, qs[0].src),
                dst_insert_pos(cs, qs[0].src, qs[0].dst),
            ),
            merge_step_coords(cs, qs[0]),
            qs.drop_first(),
        )
    }
}

/// Merging a whole batch preserves the relative order of the stations
/// already in the path: every original entry reappears at its
/// batch-shifted index, and the batch-shifted indices keep the
/// original order.  New stations are only spliced in; none of the old
/// ones is reordered or removed.
pub proof fn law_batch_merge_preserves_order(ids: Seq<u128>, cs: Seq<Coords>, qs: Seq<ReqPoints>)
    requires
        ids.len() == cs.len(),
        cs.len() >= 2,
    ensures
        merge_fold_ids(ids, cs, qs).len() == ids.len() + 2 * qs.len(),
        forall|k: int|
            0 <= k < ids.len() ==> 0 <= #[trigger] batch_shifted_index(k, cs, qs) < ids.len() + 2
                * qs.len() && merge_fold_ids(ids, cs, qs)[batch_shifted_index(k, cs, qs)]
                == ids[k],
        forall|i: int, j: int|
            0 <= i < j < ids.len() ==> batch_shifted_index(i, cs, qs) < batch_shifted_index(
                j,
                cs,
                qs,
            ),
    decreases qs.len(),
{
    if qs.len() > 0 {
        let sp = src_insert_pos(cs, qs[0].src);
        let dp = dst_insert_pos(cs, qs[0].src, qs[0].dst);
        let ids2 = merge_step_ids(ids, cs, qs[0]);
        let cs2 = merge_step_coords(cs, qs[0]);
        law_insertion_indices_ordered(cs, qs[0].src, qs[0].dst);
        lemma_double_insert_order(ids, sp, dp, qs[0].src_id, qs[0].dst_id);
        law_merge_preserves_order(cs, qs[0].src, qs[0].dst);
        assert(ids2.len() == cs2.len());
        law_batch_merge_preserves_order(ids2, cs2, qs.drop_first());
        assert forall|k: int|
            0 <= k < ids.len() implies 0 <= #[trigger] batch_shifted_index(k, cs, qs) < ids.len()
            + 2 * qs.len() && merge_fold_ids(ids, cs, qs)[batch_shifted_index(k, cs, qs)]
            == ids[k] by {
            let k1 = shifted_index(k, sp, dp);
            assert(ids2[k1] == ids[k]);
            assert(batch_shifted_index(k, cs, qs) == batch_shifted_index(
                k1,
                cs2,
                qs.drop_first(),
            ));
        }
        assert forall|i: int, j: int|
            0 <= i < j < ids.len() implies batch_shifted_index(i, cs, qs) < batch_shifted_index(
            j,
            cs,
            qs,
        ) by {
            let i1 = shifted_index(i, sp, dp);
            let j1 = shifted_index(j, sp, dp);
            assert(i1 < j1);
            assert(0 <= i1 < ids2.len());
            assert(0 <= j1 < ids2.len());
            assert(batch_shifted_index(i, cs, qs) == batch_shifted_index(
                i1,
                cs2,
                qs.drop_first(),
            ));
            assert(batch_shifted_index(j, cs, qs) == batch_shifted_index(
                j1,
                cs2,
                qs.drop_first(),
            ));
        }
    }
}

/// The merged station sequence of a trip and a batch of requests.
pub open spec fn merged_ids(st: StateData, tid: u128, rids: Seq<u128>) -> Seq<u128> {
    merge_fold_ids(
        trip_path(st, tid),
        path_coords(st.stations, trip_path(st, tid)),
        batch_points(st, rids),
    )
}

/// Order preservation for a whole merge: in the merged station
/// sequence every successful merge commits, the stations of the trip's
/// original path keep their relative order — each reappears at its
/// batch-shifted index, none is reordered or removed.
pub proof fn law_merge_routes_preserves_order(st: StateData, tid: u128, rids: Seq<u128>)
    requires
        trip_path(st, tid).len() >= 2,
    ensures
        merged_ids(st, tid, rids).len() == trip_path(st, tid).len() + 2 * rids.len(),
        forall|k: int|
            0 <= k < trip_path(st, tid).len() ==> 0 <= #[trigger] batch_shifted_index(
                k,
                path_coords(st.stations, trip_path(st, tid)),
                batch_points(st, rids),
            ) < merged_ids(st, tid, rids).len() && merged_ids(st, tid, rids)[batch_shifted_index(
                k,
                path_coords(st.stations, trip_path(st, tid)),
                batch_points(st, rids),
            )] == trip_path(st, tid)[k],
        forall|i: int, j: int|
            0 <= i < j < trip_path(st, tid).len() ==> batch_shifted_index(
                i,
                path_coords(st.stations, trip_path(st, tid)),
                batch_points(st, rids),
            ) < batch_shifted_index(
                j,
                path_coords(st.stations, trip_path(st, tid)),
                batch_points(st, rids),
            ),
{
    law_batch_merge_preserves_order(
        trip_path(st, tid),
        path_coords(st.stations, trip_path(st, tid)),
        batch_points(st, rids),
    );
}

/// Every adjacent pair of the merged sequence has a segment, either
/// already cached or among the provided answers.
pub open spec fn provider_covers(
    gs: Seq<SegmentData>,
    mids: Seq<u128>,
    provided: Seq<SegmentData>,
) -> bool {
    forall|k: int|
        0 <= k < mids.len() - 1 ==> ((#[trigger] find_segment(gs, mids[k], mids[k + 1])) is Some
            || find_segment(provided, mids[k], mids[k + 1]) is Some)
}

/// The segment table after materializing the merged sequence's first
/// `k` hops: each pair still missing is taken from the provided answers.
pub open spec fn segments_after(
    gs: Seq<SegmentData>,
    mids: Seq<u128>,
    provided: Seq<SegmentData>,
    k: int,
) -> Seq<SegmentData>
    decreases k,
{
    if k <= 0 {
        gs
    } else {
        let prev = segments_after(gs, mids, provided, k - 1);
        if find_segment(prev, mids[k - 1], mids[k]) is Some {
            prev
        } else {
            prev.push(find_segment(provided, mids[k - 1], mids[k])->Some_0)
        }
    }
}

/// Materializing segments never hides an entry that was already there.
pub proof fn lemma_segments_after_preserves(
    gs: Seq<SegmentData>,
    mids: Seq<u128>,
    provided: Seq<SegmentData>,
    k: int,
    s1: u128,
    s2: u128,
)
    requires
        find_segment(gs, s1, s2) is Some,
    ensures
        find_segment(segments_after(gs, mids, provided, k), s1, s2) == find_segment(gs, s1, s2),
    decreases k,
{
    if k > 0 {
        lemma_segments_after_preserves(gs, mids, provided, k - 1, s1, s2);
        let prev = segments_after(gs, mids, provided, k - 1);
        if find_segment(prev, mids[k - 1], mids[k]) is None {
            lemma_find_segment_push(
                prev,
                find_segment(provided, mids[k - 1], mids[k])->Some_0,
                s1,
                s2,
            );
        }
    }
}

/// The requests after the merge: each one named in the batch now points
/// at the new trip, every other request is untouched.
pub open spec fn assign_trip(rs: Seq<CargoRequest>, rids: Seq<u128>, tid: u128) -> Seq<
    CargoRequest,
> {
    Seq::new(
        rs.len(),
        |i: int|
            if rids.contains(rs[i].id) {
                CargoRequest { trip_id: Some(tid), ..rs[i] }
            } else {
                rs[i]
            },
    )
}

/// Merge the batch of cargo requests into the trip, in the given
/// order, committing the merged path under the given new trip id.
///
/// On success the new trip is persisted under `new_id` with the merged
/// station sequence as its path, every newly adjacent pair's segment is
/// cached (missing ones taken from `provided`), and each merged
/// request now references the new trip.  On failure the store is
/// unchanged: a missing trip or request answers `NotFound`, a trip
/// with fewer than two stations `InvalidTripState`, a hop that neither
/// the cache nor `provided` covers `GeometryProviderError`, and an id
/// already naming a trip `PersistenceError` — exactly as the store's
/// unique constraint would refuse it.
#[verifier::loop_isolation(false)]
pub fn merge_commit(
    state: &mut State,
    rq: &MergeRouteRequest,
    provided: &Vec<Segment>,
    new_id: u128,
) -> (r: Result<MergeResponse, Error>)
    requires
        old(state).wf(),
    ensures
        final(state).wf(),
        match r {
            Ok(resp) => {
                &&& resp.route_id == new_id
                &&& find_trip(old(state)@.trips, rq.trip_route_id) is Some
                &&& trip_path(old(state)@, rq.trip_route_id).len() >= 2
                &&& all_stations_found(
                    old(state)@.stations,
                    trip_path(old(state)@, rq.trip_route_id),
                )
                &&& requests_resolvable(old(state)@, rq.request_routes@)
                &&& resp.graph@ == merged_ids(old(state)@, rq.trip_route_id, rq.request_routes@)
                &&& provider_covers(old(state)@.segments, resp.graph@, provided_view(provided@))
                &&& find_trip(old(state)@.trips, resp.route_id) is None
                &&& final(state)@.trips == old(state)@.trips.push(
                    TripData { id: resp.route_id, path: resp.graph@ },
                )
                &&& final(state)@.stations == old(state)@.stations
                &&& final(state)@.requests == assign_trip(
                    old(state)@.requests,
                    rq.request_routes@,
                    resp.route_id,
                )
                &&& final(state)@.segments == segments_after(
                    old(state)@.segments,
                    resp.graph@,
                    provided_view(provided@),
                    resp.graph@.len() - 1,
                )
            },
            Err(e) => {
                &&& final(state)@ == old(state)@
                &&& (e == Error::NotFound <==> (find_trip(old(state)@.trips, rq.trip_route_id)
                    is None || (trip_path(old(state)@, rq.trip_route_id).len() >= 2 && (
                !all_stations_found(old(state)@.stations, trip_path(old(state)@, rq.trip_route_id))
                    || !requests_resolvable(old(state)@, rq.request_routes@)))))
                &&& (e == Error::InvalidTripState <==> (find_trip(
                    old(state)@.trips,
                    rq.trip_route_id,
                ) is Some && trip_path(old(state)@, rq.trip_route_id).len() < 2))
                &&& (e == Error::GeometryProviderError <==> (find_trip(
                    old(state)@.trips,
                    rq.trip_route_id,
                ) is Some && trip_path(old(state)@, rq.trip_route_id).len() >= 2
                    && all_stations_found(
                    old(state)@.stations,
                    trip_path(old(state)@, rq.trip_route_id),
                ) && requests_resolvable(old(state)@, rq.request_routes@) && !provider_covers(
                    old(state)@.segments,
                    merged_ids(old(state)@, rq.trip_route_id, rq.request_routes@),
                    provided_view(provided@),
                )))
                &&& (e == Error::PersistenceError <==> (find_trip(
                    old(state)@.trips,
                    rq.trip_route_id,
                ) is Some && trip_path(old(state)@, rq.trip_route_id).len() >= 2
                    && all_stations_found(
                    old(state)@.stations,
                    trip_path(old(state)@, rq.trip_route_id),
                ) && requests_resolvable(old(state)@, rq.request_routes@) && provider_covers(
                    old(state)@.segments,
                    merged_ids(old(state)@, rq.trip_route_id, rq.request_routes@),
                    provided_view(provided@),
                ) && find_trip(old(state)@.trips, new_id) is Some))
                &&& (e == Error::NotFound || e == Error::InvalidTripState || e
                    == Error::GeometryProviderError || e == Error::PersistenceError)
            },
        },
{
    let ghost st0 = state@;
    // Load the trip and plan the batch; nothing is committed yet.
    let (ids, _coords) = match plan_batch(state, rq) {
        Ok(pair) => pair,
        Err(e) => {
            return Err(e);
        },
    };
    let ghost mids = ids@;
    let ghost pv = provided_view(provided@);
    // Every hop of the merged sequence must have a segment available.
    let n2 = ids.len();
    let mut k: usize = 0;
    while k < n2 - 1
        invariant
            state.wf(),
            state@ == st0,
            n2 == ids.len(),
            n2 >= 2,
            0 <= k <= n2 - 1,
            mids == ids@,
            pv == provided_view(provided@),
            forall|j: int|
                0 <= j < k ==> ((#[trigger] find_segment(st0.segments, mids[j], mids[j + 1]))
                    is Some || find_segment(pv, mids[j], mids[j + 1]) is Some),
        decreases n2 - k,
    {
        if !state.has_segment(ids[k], ids[k + 1]) {
            if find_segment_in(provided, ids[k], ids[k + 1]).is_none() {
                proof {
                    assert(!provider_covers(st0.segments, mids, pv)) by {
                        if provider_covers(st0.segments, mids, pv) {
                            assert(find_segment(st0.segments, mids[k as int], mids[k as int + 1])
                                is Some || find_segment(pv, mids[k as int], mids[k as int + 1])
                                is Some);
                        }
                    }
                }
                return Err(Error::GeometryProviderError);
            }
        }
        k = k + 1;
    }
    // The new trip identity must be free.
    let nid = new_id;
    if state.find_trip(nid).is_some() {
        return Err(Error::PersistenceError);
    }
    proof {
        lemma_find_trip_none(state@.trips, nid);
    }
    // Commit: the new trip, the missing segments, the request links.
    let graph = copy_ids(&ids);
    state.trips.push(Trip { id: nid, path: ids });
    proof {
        assert(state@.trips =~= st0.trips.push(TripData { id: nid, path: mids }));
        assert(state@.stations == st0.stations);
        assert(state@.requests == st0.requests);
        assert(state@.segments == st0.segments);
    }
    let ghost committed_trips = state@.trips;
    let mut k2: usize = 0;
    while k2 < n2 - 1
        invariant
            state.wf(),
            n2 == graph.len(),
            n2 >= 2,
            0 <= k2 <= n2 - 1,
            mids == graph@,
            pv == provided_view(provided@),
            provider_covers(st0.segments, mids, pv),
            state@.trips == committed_trips,
            state@.stations == st0.stations,
            state@.requests == st0.requests,
            state@.segments == segments_after(st0.segments, mids, pv, k2 as int),
        decreases n2 - k2,
    {
        let ghost segs_pre = state@.segments;
        if !state.has_segment(graph[k2], graph[k2 + 1]) {
            match find_segment_in(provided, graph[k2], graph[k2 + 1]) {
                Some(pseg) => {
                    let seg = Segment {
                        s1: pseg.s1,
                        s2: pseg.s2,
                        points: copy_coords(&pseg.points),
                        distance: pseg.distance,
                        time: pseg.time,
                    };
                    proof {
                        crate::model::lemma_find_segment_some(
                            pv,
                            graph@[k2 as int],
                            graph@[k2 as int + 1],
                        );
                        assert(seg@ =~= pseg@);
                        assert(seg.s1 == graph@[k2 as int] && seg.s2 == graph@[k2 as int + 1]);
                    }
                    state.store_segment(seg);
                },
                None => {
                    proof {
                        // Covered and not cached now means not cached before
                        // either, so the provider answers must hold the pair.
                        if find_segment(st0.segments, mids[k2 as int], mids[k2 as int + 1])
                            is Some {
                            lemma_segments_after_preserves(
                                st0.segments,
                                mids,
                                pv,
                                k2 as int,
                                mids[k2 as int],
                                mids[k2 as int + 1],
                            );
                        }
                        assert(find_segment(pv, mids[k2 as int], mids[k2 as int + 1]) is Some);
                        assert(false);
                    }
                },
            }
        }
        k2 = k2 + 1;
    }
    // Point every merged request at the new trip.
    let ghost committed_segments = state@.segments;
    let rn = state.requests.len();
    let mut ri: usize = 0;
    while ri < rn
        invariant
            rn == state.requests.len(),
            0 <= ri <= rn,
            state@.trips == committed_trips,
            state@.stations == st0.stations,
            state@.segments == committed_segments,
            state@.requests.len() == st0.requests.len(),
            forall|j: int|
                0 <= j < ri ==> state@.requests[j] == assign_trip(
                    st0.requests,
                    rq.request_routes@,
                    nid,
                )[j],
            forall|j: int| ri <= j < rn ==> state@.requests[j] == st0.requests[j],
        decreases rn - ri,
    {
        if ids_contain(&rq.request_routes, state.requests[ri].id) {
            let mut cr = state.requests[ri];
            cr.trip_id = Some(nid);
            state.requests.set(ri, cr);
        }
        ri = ri + 1;
    }
    proof {
        assert(state@.requests =~= assign_trip(st0.requests, rq.request_routes@, nid));
        assert(state.wf()) by {
            assert(forall|i: int|
                0 <= i < state@.requests.len() ==> (#[trigger] state@.requests[i]).id
                    == st0.requests[i].id);
        }
    }
    Ok(MergeResponse { route_id: nid, graph })
}

/// Merge the batch of cargo requests into the trip, in the given
/// order, minting a fresh trip id for the merged result.  A minted id
/// that collides with an existing trip is refused with
/// `PersistenceError`; every other outcome is that of [`merge_commit`]
/// for the minted id.
pub fn merge_routes(state: &mut State, rq: &MergeRouteRequest, provided: &Vec<Segment>) -> (r:
    Result<MergeResponse, Error>)
    requires
        old(state).wf(),
    ensures
        final(state).wf(),
        match r {
            Ok(resp) => {
                &&& find_trip(old(state)@.trips, rq.trip_route_id) is Some
                &&& trip_path(old(state)@, rq.trip_route_id).len() >= 2
                &&& all_stations_found(
                    old(state)@.stations,
                    trip_path(old(state)@, rq.trip_route_id),
                )
                &&& requests_resolvable(old(state)@, rq.request_routes@)
                &&& resp.graph@ == merged_ids(old(state)@, rq.trip_route_id, rq.request_routes@)
                &&& provider_covers(old(state)@.segments, resp.graph@, provided_view(provided@))
                &&& find_trip(old(state)@.trips, resp.route_id) is None
                &&& final(state)@.trips == old(state)@.trips.push(
                    TripData { id: resp.route_id, path: resp.graph@ },
                )
                &&& final(state)@.stations == old(state)@.stations
                &&& final(state)@.requests == assign_trip(
                    old(state)@.requests,
                    rq.request_routes@,
                    resp.route_id,
                )
                &&& final(state)@.segments == segments_after(
                    old(state)@.segments,
                    resp.graph@,
                    provided_view(provided@),
                    resp.graph@.len() - 1,
                )
            },
            Err(e) => {
                &&& final(state)@ == old(state)@
                &&& (e == Error::NotFound <==> (find_trip(old(state)@.trips, rq.trip_route_id)
                    is None || (trip_path(old(state)@, rq.trip_route_id).len() >= 2 && (
                !all_stations_found(old(state)@.stations, trip_path(old(state)@, rq.trip_route_id))
                    || !requests_resolvable(old(state)@, rq.request_routes@)))))
                &&& (e == Error::InvalidTripState <==> (find_trip(
                    old(state)@.trips,
                    rq.trip_route_id,
                ) is Some && trip_path(old(state)@, rq.trip_route_id).len() < 2))
                &&& (e == Error::GeometryProviderError <==> (find_trip(
                    old(state)@.trips,
                    rq.trip_route_id,
                ) is Some && trip_path(old(state)@, rq.trip_route_id).len() >= 2
                    && all_stations_found(
                    old(state)@.stations,
                    trip_path(old(state)@, rq.trip_route_id),
                ) && requests_resolvable(old(state)@, rq.request_routes@) && !provider_covers(
                    old(state)@.segments,
                    merged_ids(old(state)@, rq.trip_route_id, rq.request_routes@),
                    provided_view(provided@),
                )))
                &&& (e == Error::NotFound || e == Error::InvalidTripState || e
                    == Error::GeometryProviderError || e == Error::PersistenceError)
            },
        },
{
    let nid = fresh_route_id();
    merge_commit(state, rq, provided, nid)
}


/// One segment the geometry provider must be asked for: an ordered
/// station pair and its coordinates.
#[derive(Clone, Copy, Debug, PartialEq, Eq, Structural)]
pub struct SegmentRequest {
    pub s1: u128,
    pub s2: u128,
    pub from: Coords,
    pub to: Coords,
}

/// Whether the ordered pair is already listed among the segment
/// requests.
pub open spec fn hop_listed(s: Seq<SegmentRequest>, s1: u128, s2: u128) -> bool {
    exists|i: int| 0 <= i < s.len() && #[trigger] s[i].s1 == s1 && s[i].s2 == s2
}

/// Whether the ordered pair is already listed among the segment
/// requests.
pub fn hops_contain(v: &Vec<SegmentRequest>, s1: u128, s2: u128) -> (r: bool)
    ensures
        r == hop_listed(v@, s1, s2),
{
    let n = v.len();
    let mut i: usize = 0;
    while i < n
        invariant
            0 <= i <= n,
            n == v.len(),
            forall|k: int| 0 <= k < i ==> !(#[trigger] v@[k].s1 == s1 && v@[k].s2 == s2),
        decreases n - i,
    {
        if v[i].s1 == s1 && v[i].s2 == s2 {
            return true;
        }
        i = i + 1;
    }
    proof {
        if hop_listed(v@, s1, s2) {
            let w = choose|w: int| 0 <= w < v@.len() && #[trigger] v@[w].s1 == s1 && v@[w].s2
                == s2;
            assert(!(v@[w].s1 == s1 && v@[w].s2 == s2));
        }
    }
    false
}

/// The hops of the merged sequence whose segment the cache misses,
/// among the first `k`, with the coordinates the provider needs.  Each
/// ordered pair is listed once, however often it occurs, so the
/// provider is asked once per pair.
pub open spec fn missing_hops(
    gs: Seq<SegmentData>,
    mids: Seq<u128>,
    mcs: Seq<Coords>,
    k: int,
) -> Seq<SegmentRequest>
    decreases k,
{
    if k <= 0 {
        Seq::empty()
    } else {
        let prev = missing_hops(gs, mids, mcs, k - 1);
        if find_segment(gs, mids[k - 1], mids[k]) is Some {
            prev
        } else if hop_listed(prev, mids[k - 1], mids[k]) {
            prev
        } else {
            prev.push(
                SegmentRequest {
                    s1: mids[k - 1],
                    s2: mids[k],
                    from: mcs[k - 1],
                    to: mcs[k],
                },
            )
        }
    }
}

/// The merged coordinate sequence of a trip and a batch of requests.
pub open spec fn merged_coords(st: StateData, tid: u128, rids: Seq<u128>) -> Seq<Coords> {
    merge_fold_coords(path_coords(st.stations, trip_path(st, tid)), batch_points(st, rids))
}

/// Load the trip and plan the whole batch against it, committing
/// nothing: the merged station sequence and its coordinates, ready
/// for a commit or a preview.
#[verifier::loop_isolation(false)]
fn plan_batch(state: &State, rq: &MergeRouteRequest) -> (r: Result<(Vec<u128>, Vec<Coords>), Error>)
    requires
        state.wf(),
    ensures
        match r {
            Ok((ids, coords)) => {
                &&& find_trip(state@.trips, rq.trip_route_id) is Some
                &&& trip_path(state@, rq.trip_route_id).len() >= 2
                &&& all_stations_found(state@.stations, trip_path(state@, rq.trip_route_id))
                &&& requests_resolvable(state@, rq.request_routes@)
                &&& ids@ == merged_ids(state@, rq.trip_route_id, rq.request_routes@)
                &&& coords@ == merged_coords(state@, rq.trip_route_id, rq.request_routes@)
                &&& ids@.len() == coords@.len()
                &&& ids@.len() >= 2
                &&& valid_coords_seq(coords@)
            },
            Err(e) => {
                &&& (e == Error::NotFound <==> (find_trip(state@.trips, rq.trip_route_id) is None
                    || (trip_path(state@, rq.trip_route_id).len() >= 2 && (!all_stations_found(
                    state@.stations,
                    trip_path(state@, rq.trip_route_id),
                ) || !requests_resolvable(state@, rq.request_routes@)))))
                &&& (e == Error::InvalidTripState <==> (find_trip(state@.trips, rq.trip_route_id)
                    is Some && trip_path(state@, rq.trip_route_id).len() < 2))
                &&& (e == Error::NotFound || e == Error::InvalidTripState)
            },
        },
{
    let ghost st0 = state@;
    let (mut ids, mut coords): (Vec<u128>, Vec<Coords>) = match state.find_trip(rq.trip_route_id) {
        None => {
            return Err(Error::NotFound);
        },
        Some(t) => {
            if t.path.len() < 2 {
                return Err(Error::InvalidTripState);
            }
            match state.resolve_coords(&t.path) {
                None => {
                    return Err(Error::NotFound);
                },
                Some(cs) => (copy_ids(&t.path), cs),
            }
        },
    };
    proof {
        crate::model::lemma_path_coords_valid(*state, trip_path(st0, rq.trip_route_id));
    }
    let ghost qs = batch_points(st0, rq.request_routes@);
    let m = rq.request_routes.len();
    let mut qi: usize = 0;
    proof {
        assert(qs.take(0) =~= Seq::<ReqPoints>::empty());
    }
    while qi < m
        invariant
            0 <= qi <= m,
            ids@ == merge_fold_ids(
                trip_path(st0, rq.trip_route_id),
                path_coords(st0.stations, trip_path(st0, rq.trip_route_id)),
                qs.take(qi as int),
            ),
            coords@ == merge_fold_coords(
                path_coords(st0.stations, trip_path(st0, rq.trip_route_id)),
                qs.take(qi as int),
            ),
            ids@.len() == coords@.len(),
            coords@.len() >= 2,
            valid_coords_seq(coords@),
            forall|k: int|
                0 <= k < qi ==> {
                    &&& (#[trigger] find_request(st0.requests, rq.request_routes@[k])) is Some
                    &&& find_station(
                        st0.stations,
                        find_request(st0.requests, rq.request_routes@[k])->Some_0.source,
                    ) is Some
                    &&& find_station(
                        st0.stations,
                        find_request(st0.requests, rq.request_routes@[k])->Some_0.destination,
                    ) is Some
                },
        decreases m - qi,
    {
        let rid = rq.request_routes[qi];
        let req = match state.find_request(rid) {
            Some(rr) => rr,
            None => {
                proof {
                    assert(!requests_resolvable(st0, rq.request_routes@)) by {
                        if requests_resolvable(st0, rq.request_routes@) {
                            assert(find_request(st0.requests, rq.request_routes@[qi as int])
                                is Some);
                        }
                    }
                }
                return Err(Error::NotFound);
            },
        };
        let src_st = match state.find_station(req.source) {
            Some(s) => s,
            None => {
                proof {
                    assert(!requests_resolvable(st0, rq.request_routes@)) by {
                        if requests_resolvable(st0, rq.request_routes@) {
                            assert(find_request(st0.requests, rq.request_routes@[qi as int])
                                is Some);
                        }
                    }
                }
                return Err(Error::NotFound);
            },
        };
        let src_c = src_st.coords;
        let dst_st = match state.find_station(req.destination) {
            Some(s) => s,
            None => {
                proof {
                    assert(!requests_resolvable(st0, rq.request_routes@)) by {
                        if requests_resolvable(st0, rq.request_routes@) {
                            assert(find_request(st0.requests, rq.request_routes@[qi as int])
                                is Some);
                        }
                    }
                }
                return Err(Error::NotFound);
            },
        };
        let dst_c = dst_st.coords;
        proof {
            lemma_station_at_valid(*state, req.source);
            lemma_station_at_valid(*state, req.destination);
            assert(qs[qi as int] == ReqPoints {
                src_id: req.source,
                src: src_c,
                dst_id: req.destination,
                dst: dst_c,
            });
        }
        let ghost ids_pre = ids@;
        let ghost coords_pre = coords@;
        let plan = plan_insertion(&mut coords, src_c, dst_c);
        ids.insert(plan.src_idx, req.source);
        ids.insert(plan.dst_idx, req.destination);
        proof {
            lemma_merge_fold_push(
                trip_path(st0, rq.trip_route_id),
                path_coords(st0.stations, trip_path(st0, rq.trip_route_id)),
                qs.take(qi as int),
                qs[qi as int],
            );
            assert(qs.take(qi as int).push(qs[qi as int]) =~= qs.take(qi as int + 1));
            assert(ids@ == merge_step_ids(ids_pre, coords_pre, qs[qi as int]));
            assert(coords@ == merge_step_coords(coords_pre, qs[qi as int]));
        }
        qi = qi + 1;
    }
    proof {
        assert(qs.take(m as int) =~= qs);
        assert(ids@ == merged_ids(st0, rq.trip_route_id, rq.request_routes@));
        assert(coords@ == merged_coords(st0, rq.trip_route_id, rq.request_routes@));
    }
    Ok((ids, coords))
}

/// Plan a merge without committing anything: the merged station
/// sequence and, for every hop whose segment the cache misses, the
/// ordered pair and coordinates to ask the geometry provider for.
/// Failures are those of [`merge_routes`] that do not depend on the
/// provider.
#[verifier::loop_isolation(false)]
pub fn merge_preview(state: &State, rq: &MergeRouteRequest) -> (r: Result<
    (Vec<u128>, Vec<SegmentRequest>),
    Error,
>)
    requires
        state.wf(),
    ensures
        match r {
            Ok((graph, missing)) => {
                &&& find_trip(state@.trips, rq.trip_route_id) is Some
                &&& trip_path(state@, rq.trip_route_id).len() >= 2
                &&& all_stations_found(state@.stations, trip_path(state@, rq.trip_route_id))
                &&& requests_resolvable(state@, rq.request_routes@)
                &&& graph@ == merged_ids(state@, rq.trip_route_id, rq.request_routes@)
                &&& missing@ == missing_hops(
                    state@.segments,
                    merged_ids(state@, rq.trip_route_id, rq.request_routes@),
                    merged_coords(state@, rq.trip_route_id, rq.request_routes@),
                    merged_ids(state@, rq.trip_route_id, rq.request_routes@).len() - 1,
                )
            },
            Err(e) => {
                &&& (e == Error::NotFound <==> (find_trip(state@.trips, rq.trip_route_id) is None
                    || (trip_path(state@, rq.trip_route_id).len() >= 2 && (!all_stations_found(
                    state@.stations,
                    trip_path(state@, rq.trip_route_id),
                ) || !requests_resolvable(state@, rq.request_routes@)))))
                &&& (e == Error::InvalidTripState <==> (find_trip(state@.trips, rq.trip_route_id)
                    is Some && trip_path(state@, rq.trip_route_id).len() < 2))
                &&& (e == Error::NotFound || e == Error::InvalidTripState)
            },
        },
{
    let ghost st0 = state@;
    let (ids, coords) = match plan_batch(state, rq) {
        Ok(pair) => pair,
        Err(e) => {
            return Err(e);
        },
    };
    let ghost mids = ids@;
    let ghost mcs = coords@;
    let mut missing: Vec<SegmentRequest> = Vec::new();
    let n2 = ids.len();
    let mut k: usize = 0;
    proof {
        assert(missing@ =~= missing_hops(st0.segments, mids, mcs, 0));
    }
    while k < n2 - 1
        invariant
            0 <= k <= n2 - 1,
            n2 == ids.len(),
            n2 >= 2,
            mids == ids@,
            mcs == coords@,
            ids@.len() == coords@.len(),
            missing@ == missing_hops(st0.segments, mids, mcs, k as int),
        decreases n2 - k,
    {
        if !state.has_segment(ids[k], ids[k + 1]) {
            if !hops_contain(&missing, ids[k], ids[k + 1]) {
                missing.push(
                    SegmentRequest {
                        s1: ids[k],
                        s2: ids[k + 1],
                        from: coords[k],
                        to: coords[k + 1],
                    },
                );
            }
        }
        k = k + 1;
    }
    Ok((ids, missing))
}

} // verus!
