//! Ranking of candidate cargo requests by insertion cost.
//!
//! Candidates are evaluated independently, each against the trip's
//! original path; the resulting (request, cost) entries are sorted by
//! ascending cost with a stable insertion sort and entries at or above
//! the configured maximum detour are dropped.  What remains is the
//! ranked shortlist of request identifiers, best insertion first.

use vstd::prelude::*;

use crate::Error;
use crate::geo::Coords;
use crate::model::State;
use crate::model::StateData;
use crate::model::all_stations_found;
use crate::model::copy_coords;
use crate::model::find_request;
use crate::model::find_station;
use crate::model::find_trip;
use crate::model::lemma_path_coords_valid;
use crate::model::lemma_station_at_valid;
use crate::model::path_coords;
use crate::merge::ReqPoints;
use crate::merge::req_points;
use crate::merge::requests_resolvable;
use crate::merge::trip_path;
use crate::planner::insertion_cost;
use crate::planner::plan_insertion;

verus! {

/// Every cost is at most the cost of any later entry.
pub open spec fn sorted_by_cost(q: Seq<(u128, i64)>) -> bool {
    forall|i: int, j: int| 0 <= i < j < q.len() ==> (#[trigger] q[i]).1 <= (#[trigger] q[j]).1
}

/// Insert an entry into a cost-sorted sequence, after all entries of
/// equal or smaller cost.
pub open spec fn insert_sorted(q: Seq<(u128, i64)>, x: (u128, i64)) -> Seq<(u128, i64)>
    decreases q.len(),
{
    if q.len() == 0 {
        seq![x]
    } else if q[0].1 <= x.1 {
        seq![q[0]] + insert_sorted(q.drop_first(), x)
    } else {
        seq![x] + q
    }
}

/// Stable insertion sort by ascending cost.
pub open spec fn sort_by_cost_spec(s: Seq<(u128, i64)>) -> Seq<(u128, i64)>
    decreases s.len(),
{
    if s.len() == 0 {
        Seq::empty()
    } else {
        insert_sorted(sort_by_cost_spec(s.drop_last()), s.last())
    }
}

/// The entries whose cost lies strictly below the maximum.
pub open spec fn below_threshold(q: Seq<(u128, i64)>, max_cost: i64) -> Seq<(u128, i64)> {
    q.filter(|p: (u128, i64)| p.1 < max_cost)
}

/// The identifiers of a sequence of entries, in order.
pub open spec fn ids_of(q: Seq<(u128, i64)>) -> Seq<u128> {
    Seq::new(q.len(), |i: int| q[i].0)
}

/// The ranked shortlist: cost-sorted, threshold-filtered identifiers.
pub open spec fn rank_spec(costs: Seq<(u128, i64)>, max_cost: i64) -> Seq<u128> {
    ids_of(below_threshold(sort_by_cost_spec(costs), max_cost))
}

/// `insert_sorted` adds one entry, keeps the order, and keeps the
/// multiset of entries.
pub proof fn lemma_insert_sorted(q: Seq<(u128, i64)>, x: (u128, i64))
    requires
        sorted_by_cost(q),
    ensures
        insert_sorted(q, x).len() == q.len() + 1,
        sorted_by_cost(insert_sorted(q, x)),
        insert_sorted(q, x).to_multiset() == q.to_multiset().insert(x),
    decreases q.len(),
{
    broadcast use vstd::seq_lib::group_to_multiset_ensures;

    if q.len() == 0 {
        assert(insert_sorted(q, x) =~= q.insert(0, x));
        vstd::seq_lib::to_multiset_insert(q, 0, x);
    } else if q[0].1 <= x.1 {
        assert(sorted_by_cost(q.drop_first())) by {
            assert(forall|i: int|
                0 <= i < q.drop_first().len() ==> q.drop_first()[i] == #[trigger] q[i + 1]);
        }
        lemma_insert_sorted(q.drop_first(), x);
        let rest = insert_sorted(q.drop_first(), x);
        let whole = insert_sorted(q, x);
        assert(whole =~= rest.insert(0, q[0]));
        vstd::seq_lib::to_multiset_insert(rest, 0, q[0]);
        assert(q =~= q.drop_first().insert(0, q[0]));
        vstd::seq_lib::to_multiset_insert(q.drop_first(), 0, q[0]);
        assert(whole.to_multiset() == q.to_multiset().insert(x)) by {
            assert(whole.to_multiset() == rest.to_multiset().insert(q[0]));
            assert(rest.to_multiset() == q.drop_first().to_multiset().insert(x));
            assert(q.to_multiset() == q.drop_first().to_multiset().insert(q[0]));
            assert(q.drop_first().to_multiset().insert(x).insert(q[0])
                =~= q.drop_first().to_multiset().insert(q[0]).insert(x));
        }
        assert(sorted_by_cost(whole)) by {
            assert(forall|i: int| 0 <= i < rest.len() ==> whole[i + 1] == #[trigger] rest[i]);
            assert(whole[0] == q[0]);
            assert(forall|i: int|
                0 <= i < rest.len() ==> q[0].1 <= (#[trigger] rest[i]).1) by {
                assert forall|i: int| 0 <= i < rest.len() implies q[0].1 <= (#[trigger] rest[i]).1
                by {
                    assert(rest.to_multiset().count(rest[i]) > 0);
                    if rest[i] == x {
                    } else {
                        assert(q.drop_first().to_multiset().count(rest[i]) > 0);
                        assert(q.drop_first().contains(rest[i]));
                        let w = choose|w: int|
                            0 <= w < q.drop_first().len() && q.drop_first()[w] == rest[i];
                        assert(q[w + 1] == q.drop_first()[w]);
                    }
                }
            }
        }
    } else {
        assert(insert_sorted(q, x) =~= q.insert(0, x));
        vstd::seq_lib::to_multiset_insert(q, 0, x);
        assert(sorted_by_cost(insert_sorted(q, x))) by {
            assert(forall|i: int|
                0 <= i < q.len() ==> insert_sorted(q, x)[i + 1] == #[trigger] q[i]);
        }
    }
}

/// The sort keeps the multiset of entries and orders them by cost.
pub proof fn lemma_sort_by_cost(s: Seq<(u128, i64)>)
    ensures
        sort_by_cost_spec(s).len() == s.len(),
        sorted_by_cost(sort_by_cost_spec(s)),
        sort_by_cost_spec(s).to_multiset() == s.to_multiset(),
    decreases s.len(),
{
    broadcast use vstd::seq_lib::group_to_multiset_ensures;

    if s.len() == 0 {
        assert(sort_by_cost_spec(s).to_multiset() =~= s.to_multiset());
    } else {
        lemma_sort_by_cost(s.drop_last());
        lemma_insert_sorted(sort_by_cost_spec(s.drop_last()), s.last());
        assert(s =~= s.drop_last().push(s.last()));
        assert(s.drop_last().push(s.last()).to_multiset() == s.drop_last().to_multiset().insert(
            s.last(),
        ));
    }
}

/// Appending an entry to the input extends the sort by one insertion.
pub proof fn lemma_sort_push(s: Seq<(u128, i64)>, x: (u128, i64))
    ensures
        sort_by_cost_spec(s.push(x)) == insert_sorted(sort_by_cost_spec(s), x),
{
    assert(s.push(x).drop_last() =~= s);
    assert(s.push(x).last() == x);
}

/// Positional form of `insert_sorted`: inserting before the first entry
/// of strictly larger cost.
pub proof fn lemma_insert_sorted_at(q: Seq<(u128, i64)>, x: (u128, i64), j: int)
    requires
        sorted_by_cost(q),
        0 <= j <= q.len(),
        forall|k: int| 0 <= k < j ==> (#[trigger] q[k]).1 <= x.1,
        j == q.len() || q[j].1 > x.1,
    ensures
        insert_sorted(q, x) == q.insert(j, x),
    decreases q.len(),
{
    if q.len() == 0 {
        assert(insert_sorted(q, x) =~= q.insert(0, x));
    } else if j == 0 {
        assert(q[0].1 > x.1);
        assert(insert_sorted(q, x) =~= q.insert(0, x));
    } else {
        assert(q[0].1 <= x.1);
        assert(sorted_by_cost(q.drop_first())) by {
            assert(forall|i: int|
                0 <= i < q.drop_first().len() ==> q.drop_first()[i] == #[trigger] q[i + 1]);
        }
        assert(forall|k: int|
            0 <= k < j - 1 ==> (#[trigger] q.drop_first()[k]).1 <= x.1) by {
            assert(forall|k: int|
                0 <= k < q.drop_first().len() ==> #[trigger] q.drop_first()[k] == q[k + 1]);
        }
        assert(j - 1 == q.drop_first().len() || q.drop_first()[j - 1].1 > x.1);
        lemma_insert_sorted_at(q.drop_first(), x, j - 1);
        assert(insert_sorted(q, x) =~= q.insert(j, x)) by {
            assert(insert_sorted(q, x) == seq![q[0]] + q.drop_first().insert(j - 1, x));
            q.drop_first().insert_ensures(j - 1, x);
            q.insert_ensures(j, x);
        }
    }
}

/// Every entry of a filtered sequence occurs in the original.
pub proof fn lemma_filter_entries(q: Seq<(u128, i64)>, max_cost: i64)
    ensures
        forall|k: int|
            0 <= k < below_threshold(q, max_cost).len() ==> q.contains(
                #[trigger] below_threshold(q, max_cost)[k],
            ),
        forall|k: int|
            0 <= k < below_threshold(q, max_cost).len() ==> (#[trigger] below_threshold(
                q,
                max_cost,
            )[k]).1 < max_cost,
    decreases q.len(),
{
    reveal(Seq::filter);
    if q.len() > 0 {
        lemma_filter_entries(q.drop_last(), max_cost);
        let f = below_threshold(q, max_cost);
        let fd = below_threshold(q.drop_last(), max_cost);
        assert forall|k: int| 0 <= k < f.len() implies q.contains(#[trigger] f[k]) && f[k].1
            < max_cost by {
            if q.last().1 < max_cost && k == f.len() - 1 {
                assert(f[k] == q.last());
                assert(q[q.len() - 1] == q.last());
            } else {
                assert(f[k] == fd[k]);
                assert(q.drop_last().contains(fd[k]));
                let w = choose|w: int| 0 <= w < q.drop_last().len() && q.drop_last()[w] == fd[k];
                assert(q[w] == fd[k]);
            }
        }
    }
}

/// Filtering a cost-sorted sequence keeps it cost-sorted, and keeps
/// every entry below the threshold.
pub proof fn lemma_filter_sorted(q: Seq<(u128, i64)>, max_cost: i64)
    requires
        sorted_by_cost(q),
    ensures
        sorted_by_cost(below_threshold(q, max_cost)),
    decreases q.len(),
{
    reveal(Seq::filter);
    if q.len() > 0 {
        assert(sorted_by_cost(q.drop_last())) by {
            assert(forall|i: int|
                0 <= i < q.drop_last().len() ==> q.drop_last()[i] == #[trigger] q[i]);
        }
        lemma_filter_sorted(q.drop_last(), max_cost);
        let f = below_threshold(q, max_cost);
        let fd = below_threshold(q.drop_last(), max_cost);
        if q.last().1 < max_cost {
            assert(f == fd.push(q.last()));
            lemma_filter_entries(q.drop_last(), max_cost);
            assert forall|i: int, j: int| 0 <= i < j < f.len() implies (#[trigger] f[i]).1 <= (
            #[trigger] f[j]).1 by {
                if j < f.len() - 1 {
                    assert(f[i] == fd[i] && f[j] == fd[j]);
                } else {
                    assert(f[j] == q.last());
                    assert(f[i] == fd[i]);
                    assert(q.drop_last().contains(fd[i]));
                    let w = choose|w: int|
                        0 <= w < q.drop_last().len() && q.drop_last()[w] == fd[i];
                    assert(q[w] == fd[i]);
                    assert(q[w].1 <= q[q.len() - 1].1);
                }
            }
        } else {
            assert(f == fd);
        }
    }
}

/// A candidate whose insertion cost lies at or above the configured
/// maximum is absent from the ranked shortlist (given no other candidate
/// shares its identifier).
pub proof fn law_rank_threshold(costs: Seq<(u128, i64)>, max_cost: i64, i: int)
    requires
        0 <= i < costs.len(),
        costs[i].1 >= max_cost,
        forall|j: int| 0 <= j < costs.len() && (#[trigger] costs[j]).0 == costs[i].0 ==> j == i,
    ensures
        forall|k: int|
            0 <= k < rank_spec(costs, max_cost).len() ==> #[trigger] rank_spec(costs, max_cost)[k]
                != costs[i].0,
{
    broadcast use vstd::seq_lib::group_to_multiset_ensures;

    let q = sort_by_cost_spec(costs);
    let f = below_threshold(q, max_cost);
    lemma_sort_by_cost(costs);
    lemma_filter_entries(q, max_cost);
    assert forall|k: int|
        0 <= k < rank_spec(costs, max_cost).len() implies #[trigger] rank_spec(costs, max_cost)[k]
        != costs[i].0 by {
        if rank_spec(costs, max_cost)[k] == costs[i].0 {
            assert(rank_spec(costs, max_cost)[k] == f[k].0);
            assert(q.contains(f[k]));
            assert(q.to_multiset().count(f[k]) > 0);
            assert(costs.to_multiset().count(f[k]) > 0);
            assert(costs.contains(f[k]));
            let w = choose|w: int| 0 <= w < costs.len() && costs[w] == f[k];
            assert(costs[w].0 == costs[i].0);
            assert(w == i);
            assert(costs[i].1 < max_cost);
        }
    }
}

/// If one candidate's insertion cost is strictly smaller than another's
/// and the larger cost still passes the threshold, the cheaper candidate
/// ranks strictly earlier in the shortlist.
pub proof fn law_rank_monotone(costs: Seq<(u128, i64)>, max_cost: i64, i: int, j: int)
    requires
        0 <= i < costs.len(),
        0 <= j < costs.len(),
        costs[i].1 < costs[j].1,
        costs[j].1 < max_cost,
    ensures
        exists|pi: int, pj: int|
            0 <= pi < pj < rank_spec(costs, max_cost).len() && rank_spec(costs, max_cost)[pi]
                == costs[i].0 && rank_spec(costs, max_cost)[pj] == costs[j].0,
{
    broadcast use vstd::seq_lib::group_to_multiset_ensures;

    let q = sort_by_cost_spec(costs);
    let f = below_threshold(q, max_cost);
    lemma_sort_by_cost(costs);
    lemma_filter_sorted(q, max_cost);
    lemma_filter_entries(q, max_cost);
    // Both entries occur in the sorted sequence.
    assert(costs.to_multiset().count(costs[i]) > 0);
    assert(costs.to_multiset().count(costs[j]) > 0);
    assert(q.contains(costs[i]));
    assert(q.contains(costs[j]));
    let qi = choose|qi: int| 0 <= qi < q.len() && q[qi] == costs[i];
    let qj = choose|qj: int| 0 <= qj < q.len() && q[qj] == costs[j];
    // Both survive the filter.
    assert(f.contains(costs[i])) by {
        q.lemma_filter_contains(|p: (u128, i64)| p.1 < max_cost, qi);
    }
    assert(f.contains(costs[j])) by {
        q.lemma_filter_contains(|p: (u128, i64)| p.1 < max_cost, qj);
    }
    let pi = choose|pi: int| 0 <= pi < f.len() && f[pi] == costs[i];
    let pj = choose|pj: int| 0 <= pj < f.len() && f[pj] == costs[j];
    // Sortedness forces the cheaper entry first.
    assert(pi < pj) by {
        if pj < pi {
            assert(f[pj].1 <= f[pi].1);
        }
    }
    assert(rank_spec(costs, max_cost)[pi] == costs[i].0);
    assert(rank_spec(costs, max_cost)[pj] == costs[j].0);
}

/// Sort the (request, cost) entries by ascending cost, stably, then drop
/// every entry whose cost reaches `max_cost`, and keep the identifiers.
pub fn rank_by_cost(costs: &Vec<(u128, i64)>, max_cost: i64) -> (r: Vec<u128>)
    ensures
        r@ == rank_spec(costs@, max_cost),
{
    let n = costs.len();
    let mut sorted: Vec<(u128, i64)> = Vec::new();
    let mut i: usize = 0;
    proof {
        assert(costs@.take(0) =~= Seq::<(u128, i64)>::empty());
    }
    while i < n
        invariant
            0 <= i <= n,
            n == costs.len(),
            sorted@ == sort_by_cost_spec(costs@.take(i as int)),
            sorted_by_cost(sorted@),
        decreases n - i,
    {
        let x = costs[i];
        let mut j: usize = 0;
        while j < sorted.len() && sorted[j].1 <= x.1
            invariant
                0 <= j <= sorted.len(),
                forall|k: int| 0 <= k < j ==> (#[trigger] sorted@[k]).1 <= x.1,
            decreases sorted.len() - j,
        {
            j = j + 1;
        }
        proof {
            lemma_insert_sorted_at(sorted@, x, j as int);
            lemma_insert_sorted(sorted@, x);
            lemma_sort_push(costs@.take(i as int), x);
            assert(costs@.take(i as int).push(x) =~= costs@.take(i as int + 1));
        }
        sorted.insert(j, x);
        i = i + 1;
    }
    proof {
        assert(costs@.take(n as int) =~= costs@);
    }
    let mut kept: Vec<u128> = Vec::new();
    let mut k: usize = 0;
    proof {
        reveal(Seq::filter);
        assert(sorted@.take(0) =~= Seq::<(u128, i64)>::empty());
        assert(below_threshold(sorted@.take(0), max_cost) == Seq::<(u128, i64)>::empty());
        assert(kept@ =~= ids_of(below_threshold(sorted@.take(0), max_cost)));
    }
    while k < sorted.len()
        invariant
            0 <= k <= sorted.len(),
            sorted@ == sort_by_cost_spec(costs@),
            kept@ == ids_of(below_threshold(sorted@.take(k as int), max_cost)),
        decreases sorted.len() - k,
    {
        proof {
            reveal(Seq::filter);
            assert(sorted@.take(k as int + 1).drop_last() =~= sorted@.take(k as int));
            assert(sorted@.take(k as int + 1).last() == sorted@[k as int]);
        }
        if sorted[k].1 < max_cost {
            kept.push(sorted[k].0);
            proof {
                assert(below_threshold(sorted@.take(k as int + 1), max_cost) == below_threshold(
                    sorted@.take(k as int),
                    max_cost,
                ).push(sorted@[k as int]));
                assert(kept@ =~= ids_of(below_threshold(sorted@.take(k as int + 1), max_cost)));
            }
        } else {
            proof {
                assert(below_threshold(sorted@.take(k as int + 1), max_cost) == below_threshold(
                    sorted@.take(k as int),
                    max_cost,
                ));
            }
        }
        k = k + 1;
    }
    proof {
        assert(sorted@.take(sorted@.len() as int) =~= sorted@);
    }
    kept
}


/// A candidate's insertion cost: the incremental cost of splicing its
/// pickup and drop-off into the trip's coordinate sequence.
pub open spec fn candidate_cost(st: StateData, cs: Seq<Coords>, rid: u128) -> int {
    insertion_cost(cs, req_points(st, rid).src, req_points(st, rid).dst)
}

/// The (request, cost) entries of a candidate batch, in batch order.
pub open spec fn candidate_costs(st: StateData, cs: Seq<Coords>, rids: Seq<u128>) -> Seq<
    (u128, i64),
> {
    Seq::new(rids.len(), |i: int| (rids[i], candidate_cost(st, cs, rids[i]) as i64))
}

/// Rank the candidate cargo requests for a trip: each candidate is
/// planned independently against the trip's original path, and the
/// shortlist is the cost-sorted, threshold-filtered request ids, best
/// insertion first.  Nothing is committed.
#[verifier::loop_isolation(false)]
pub fn get_potential_routes(
    state: &State,
    trip_id: u128,
    request_ids: &Vec<u128>,
    max_cost: i64,
) -> (r: Result<Vec<u128>, Error>)
    requires
        state.wf(),
    ensures
        match r {
            Ok(ranked) => {
                &&& find_trip(state@.trips, trip_id) is Some
                &&& trip_path(state@, trip_id).len() >= 2
                &&& all_stations_found(state@.stations, trip_path(state@, trip_id))
                &&& requests_resolvable(state@, request_ids@)
                &&& ranked@ == rank_spec(
                    candidate_costs(
                        state@,
                        path_coords(state@.stations, trip_path(state@, trip_id)),
                        request_ids@,
                    ),
                    max_cost,
                )
            },
            Err(e) => {
                &&& (e == Error::NotFound <==> (find_trip(state@.trips, trip_id) is None || (
                trip_path(state@, trip_id).len() >= 2 && (!all_stations_found(
                    state@.stations,
                    trip_path(state@, trip_id),
                ) || !requests_resolvable(state@, request_ids@)))))
                &&& (e == Error::InvalidTripState <==> (find_trip(state@.trips, trip_id) is Some
                    && trip_path(state@, trip_id).len() < 2))
                &&& (e == Error::NotFound || e == Error::InvalidTripState)
            },
        },
{
    let coords: Vec<Coords> = match state.find_trip(trip_id) {
        None => {
            return Err(Error::NotFound);
        },
        Some(t) => {
            if t.path.len() < 2 {
                return Err(Error::InvalidTripState);
            }
            match state.resolve_coords(&t.path) {
                None => {
                    return Err(Error::NotFound);
                },
                Some(cs) => cs,
            }
        },
    };
    let ghost cs0 = path_coords(state@.stations, trip_path(state@, trip_id));
    proof {
        lemma_path_coords_valid(*state, trip_path(state@, trip_id));
    }
    let m = request_ids.len();
    let mut costs: Vec<(u128, i64)> = Vec::new();
    let mut qi: usize = 0;
    proof {
        assert(costs@ =~= candidate_costs(state@, cs0, request_ids@).take(0));
    }
    while qi < m
        invariant
            0 <= qi <= m,
            coords@ == cs0,
            costs@ == candidate_costs(state@, cs0, request_ids@).take(qi as int),
            forall|k: int|
                0 <= k < qi ==> {
                    &&& (#[trigger] find_request(state@.requests, request_ids@[k])) is Some
                    &&& find_station(
                        state@.stations,
                        find_request(state@.requests, request_ids@[k])->Some_0.source,
                    ) is Some
                    &&& find_station(
                        state@.stations,
                        find_request(state@.requests, request_ids@[k])->Some_0.destination,
                    ) is Some
                },
        decreases m - qi,
    {
        let rid = request_ids[qi];
        let req = match state.find_request(rid) {
            Some(rr) => rr,
            None => {
                proof {
                    assert(!requests_resolvable(state@, request_ids@)) by {
                        if requests_resolvable(state@, request_ids@) {
                            assert(find_request(state@.requests, request_ids@[qi as int])
                                is Some);
                        }
                    }
                }
                return Err(Error::NotFound);
            },
        };
        let src_st = match state.find_station(req.source) {
            Some(st) => st,
            None => {
                proof {
                    assert(!requests_resolvable(state@, request_ids@)) by {
                        if requests_resolvable(state@, request_ids@) {
                            assert(find_request(state@.requests, request_ids@[qi as int])
                                is Some);
                        }
                    }
                }
                return Err(Error::NotFound);
            },
        };
        let src_c = src_st.coords;
        let dst_st = match state.find_station(req.destination) {
            Some(st) => st,
            None => {
                proof {
                    assert(!requests_resolvable(state@, request_ids@)) by {
                        if requests_resolvable(state@, request_ids@) {
                            assert(find_request(state@.requests, request_ids@[qi as int])
                                is Some);
                        }
                    }
                }
                return Err(Error::NotFound);
            },
        };
        let dst_c = dst_st.coords;
        proof {
            lemma_station_at_valid(*state, req.source);
            lemma_station_at_valid(*state, req.destination);
            assert(req_points(state@, rid) == ReqPoints {
                src_id: req.source,
                src: src_c,
                dst_id: req.destination,
                dst: dst_c,
            });
        }
        let mut work = copy_coords(&coords);
        let plan = plan_insertion(&mut work, src_c, dst_c);
        costs.push((rid, plan.cost));
        proof {
            assert(costs@ =~= candidate_costs(state@, cs0, request_ids@).take(qi as int + 1));
        }
        qi = qi + 1;
    }
    proof {
        assert(candidate_costs(state@, cs0, request_ids@).take(m as int) =~= candidate_costs(
            state@,
            cs0,
            request_ids@,
        ));
    }
    Ok(rank_by_cost(&costs, max_cost))
}

} // verus!
