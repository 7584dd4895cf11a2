//! The insertion planner: the cheapest way to splice one pickup/drop-off
//! pair into an ordered station path.
//!
//! Planning is two-phase nearest insertion.  Phase one scans every edge of
//! the path and splices the pickup into the edge whose insertion delta
//! `d(a, p) + d(p, b) - d(a, b)` is smallest, ties broken by the lowest
//! edge index.  Phase two re-scans the updated path, restricted to the
//! edges at or after the freshly inserted pickup, and splices the
//! drop-off the same way, so the drop-off always lands after the pickup.
//! Because the pickup is spliced into an existing edge it is never the
//! last element, so phase two always has at least the edge leaving the
//! pickup to choose from.
//!
//! The total cost is the sum of the two deltas, each measured against the
//! path as it stood at the time of that insertion.

use vstd::prelude::*;

use crate::geo::Coords;
use crate::geo::dist;
use crate::geo::dist_spec;
use crate::geo::valid_coords_seq;

verus! {

/// Incremental planning cost of splicing point `p` into the edge from
/// `s[i]` to `s[i + 1]`.
pub open spec fn edge_delta(s: Seq<Coords>, i: int, p: Coords) -> int {
    dist_spec(s[i], p) + dist_spec(p, s[i + 1]) - dist_spec(s[i], s[i + 1])
}

/// First edge index in `lo ..= s.len() - 2` whose insertion delta for `p`
/// is minimal.
pub open spec fn best_edge_from(s: Seq<Coords>, p: Coords, lo: int) -> int
    recommends
        0 <= lo <= s.len() - 2,
    decreases s.len() - lo,
{
    if lo >= s.len() - 2 {
        lo
    } else {
        let rest = best_edge_from(s, p, lo + 1);
        if edge_delta(s, lo, p) <= edge_delta(s, rest, p) {
            lo
        } else {
            rest
        }
    }
}

/// `best_edge_from` stays in range, minimizes the delta, and is the first
/// index to do so.
pub proof fn lemma_best_edge_from(s: Seq<Coords>, p: Coords, lo: int)
    requires
        0 <= lo <= s.len() - 2,
    ensures
        lo <= best_edge_from(s, p, lo) <= s.len() - 2,
        forall|k: int|
            lo <= k <= s.len() - 2 ==> edge_delta(s, best_edge_from(s, p, lo), p)
                <= #[trigger] edge_delta(s, k, p),
        forall|k: int|
            lo <= k < best_edge_from(s, p, lo) ==> #[trigger] edge_delta(s, k, p) > edge_delta(
                s,
                best_edge_from(s, p, lo),
                p,
            ),
    decreases s.len() - lo,
{
    if lo < s.len() - 2 {
        lemma_best_edge_from(s, p, lo + 1);
    }
}

/// Position at which the pickup point is spliced into `s`.
pub open spec fn src_insert_pos(s: Seq<Coords>, src: Coords) -> int {
    best_edge_from(s, src, 0) + 1
}

/// The path after phase one: `s` with the pickup spliced in.
pub open spec fn with_src(s: Seq<Coords>, src: Coords) -> Seq<Coords> {
    s.insert(src_insert_pos(s, src), src)
}

/// Position at which the drop-off point is spliced into the phase-one
/// path.  Only edges at or after the pickup are considered, so the
/// drop-off never lands before the pickup.
pub open spec fn dst_insert_pos(s: Seq<Coords>, src: Coords, dst: Coords) -> int {
    best_edge_from(with_src(s, src), dst, src_insert_pos(s, src)) + 1
}

/// The fully spliced path: `s` with pickup and drop-off inserted.
pub open spec fn merged_path(s: Seq<Coords>, src: Coords, dst: Coords) -> Seq<Coords> {
    with_src(s, src).insert(dst_insert_pos(s, src, dst), dst)
}

/// Total incremental cost of the two insertions, each delta measured
/// against the path as it stood at the time of that insertion.
pub open spec fn insertion_cost(s: Seq<Coords>, src: Coords, dst: Coords) -> int {
    edge_delta(s, src_insert_pos(s, src) - 1, src) + edge_delta(
        with_src(s, src),
        dst_insert_pos(s, src, dst) - 1,
        dst,
    )
}

/// The planner's answer: the two insertion positions and the incremental
/// cost.  `src_idx` and `dst_idx` are positions in the successively
/// updated path, so the pickup ends up at `src_idx` and the drop-off at
/// `dst_idx` of the final path.
#[derive(Clone, Copy, Debug, PartialEq, Eq, Structural)]
pub struct InsertionPlan {
    pub src_idx: usize,
    pub dst_idx: usize,
    pub cost: i64,
}

/// The drop-off position always lies strictly after the pickup position
/// and both lie within the final path.
pub proof fn law_insertion_indices_ordered(s: Seq<Coords>, src: Coords, dst: Coords)
    requires
        s.len() >= 2,
    ensures
        1 <= src_insert_pos(s, src) < dst_insert_pos(s, src, dst) <= s.len(),
{
    lemma_best_edge_from(s, src, 0);
    lemma_best_edge_from(with_src(s, src), dst, src_insert_pos(s, src));
}

/// Where an original index ends up after the pickup is spliced in at
/// `sp` and then the drop-off at `dp`.
pub open spec fn shifted_index(k: int, sp: int, dp: int) -> int {
    let k1 = if k >= sp {
        k + 1
    } else {
        k
    };
    if k1 >= dp {
        k1 + 1
    } else {
        k1
    }
}

/// Inserting one element at `sp` and then one at `dp` (strictly after)
/// moves every original element to its shifted index, keeping the
/// original order.
pub proof fn lemma_double_insert_order<A>(s: Seq<A>, sp: int, dp: int, x: A, y: A)
    requires
        0 <= sp <= s.len(),
        sp < dp <= s.len() + 1,
    ensures
        s.insert(sp, x).insert(dp, y).len() == s.len() + 2,
        forall|k: int|
            0 <= k < s.len() ==> 0 <= #[trigger] shifted_index(k, sp, dp) < s.len() + 2 && s.insert(
                sp,
                x,
            ).insert(dp, y)[shifted_index(k, sp, dp)] == s[k],
        forall|i: int, j: int|
            0 <= i < j < s.len() ==> shifted_index(i, sp, dp) < shifted_index(j, sp, dp),
{
    let ws = s.insert(sp, x);
    let m = ws.insert(dp, y);
    s.insert_ensures(sp, x);
    ws.insert_ensures(dp, y);
    assert forall|k: int|
        0 <= k < s.len() implies 0 <= #[trigger] shifted_index(k, sp, dp) < s.len() + 2
        && m[shifted_index(k, sp, dp)] == s[k] by {
        if k < sp {
            assert(ws[k] == s[k]);
            assert(m[k] == ws[k]);
        } else {
            assert(ws[k + 1] == s[k]);
            if k + 1 >= dp {
                assert(m[k + 2] == ws[k + 1]);
            } else {
                assert(m[k + 1] == ws[k + 1]);
            }
        }
    }
}

/// Splicing preserves the relative order of the stations already in the
/// path: every original point reappears at its shifted index, and the
/// shifted indices keep the original order.
pub proof fn law_merge_preserves_order(s: Seq<Coords>, src: Coords, dst: Coords)
    requires
        s.len() >= 2,
    ensures
        merged_path(s, src, dst).len() == s.len() + 2,
        forall|k: int|
            0 <= k < s.len() ==> 0 <= #[trigger] shifted_index(
                k,
                src_insert_pos(s, src),
                dst_insert_pos(s, src, dst),
            ) < s.len() + 2 && merged_path(s, src, dst)[shifted_index(
                k,
                src_insert_pos(s, src),
                dst_insert_pos(s, src, dst),
            )] == s[k],
        forall|i: int, j: int|
            0 <= i < j < s.len() ==> shifted_index(
                i,
                src_insert_pos(s, src),
                dst_insert_pos(s, src, dst),
            ) < shifted_index(j, src_insert_pos(s, src), dst_insert_pos(s, src, dst)),
{
    law_insertion_indices_ordered(s, src, dst);
    lemma_double_insert_order(s, src_insert_pos(s, src), dst_insert_pos(s, src, dst), src, dst);
}

/// Insertion delta of edge `i` for point `p`, as executable arithmetic.
fn edge_delta_exec(path: &Vec<Coords>, i: usize, p: &Coords) -> (d: i64)
    requires
        i + 1 < path.len(),
        valid_coords_seq(path@),
        p.valid(),
    ensures
        d as int == edge_delta(path@, i as int, *p),
        -1_000_000_000 < d < 1_000_000_000,
{
    proof {
        assert(path@[i as int].valid());
        assert(path@[i as int + 1].valid());
    }
    let d1 = dist(&path[i], p);
    let d2 = dist(p, &path[i + 1]);
    let d3 = dist(&path[i], &path[i + 1]);
    d1 as i64 + d2 as i64 - d3 as i64
}

/// First edge index in `lo ..= path.len() - 2` minimizing the insertion
/// delta for `p`.
fn best_edge(path: &Vec<Coords>, p: &Coords, lo: usize) -> (r: usize)
    requires
        path.len() >= 2,
        lo <= path.len() - 2,
        valid_coords_seq(path@),
        p.valid(),
    ensures
        r as int == best_edge_from(path@, *p, lo as int),
        lo <= r <= path.len() - 2,
{
    let n = path.len();
    let mut best: usize = n - 2;
    let mut k: usize = n - 2;
    while k > lo
        invariant
            lo <= k <= n - 2,
            n == path.len(),
            n >= 2,
            valid_coords_seq(path@),
            p.valid(),
            k <= best <= n - 2,
            best as int == best_edge_from(path@, *p, k as int),
        decreases k,
    {
        k = k - 1;
        let dk = edge_delta_exec(path, k, p);
        let db = edge_delta_exec(path, best, p);
        if dk <= db {
            best = k;
        }
    }
    best
}

/// Coordinates inserted into a sequence of valid coordinates keep the
/// sequence valid.
pub proof fn lemma_valid_insert(s: Seq<Coords>, pos: int, c: Coords)
    requires
        valid_coords_seq(s),
        c.valid(),
        0 <= pos <= s.len(),
    ensures
        valid_coords_seq(s.insert(pos, c)),
{
    s.insert_ensures(pos, c);
    assert forall|i: int|
        0 <= i < s.insert(pos, c).len() implies (#[trigger] s.insert(pos, c)[i]).valid() by {
        if i < pos {
            assert(s.insert(pos, c)[i] == s[i]);
        } else if i > pos {
            assert(s.insert(pos, c)[i] == s[i - 1]);
        }
    }
}

/// Splice one pickup/drop-off pair into the path, in place, and report
/// the chosen positions and the incremental cost.
///
/// The pickup lands at `plan.src_idx` and the drop-off at
/// `plan.dst_idx` of the updated path, with the drop-off always strictly
/// after the pickup.
pub fn plan_insertion(path: &mut Vec<Coords>, src: Coords, dst: Coords) -> (plan: InsertionPlan)
    requires
        old(path).len() >= 2,
        valid_coords_seq(old(path)@),
        src.valid(),
        dst.valid(),
    ensures
        plan.src_idx as int == src_insert_pos(old(path)@, src),
        plan.dst_idx as int == dst_insert_pos(old(path)@, src, dst),
        1 <= plan.src_idx < plan.dst_idx <= old(path).len(),
        plan.cost as int == insertion_cost(old(path)@, src, dst),
        -2_000_000_000 < plan.cost < 2_000_000_000,
        final(path)@ == merged_path(old(path)@, src, dst),
        final(path).len() == old(path).len() + 2,
        valid_coords_seq(final(path)@),
{
    let ghost s0 = path@;
    let e1 = best_edge(path, &src, 0);
    let d1 = edge_delta_exec(path, e1, &src);
    path.insert(e1 + 1, src);
    proof {
        lemma_valid_insert(s0, e1 as int + 1, src);
        assert(path@ == with_src(s0, src));
    }
    let e2 = best_edge(path, &dst, e1 + 1);
    let d2 = edge_delta_exec(path, e2, &dst);
    path.insert(e2 + 1, dst);
    proof {
        lemma_valid_insert(with_src(s0, src), e2 as int + 1, dst);
        assert(path@ == merged_path(s0, src, dst));
    }
    InsertionPlan { src_idx: e1 + 1, dst_idx: e2 + 1, cost: d1 + d2 }
}

} // verus!
