use gw_routes::geo::Coords;
use gw_routes::geo::MICRO_PER_DEGREE;
use gw_routes::geo::dist;
use gw_routes::geo::isqrt;
use gw_routes::planner::plan_insertion;

fn deg(lat: i64, lon: i64) -> Coords {
    Coords { lat: lat * MICRO_PER_DEGREE, lon: lon * MICRO_PER_DEGREE }
}

#[test]
fn isqrt_exact_values() {
    assert_eq!(isqrt(0), 0);
    assert_eq!(isqrt(1), 1);
    assert_eq!(isqrt(3), 1);
    assert_eq!(isqrt(4), 2);
    assert_eq!(isqrt(10), 3);
    assert_eq!(isqrt(99), 9);
    assert_eq!(isqrt(100), 10);
    assert_eq!(isqrt(u64::MAX), 0xFFFF_FFFF);
}

#[test]
fn dist_is_flat_euclidean_on_microdegrees() {
    let a = Coords { lat: 0, lon: 0 };
    let b = Coords { lat: 0, lon: 3_000_000 };
    assert_eq!(dist(&a, &b), 3_000_000);
    let c = Coords { lat: 3, lon: 4 };
    assert_eq!(dist(&Coords { lat: 0, lon: 0 }, &c), 5);
    // Rounded down when the squared sum is no perfect square.
    let d = Coords { lat: 1, lon: 1 };
    assert_eq!(dist(&Coords { lat: 0, lon: 0 }, &d), 1);
}

#[test]
fn insertion_scenario_on_a_meridian() {
    // Trip path (0,0) -> (0,10) -> (0,20); insert request (0,5) -> (0,15).
    let mut path = vec![deg(0, 0), deg(0, 10), deg(0, 20)];
    let plan = plan_insertion(&mut path, deg(0, 5), deg(0, 15));
    assert_eq!(plan.src_idx, 1);
    assert_eq!(plan.dst_idx, 3);
    assert_eq!(plan.cost, 0);
    assert_eq!(path, vec![deg(0, 0), deg(0, 5), deg(0, 10), deg(0, 15), deg(0, 20)]);
}

#[test]
fn drop_off_never_precedes_pickup() {
    // The drop-off sits geographically before the whole path, yet its
    // position must stay strictly after the pickup's.
    let mut path = vec![deg(0, 0), deg(0, 10)];
    let plan = plan_insertion(&mut path, deg(0, 9), deg(0, -50));
    assert!(plan.src_idx < plan.dst_idx);
    assert_eq!(path.len(), 4);
    // The pickup and drop-off are at the reported positions.
    assert_eq!(path[plan.src_idx], deg(0, 9));
    assert_eq!(path[plan.dst_idx], deg(0, -50));
}

#[test]
fn insertion_keeps_relative_order_of_existing_stops() {
    let original = vec![deg(0, 0), deg(10, 10), deg(0, 20), deg(-10, 30)];
    let mut path = original.clone();
    let plan = plan_insertion(&mut path, deg(1, 4), deg(2, 17));
    assert_eq!(path.len(), 6);
    // The original stops appear in the merged path in their old order.
    let kept: Vec<Coords> = path
        .iter()
        .copied()
        .filter(|c| original.contains(c))
        .collect();
    assert_eq!(kept, original);
    let _ = plan;
}

#[test]
fn ties_break_at_the_lowest_edge_index() {
    // Both edges of a degenerate path offer the same delta; the first
    // edge must win for the pickup.
    let mut path = vec![deg(0, 0), deg(0, 0), deg(0, 0)];
    let plan = plan_insertion(&mut path, deg(0, 0), deg(0, 0));
    assert_eq!(plan.src_idx, 1);
    assert_eq!(plan.dst_idx, 2);
    assert_eq!(plan.cost, 0);
}
