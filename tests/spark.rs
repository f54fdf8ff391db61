use electric_grid::network::{CableError, Network};
use electric_grid::spark::{sample_bracket, Spark, UNIT};

type Pos = (i32, i32, i32);

/// Three points in a row, with cable `a` from the first to the second and `b`
/// from the second to the third.
fn chain() -> (Network<Pos, u32>, u64, u64) {
    let mut net: Network<Pos, u32> = Network::new();
    let p0 = net.create_connection_point((0, 0, 0), (0, 0, 0), None);
    let p1 = net.create_connection_point((0, 2, 3), (0, 0, 0), None);
    let p2 = net.create_connection_point((0, 4, 6), (0, 0, 0), None);
    let a = net.spawn_cable(p0, p1, 1).unwrap();
    let b = net.spawn_cable(p1, p2, 1).unwrap();
    (net, a, b)
}

#[test]
fn new_spark_starts_at_cable_start() {
    let spark = Spark::new(3, 250_000);
    assert_eq!(spark.cable, 3);
    assert_eq!(spark.speed, 250_000);
    assert_eq!(spark.dist_along, 0);
}

#[test]
fn small_step_stays_on_cable() {
    let (net, a, _) = chain();
    let mut spark = Spark::new(a, 1);
    spark.dist_along = 400_000;
    assert_eq!(spark.advance(&net, 100_000), Ok(()));
    assert_eq!((spark.cable, spark.dist_along), (a, 500_000));
    assert_eq!(spark.advance(&net, -500_000), Ok(()));
    assert_eq!((spark.cable, spark.dist_along), (a, 0));
    assert_eq!(spark.advance(&net, UNIT), Ok(()));
    assert_eq!((spark.cable, spark.dist_along), (a, UNIT));
}

#[test]
fn overshoot_crosses_junction() {
    let (net, a, b) = chain();
    let mut spark = Spark::new(a, 1);
    spark.dist_along = 950_000;
    assert_eq!(spark.advance(&net, 100_000), Ok(()));
    assert_eq!((spark.cable, spark.dist_along), (b, 50_000));
}

#[test]
fn undershoot_crosses_back() {
    let (net, a, b) = chain();
    let mut spark = Spark::new(b, 1);
    spark.dist_along = 50_000;
    assert_eq!(spark.advance(&net, -100_000), Ok(()));
    assert_eq!((spark.cable, spark.dist_along), (a, 950_000));
}

#[test]
fn end_of_line_clamps() {
    let (net, _, b) = chain();
    let mut spark = Spark::new(b, 1);
    spark.dist_along = 900_000;
    assert_eq!(spark.advance(&net, 300_000), Ok(()));
    assert_eq!((spark.cable, spark.dist_along), (b, UNIT));
}

#[test]
fn start_of_line_clamps() {
    let (net, a, _) = chain();
    let mut spark = Spark::new(a, 1);
    spark.dist_along = 100_000;
    assert_eq!(spark.advance(&net, -300_000), Ok(()));
    assert_eq!((spark.cable, spark.dist_along), (a, 0));
}

#[test]
fn fast_step_crosses_several_cables() {
    let (net, a, b) = chain();
    let mut spark = Spark::new(a, 1);
    assert_eq!(spark.advance(&net, 1_700_000), Ok(()));
    assert_eq!((spark.cable, spark.dist_along), (b, 700_000));
    assert_eq!(spark.advance(&net, 5 * UNIT), Ok(()));
    assert_eq!((spark.cable, spark.dist_along), (b, UNIT));
}

#[test]
fn junction_picks_lowest_cable_id() {
    let mut net: Network<Pos, u32> = Network::new();
    let p0 = net.create_connection_point((0, 0, 0), (0, 0, 0), None);
    let p1 = net.create_connection_point((1, 0, 0), (0, 0, 0), None);
    let p2 = net.create_connection_point((2, 0, 0), (0, 0, 0), None);
    let p3 = net.create_connection_point((2, 1, 0), (0, 0, 0), None);
    let a = net.spawn_cable(p0, p1, 1).unwrap();
    let first = net.spawn_cable(p1, p2, 1).unwrap();
    let _second = net.spawn_cable(p1, p3, 1).unwrap();
    let mut spark = Spark::new(a, 1);
    spark.dist_along = UNIT;
    assert_eq!(spark.advance(&net, 10), Ok(()));
    assert_eq!((spark.cable, spark.dist_along), (first, 10));
}

#[test]
fn cycle_bound_reports_error_and_keeps_state() {
    let mut net: Network<Pos, u32> = Network::new();
    let p0 = net.create_connection_point((0, 0, 0), (0, 0, 0), None);
    let p1 = net.create_connection_point((1, 0, 0), (0, 0, 0), None);
    let a = net.spawn_cable(p0, p1, 1).unwrap();
    let _b = net.spawn_cable(p1, p0, 1).unwrap();
    let mut spark = Spark::new(a, 1);
    spark.dist_along = 300_000;
    assert_eq!(spark.advance(&net, 10 * UNIT), Err(CableError::TraversalCycle));
    assert_eq!((spark.cable, spark.dist_along), (a, 300_000));
    assert_eq!(spark.advance(&net, 2 * UNIT), Ok(()));
    assert_eq!((spark.cable, spark.dist_along), (a, 300_000));
}

#[test]
fn sample_bracket_exact_values() {
    assert_eq!(sample_bracket(0, 10), (0, 0, 0));
    assert_eq!(sample_bracket(UNIT, 10), (10, 10, 0));
    assert_eq!(sample_bracket(500_000, 10), (5, 5, 0));
    assert_eq!(sample_bracket(250_000, 10), (2, 3, 500_000));
    assert_eq!(sample_bracket(333_333, 3), (0, 1, 999_999));
}
