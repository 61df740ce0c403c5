use cloud_raster::builder::{Constraint, Decision, Edge, Location, SurfaceBuilder, Vertex};
use cloud_raster::error::{Error, InsertionFailure};
use cloud_raster::point::Point;

fn vertex(handle: usize, x: i64, y: i64, z: i64) -> Vertex {
    Vertex { handle, point: Point::new(x, y, z, 0).unwrap() }
}

fn edge(handle: usize, from: Vertex, to: Vertex) -> Edge {
    Edge { handle, from, to }
}

fn point(z: i64) -> Point {
    Point::new(0, 0, z, 0).unwrap()
}

/// A builder with the watermark at 2 and the edges 10, 11, 12, 13 waiting.
fn loaded(freeze_distance: i64) -> SurfaceBuilder {
    let mut builder = SurfaceBuilder::new(freeze_distance, 1_000, 10_000);
    builder.record_insertion(&point(2_000), &vec![10, 11]);
    builder.record_insertion(&point(6_000), &vec![12, 13]);
    builder
}

fn shown() -> Vec<Edge> {
    vec![
        edge(10, vertex(0, 0, 0, 9_000), vertex(1, 3_000, 0, 0)),
        edge(11, vertex(2, 0, 0, 2_500), vertex(3, 3_000, 4_000, 0)),
        edge(12, vertex(4, 0, 0, 4_000), vertex(5, 3_000, 4_001, 0)),
        edge(13, vertex(6, 0, 0, 2_900), vertex(7, 1, 1, 0)),
    ]
}

#[test]
fn new_builder_waits_for_nothing() {
    let builder = SurfaceBuilder::new(5, 7, 9);
    assert_eq!(builder.freeze_distance(), 5);
    assert_eq!(builder.insertion_buffer(), 7);
    assert_eq!(builder.watermark(), 9);
    assert_eq!(builder.buffer(), Vec::<usize>::new());
}

#[test]
fn insertion_lowers_the_watermark_and_queues_the_edges() {
    let mut builder = SurfaceBuilder::new(0, 0, 10_000);
    builder.record_insertion(&point(4_000), &vec![3, 1]);
    assert_eq!(builder.watermark(), 4_000);
    assert_eq!(builder.buffer(), vec![3, 1]);
    builder.record_insertion(&point(7_000), &vec![2]);
    assert_eq!(builder.watermark(), 4_000);
    assert_eq!(builder.buffer(), vec![3, 1, 2]);
    builder.record_insertion(&point(-1_000), &vec![]);
    assert_eq!(builder.watermark(), -1_000);
    assert_eq!(builder.buffer(), vec![3, 1, 2]);
}

#[test]
fn sweep_evicts_up_to_the_newest_ripe_edge() {
    let mut builder = loaded(5_000);
    let constraints = builder.freeze_sweep(&shown()).unwrap();
    assert_eq!(
        constraints,
        vec![Constraint { from: 0, to: 1 }, Constraint { from: 2, to: 3 }]
    );
    assert_eq!(builder.buffer(), vec![13]);
    assert_eq!(builder.watermark(), 2_000);
}

#[test]
fn sweep_freezes_no_edge_longer_than_the_freeze_distance() {
    let mut builder = loaded(2_999);
    assert_eq!(builder.freeze_sweep(&shown()).unwrap(), vec![]);
    assert_eq!(builder.buffer(), vec![13]);
    let mut builder = loaded(5_001);
    assert_eq!(
        builder.freeze_sweep(&shown()).unwrap(),
        vec![
            Constraint { from: 0, to: 1 },
            Constraint { from: 2, to: 3 },
            Constraint { from: 4, to: 5 }
        ]
    );
}

#[test]
fn sweep_with_negative_freeze_distance_freezes_nothing() {
    let mut builder = loaded(-1);
    assert_eq!(builder.freeze_sweep(&shown()).unwrap(), vec![]);
    assert_eq!(builder.buffer(), vec![13]);
}

#[test]
fn sweep_without_ripe_edge_changes_nothing() {
    let mut builder = SurfaceBuilder::new(5_000, 1_000, 10_000);
    builder.record_insertion(&point(8_000), &vec![10, 11, 12, 13]);
    assert_eq!(builder.freeze_sweep(&shown()).unwrap(), vec![]);
    assert_eq!(builder.buffer(), vec![10, 11, 12, 13]);
}

#[test]
fn sweep_needs_more_than_the_insertion_buffer() {
    let mut builder = SurfaceBuilder::new(5_000, 1_000, 10_000);
    builder.record_insertion(&point(3_000), &vec![12]);
    let at_threshold = vec![edge(12, vertex(4, 0, 0, 4_000), vertex(5, 1, 0, 0))];
    assert_eq!(builder.freeze_sweep(&at_threshold).unwrap(), vec![]);
    assert_eq!(builder.buffer(), vec![12]);
    let above = vec![edge(12, vertex(4, 0, 0, 4_001), vertex(5, 1, 0, 0))];
    assert_eq!(builder.freeze_sweep(&above).unwrap(), vec![Constraint { from: 4, to: 5 }]);
    assert_eq!(builder.buffer(), Vec::<usize>::new());
}

#[test]
fn sweep_of_an_empty_buffer_gives_nothing() {
    let mut builder = SurfaceBuilder::new(5_000, 1_000, 10_000);
    assert_eq!(builder.freeze_sweep(&vec![]).unwrap(), vec![]);
}

#[test]
fn sweep_refuses_edges_that_are_not_the_buffered_ones() {
    let mut builder = loaded(5_000);
    let mut short = shown();
    short.pop();
    assert!(matches!(builder.freeze_sweep(&short), Err(Error::ShouldntHappen(_))));
    let mut other = shown();
    other[2].handle = 99;
    assert!(matches!(builder.freeze_sweep(&other), Err(Error::ShouldntHappen(_))));
    assert_eq!(builder.buffer(), vec![10, 11, 12, 13]);
    assert_eq!(builder.watermark(), 2_000);
}

#[test]
fn point_in_a_face_is_inserted_unless_the_face_is_frozen() {
    let builder = SurfaceBuilder::new(0, 0, 0);
    let p = point(1_000);
    for (first, second, third) in [
        (false, false, false),
        (true, false, false),
        (true, true, false),
        (false, true, true),
        (true, false, true),
    ] {
        let location = Location::OnFace { first, second, third };
        assert_eq!(builder.decide(&p, &location), Decision::InsertNew);
    }
    let frozen = Location::OnFace { first: true, second: true, third: true };
    assert_eq!(builder.decide(&p, &frozen), Decision::Skip);
}

#[test]
fn point_on_a_vertex_is_merged_only_if_it_rises_above_the_watermark() {
    let p = point(5_000);
    let location = Location::OnVertex { elevation: 3_000 };
    assert_eq!(SurfaceBuilder::new(0, 0, 1_999).decide(&p, &location), Decision::MergeDuplicate);
    assert_eq!(SurfaceBuilder::new(0, 0, 2_000).decide(&p, &location), Decision::Skip);
    assert_eq!(SurfaceBuilder::new(0, 0, i64::MIN).decide(&p, &location), Decision::MergeDuplicate);
    assert_eq!(SurfaceBuilder::new(0, 0, i64::MAX).decide(&p, &location), Decision::Skip);
}

#[test]
fn point_on_an_edge_is_inserted_unless_the_edge_is_a_constraint() {
    let builder = SurfaceBuilder::new(0, 0, 0);
    let p = point(1_000);
    assert_eq!(builder.decide(&p, &Location::OnEdge { constrained: false }), Decision::InsertNew);
    assert_eq!(builder.decide(&p, &Location::OnEdge { constrained: true }), Decision::Skip);
}

#[test]
fn point_in_no_face_is_inserted() {
    let builder = SurfaceBuilder::new(0, 0, i64::MAX);
    assert_eq!(builder.decide(&point(1_000), &Location::Outside), Decision::InsertNew);
}

#[test]
fn outcome_of_an_insertion_is_recorded() {
    let mut builder = SurfaceBuilder::new(0, 0, 10_000);
    assert_eq!(builder.record_outcome(&point(4_000), &Ok(vec![3, 1])), Ok(()));
    assert_eq!(builder.watermark(), 4_000);
    assert_eq!(builder.buffer(), vec![3, 1]);
}

#[test]
fn refused_insertion_ends_the_build() {
    for failure in [
        InsertionFailure::TooSmall,
        InsertionFailure::TooLarge,
        InsertionFailure::NotANumber,
    ] {
        let mut builder = SurfaceBuilder::new(0, 0, 10_000);
        builder.record_insertion(&point(9_000), &vec![7]);
        assert_eq!(
            builder.record_outcome(&point(4_000), &Err(failure)),
            Err(Error::Insertion(failure))
        );
        assert_eq!(builder.watermark(), 9_000);
        assert_eq!(builder.buffer(), vec![7]);
    }
}
