use cloud_raster::builder::{prepare_points, Decision, Edge, Location, SurfaceBuilder, Vertex};
use cloud_raster::error::{Error, InsertionFailure};
use cloud_raster::point::{Bounds, Point, PointRecord, Variable, Vector};
use cloud_raster::sampler::{get_raster_size, sample_position, sample_raster, Located};
use cloud_raster::scalar::NODATA;
use spade::handles::{FixedDirectedEdgeHandle, FixedVertexHandle};
use spade::{
    ConstrainedDelaunayTriangulation, HasPosition, InsertionError, Point2,
    PositionInTriangulation, Triangulation,
};

struct Node {
    position: Point2<f64>,
    point: Point,
}

impl HasPosition for Node {
    type Scalar = f64;

    fn position(&self) -> Point2<f64> {
        self.position
    }
}

type Mesh = ConstrainedDelaunayTriangulation<Node>;

fn node(point: Point) -> Node {
    Node { position: Point2::new(point.x() as f64, point.y() as f64), point }
}

fn refused(error: InsertionError) -> InsertionFailure {
    match error {
        InsertionError::TooSmall => InsertionFailure::TooSmall,
        InsertionError::TooLarge => InsertionFailure::TooLarge,
        InsertionError::NAN => InsertionFailure::NotANumber,
    }
}

fn shown(mesh: &Mesh, handle: usize) -> Edge {
    let fixed: FixedDirectedEdgeHandle = mesh.fixed_directed_edges().nth(handle).unwrap();
    let [from, to] = mesh.directed_edge(fixed).vertices();
    Edge {
        handle,
        from: Vertex { handle: from.fix().index(), point: from.data().point },
        to: Vertex { handle: to.fix().index(), point: to.data().point },
    }
}

fn build(records: &Vec<PointRecord>, var: Variable, freeze: i64, slack: i64) -> Result<Mesh, Error> {
    let (points, watermark) = prepare_points(records, &var);
    let mut builder = SurfaceBuilder::new(freeze, slack, watermark);
    let mut mesh = Mesh::new();
    for point in points {
        let edges: Vec<Edge> = builder.buffer().into_iter().map(|h| shown(&mesh, h)).collect();
        for c in builder.freeze_sweep(&edges)? {
            mesh.add_constraint(
                FixedVertexHandle::from_index(c.from),
                FixedVertexHandle::from_index(c.to),
            );
        }
        let location = match mesh.locate(node(point).position) {
            PositionInTriangulation::OnFace(face) => {
                let [a, b, c] = mesh.face(face).adjacent_edges();
                Location::OnFace {
                    first: a.is_constraint_edge(),
                    second: b.is_constraint_edge(),
                    third: c.is_constraint_edge(),
                }
            }
            PositionInTriangulation::OnVertex(v) => {
                Location::OnVertex { elevation: mesh.vertex(v).data().point.z() }
            }
            PositionInTriangulation::OnEdge(e) => {
                Location::OnEdge { constrained: mesh.is_constraint_edge(e.as_undirected()) }
            }
            _ => Location::Outside,
        };
        if builder.decide(&point, &location) != Decision::Skip {
            let outcome = match mesh.insert(node(point)) {
                Ok(v) => Ok(mesh.vertex(v).out_edges().map(|e| e.fix().index()).collect()),
                Err(e) => Err(refused(e)),
            };
            builder.record_outcome(&point, &outcome)?;
        }
    }
    Ok(mesh)
}

fn sample(mesh: &Mesh, bounds: &Bounds, res: i64) -> Result<Vec<i64>, Error> {
    let (width, height) = get_raster_size(bounds, res);
    let mut cells: Vec<Located> = Vec::new();
    for row in 0..height {
        for column in 0..width {
            let (x, y) = sample_position(bounds, res, column, row).unwrap();
            cells.push(match mesh.locate(Point2::new(x as f64, y as f64)) {
                PositionInTriangulation::OnVertex(v) => Located::Vertex(mesh.vertex(v).data().point),
                PositionInTriangulation::OnEdge(e) => {
                    let [a, b] = mesh.directed_edge(e).vertices();
                    Located::Edge(a.data().point, b.data().point)
                }
                PositionInTriangulation::OnFace(f) => {
                    let [a, b, c] = mesh.face(f).vertices();
                    Located::Face(a.data().point, b.data().point, c.data().point)
                }
                _ => Located::Outside,
            });
        }
    }
    sample_raster(bounds, res, &cells)
}

fn triangulate(
    records: &Vec<PointRecord>,
    bounds: &Bounds,
    var: Variable,
    res: i64,
    freeze: i64,
    slack: i64,
) -> Result<Vec<i64>, Error> {
    sample(&build(records, var, freeze, slack)?, bounds, res)
}

fn extent(min_x: i64, min_y: i64, max_x: i64, max_y: i64) -> Bounds {
    Bounds {
        min: Vector { x: min_x, y: min_y, z: 0 },
        max: Vector { x: max_x, y: max_y, z: 0 },
    }
}

fn level_square() -> Vec<PointRecord> {
    [(0, 0), (10_000, 0), (0, 10_000), (10_000, 10_000)]
        .into_iter()
        .map(|(x, y)| PointRecord::new(x, y, 7_000, 0, 2).unwrap())
        .collect()
}

#[test]
fn level_square_samples_to_its_level() {
    let bounds = extent(0, 0, 10_000, 10_000);
    let raster =
        triangulate(&level_square(), &bounds, Variable::Z, 10_000, 100_000, 100_000).unwrap();
    assert_eq!(raster, vec![7_000]);
}

#[test]
fn level_square_samples_to_its_level_in_every_cell() {
    let bounds = extent(0, 0, 10_000, 10_000);
    let raster =
        triangulate(&level_square(), &bounds, Variable::Z, 2_500, 100_000, 100_000).unwrap();
    assert_eq!(raster, vec![7_000; 16]);
    let wide = extent(0, 0, 20_000, 10_000);
    let raster = triangulate(&level_square(), &wide, Variable::Z, 10_000, 100_000, 100_000).unwrap();
    assert_eq!(raster, vec![7_000, 7_000]);
}

#[test]
fn cells_outside_the_hull_have_no_data() {
    let bounds = extent(-10_000, 0, 30_000, 10_000);
    let raster =
        triangulate(&level_square(), &bounds, Variable::Z, 10_000, 100_000, 100_000).unwrap();
    assert_eq!(raster, vec![NODATA, 7_000, 7_000, NODATA]);
}

#[test]
fn slope_is_sampled_exactly() {
    let records: Vec<PointRecord> = [(0, 0), (10_000, 0), (0, 10_000), (10_000, 10_000)]
        .into_iter()
        .map(|(x, y)| PointRecord::new(x, y, x + 2 * y, 0, 2).unwrap())
        .collect();
    let bounds = extent(0, 0, 10_000, 10_000);
    let raster = triangulate(&records, &bounds, Variable::Z, 5_000, 0, 0).unwrap();
    assert_eq!(raster, vec![0, 5_000, 10_000, 15_000]);
}

#[test]
fn building_twice_gives_the_same_raster() {
    let records: Vec<PointRecord> = (0..60i64)
        .map(|i| {
            let x = (i * 37) % 11 * 1_000;
            let y = (i * 53) % 13 * 1_000;
            PointRecord::new(x, y, (i * 29) % 7 * 1_000, (i % 5) as u16, (i % 19) as u8).unwrap()
        })
        .collect();
    let bounds = extent(0, 0, 10_000, 12_000);
    let once = triangulate(&records, &bounds, Variable::Z, 1_000, 3_000, 2_000).unwrap();
    let twice = triangulate(&records, &bounds, Variable::Z, 1_000, 3_000, 2_000).unwrap();
    assert_eq!(once.len(), 120);
    assert_eq!(once, twice);
}

#[test]
fn noise_does_not_reach_the_surface() {
    let mut records = level_square();
    records.push(PointRecord::new(5_000, 5_000, 900_000, 0, 18).unwrap());
    let bounds = extent(0, 0, 10_000, 10_000);
    let raster = triangulate(&records, &bounds, Variable::Z, 5_000, 0, 0).unwrap();
    assert_eq!(raster, vec![7_000; 4]);
}

#[test]
fn frozen_edges_are_short_and_stay() {
    let mut records: Vec<PointRecord> = Vec::new();
    for i in 0..8i64 {
        for j in 0..8i64 {
            let z = 100_000 - (i * 8 + j) * 1_000;
            records.push(PointRecord::new(i * 1_000, j * 1_000, z, 0, 2).unwrap());
        }
    }
    let mesh = build(&records, Variable::Z, 1_500, 3_000).unwrap();
    let mut frozen = 0;
    for e in mesh.undirected_edges() {
        if e.is_constraint_edge() {
            let [a, b] = e.vertices();
            let dx = a.data().point.x() - b.data().point.x();
            let dy = a.data().point.y() - b.data().point.y();
            assert!(dx * dx + dy * dy <= 1_500 * 1_500);
            frozen += 1;
        }
    }
    assert!(frozen > 0);
    assert_eq!(mesh.num_constraints(), frozen);
}
