use crate::error::{Error, InsertionFailure};
use crate::order::{is_stable_sort, stable_sort};
use crate::point::{Point, PointRecord, Variable};
use std::collections::VecDeque;
use vstd::prelude::*;
use vstd::string::*;

verus! {

/// A vertex of the triangulation: its handle and what it holds.
#[derive(Clone, Copy, Debug)]
pub struct Vertex {
    pub handle: usize,
    pub point: Point,
}

/// A directed edge of the triangulation as it is when the freeze check looks
/// at it: its handle and the two vertices that it joins at that moment.
#[derive(Clone, Copy, Debug)]
pub struct Edge {
    pub handle: usize,
    pub from: Vertex,
    pub to: Vertex,
}

/// Two vertices whose edge is to become a constraint.
#[derive(Clone, Copy, Debug, PartialEq, Eq, Structural)]
pub struct Constraint {
    pub from: usize,
    pub to: usize,
}

/// Where the planar position of a point lies in the triangulation.
#[derive(Clone, Copy, Debug, PartialEq, Eq, Structural)]
pub enum Location {
    /// Inside a face; for each of its three edges, whether it is a constraint.
    OnFace { first: bool, second: bool, third: bool },
    /// On a vertex of the given elevation.
    OnVertex { elevation: i64 },
    /// On an edge; whether that edge is a constraint.
    OnEdge { constrained: bool },
    /// In no face: the triangulation is empty or the position is outside
    /// its hull.
    Outside,
}

/// What becomes of a point.
#[derive(Clone, Copy, Debug, PartialEq, Eq, Structural)]
pub enum Decision {
    /// It becomes a new vertex.
    InsertNew,
    /// It takes the place of the vertex at its position.
    MergeDuplicate,
    /// It is dropped.
    Skip,
}

/// The rule that decides what becomes of a point of the given elevation.
pub open spec fn policy(location: Location, elevation: int, watermark: int) -> Decision {
    match location {
        Location::OnFace { first, second, third } => if first && second && third {
            Decision::Skip
        } else {
            Decision::InsertNew
        },
        Location::OnVertex { elevation: existing } => if elevation - existing > watermark {
            Decision::MergeDuplicate
        } else {
            Decision::Skip
        },
        Location::OnEdge { constrained } => if constrained {
            Decision::Skip
        } else {
            Decision::InsertNew
        },
        Location::Outside => Decision::InsertNew,
    }
}

/// Every point meets exactly one of the three fates, and which one depends on
/// nothing but where it lies, its elevation and the watermark.
pub proof fn lemma_one_outcome(location: Location, elevation: int, watermark: int)
    ensures
        ({
            let d = policy(location, elevation, watermark);
            let inserted: int = if d == Decision::InsertNew { 1 } else { 0 };
            let merged: int = if d == Decision::MergeDuplicate { 1 } else { 0 };
            let skipped: int = if d == Decision::Skip { 1 } else { 0 };
            &&& inserted + merged + skipped == 1
            &&& d == Decision::MergeDuplicate <==> match location {
                Location::OnVertex { elevation: existing } => elevation - existing > watermark,
                _ => false,
            }
            &&& d == Decision::InsertNew <==> match location {
                Location::OnFace { first, second, third } => !(first && second && third),
                Location::OnVertex { .. } => false,
                Location::OnEdge { constrained } => !constrained,
                Location::Outside => true,
            }
        }),
{
}

/// Whether the edge starts high enough above the watermark to be frozen.
pub open spec fn is_ripe(edge: Edge, watermark: int, insertion_buffer: int) -> bool {
    edge.from.point@.z > watermark + insertion_buffer
}

/// How many edges leave the buffer: all up to the newest ripe edge, that one
/// too, and none where no edge is ripe.
pub open spec fn evicted_count(edges: Seq<Edge>, watermark: int, insertion_buffer: int) -> int
    decreases edges.len(),
{
    if edges.len() == 0 {
        0
    } else if is_ripe(edges.last(), watermark, insertion_buffer) {
        edges.len() as int
    } else {
        evicted_count(edges.drop_last(), watermark, insertion_buffer)
    }
}

/// The edges that leave the buffer end with the newest ripe edge: where some
/// leave, the last to leave is ripe and no edge that stays is; where none
/// leaves, no edge is ripe.
pub proof fn lemma_evicted_up_to_newest_ripe(
    edges: Seq<Edge>,
    watermark: int,
    insertion_buffer: int,
)
    ensures
        ({
            let n = evicted_count(edges, watermark, insertion_buffer);
            &&& 0 <= n <= edges.len()
            &&& n > 0 ==> is_ripe(edges[n - 1], watermark, insertion_buffer)
            &&& forall|i: int|
                n <= i < edges.len() ==> !is_ripe(#[trigger] edges[i], watermark, insertion_buffer)
        }),
    decreases edges.len(),
{
    if edges.len() > 0 && !is_ripe(edges.last(), watermark, insertion_buffer) {
        lemma_evicted_up_to_newest_ripe(edges.drop_last(), watermark, insertion_buffer);
        let n = evicted_count(edges, watermark, insertion_buffer);
        assert forall|i: int| n <= i < edges.len() implies !is_ripe(
            #[trigger] edges[i],
            watermark,
            insertion_buffer,
        ) by {
            if i < edges.len() - 1 {
                assert(edges[i] == edges.drop_last()[i]);
            }
        }
    }
}

/// The square of the planar length of the edge.
pub open spec fn length_squared(edge: Edge) -> int {
    let dx = edge.from.point@.x - edge.to.point@.x;
    let dy = edge.from.point@.y - edge.to.point@.y;
    dx * dx + dy * dy
}

/// Whether the edge is no longer than the freeze distance.
pub open spec fn is_short(edge: Edge, freeze_distance: int) -> bool {
    freeze_distance >= 0 && length_squared(edge) <= freeze_distance * freeze_distance
}

/// The test that picks the edges no longer than the freeze distance.
pub open spec fn short_edges(freeze_distance: int) -> spec_fn(Edge) -> bool {
    |e: Edge| is_short(e, freeze_distance)
}

/// The two ends of an edge.
pub open spec fn ends(edge: Edge) -> Constraint {
    Constraint { from: edge.from.handle, to: edge.to.handle }
}

/// The constraints that a run of evicted edges gives: the ends of each one
/// that is no longer than the freeze distance, oldest first.
pub open spec fn frozen(edges: Seq<Edge>, freeze_distance: int) -> Seq<Constraint> {
    edges.filter(short_edges(freeze_distance)).map_values(|e: Edge| ends(e))
}

/// Whether `edges` shows the buffered edges, one for one and in their order.
pub open spec fn shows(edges: Seq<Edge>, buffer: Seq<usize>) -> bool {
    &&& edges.len() == buffer.len()
    &&& forall|i: int| 0 <= i < edges.len() ==> edges[i].handle == buffer[i]
}

/// The highest elevation among the points, noise or not; the lowest scalar
/// where there is no point.
pub open spec fn highest_elevation(records: Seq<PointRecord>) -> int
    decreases records.len(),
{
    if records.len() == 0 {
        i64::MIN as int
    } else {
        let rest = highest_elevation(records.drop_last());
        if records.last()@.z > rest {
            records.last()@.z
        } else {
            rest
        }
    }
}

/// No point is higher than the highest elevation, and some point is that
/// high unless there is none.
pub proof fn lemma_highest_elevation(records: Seq<PointRecord>)
    ensures
        forall|i: int|
            0 <= i < records.len() ==> (#[trigger] records[i])@.z <= highest_elevation(records),
        records.len() > 0 ==> exists|i: int|
            0 <= i < records.len() && (#[trigger] records[i])@.z == highest_elevation(records),
    decreases records.len(),
{
    if records.len() > 0 {
        let rest = records.drop_last();
        let last = records.len() - 1;
        lemma_highest_elevation(rest);
        records[last].lemma_scalars();
        assert forall|i: int| 0 <= i < records.len() implies (#[trigger] records[i])@.z
            <= highest_elevation(records) by {
            if i < last {
                assert(records[i] == rest[i]);
            }
        }
        if records[last]@.z > highest_elevation(rest) || rest.len() == 0 {
            assert(records[last]@.z == highest_elevation(records));
        } else {
            let i = choose|i: int|
                0 <= i < rest.len() && (#[trigger] rest[i])@.z == highest_elevation(rest);
            assert(records[i] == rest[i]);
        }
    }
}

/// The test that picks the points that are not noise.
pub open spec fn not_noise() -> spec_fn(PointRecord) -> bool {
    |r: PointRecord| !r@.is_noise()
}

/// The vertices that the points other than noise become, in their order.
pub open spec fn kept(records: Seq<PointRecord>, var: Variable) -> Seq<Point> {
    records.filter(not_noise()).map_values(|r: PointRecord| r.as_vertex(var))
}

/// Every frozen edge is no longer than the freeze distance: each constraint
/// is the pair of ends of an evicted edge that short.
pub proof fn lemma_frozen_are_short(edges: Seq<Edge>, freeze_distance: int, i: int)
    requires
        0 <= i < frozen(edges, freeze_distance).len(),
    ensures
        exists|j: int|
            0 <= j < edges.len() && is_short(#[trigger] edges[j], freeze_distance) && frozen(
                edges,
                freeze_distance,
            )[i] == ends(edges[j]),
{
    let short = edges.filter(short_edges(freeze_distance));
    let e = short[i];
    edges.lemma_filter_pred(short_edges(freeze_distance), i);
    assert(short.contains(e));
    edges.lemma_filter_contains_rev(short_edges(freeze_distance), e);
    let j = choose|j: int| 0 <= j < edges.len() && edges[j] == e;
    assert(is_short(edges[j], freeze_distance));
}

proof fn lemma_frozen_push(edges: Seq<Edge>, e: Edge, freeze_distance: int)
    ensures
        frozen(edges.push(e), freeze_distance) == if is_short(e, freeze_distance) {
            frozen(edges, freeze_distance).push(ends(e))
        } else {
            frozen(edges, freeze_distance)
        },
{
    reveal(Seq::filter);
    assert(edges.push(e).drop_last() =~= edges);
    let short = edges.filter(short_edges(freeze_distance));
    if is_short(e, freeze_distance) {
        assert(short.push(e).map_values(|e: Edge| ends(e)) =~= short.map_values(
            |e: Edge| ends(e),
        ).push(ends(e)));
    }
}

proof fn lemma_kept_push(records: Seq<PointRecord>, r: PointRecord, var: Variable)
    ensures
        kept(records.push(r), var) == if r@.is_noise() {
            kept(records, var)
        } else {
            kept(records, var).push(r.as_vertex(var))
        },
{
    reveal(Seq::filter);
    assert(records.push(r).drop_last() =~= records);
    let rest = records.filter(not_noise());
    if !r@.is_noise() {
        assert(rest.push(r).map_values(|r: PointRecord| r.as_vertex(var)) =~= rest.map_values(
            |r: PointRecord| r.as_vertex(var),
        ).push(r.as_vertex(var)));
    }
}

/// Readies a point cloud for the sweep: the watermark to start from is the
/// highest elevation of all its points, and the vertices are the points other
/// than noise, highest first, those of one elevation in their given order.
pub fn prepare_points(records: &Vec<PointRecord>, var: &Variable) -> (r: (Vec<Point>, i64))
    ensures
        is_stable_sort(kept(records@, *var), r.0@),
        r.1 == highest_elevation(records@),
{
    let mut points: Vec<Point> = Vec::new();
    let mut watermark: i64 = i64::MIN;
    let mut i: usize = 0;
    proof {
        assert(records@.take(0) =~= Seq::<PointRecord>::empty());
        reveal(Seq::filter);
        assert(kept(records@.take(0), *var) =~= points@);
    }
    while i < records.len()
        invariant
            i <= records@.len(),
            points@ == kept(records@.take(i as int), *var),
            watermark == highest_elevation(records@.take(i as int)),
        decreases records@.len() - i,
    {
        let record: &PointRecord = &records[i];
        proof {
            assert(records@.take(i + 1) =~= records@.take(i as int).push(*record));
            assert(records@.take(i + 1).drop_last() =~= records@.take(i as int));
            lemma_kept_push(records@.take(i as int), *record, *var);
        }
        if record.z() > watermark {
            watermark = record.z();
        }
        if !record.is_noise() {
            points.push(Point::from_record(record, var));
        }
        i = i + 1;
    }
    proof {
        assert(records@.take(i as int) =~= records@);
    }
    (stable_sort(&points), watermark)
}

/// What a builder is to the contracts.
pub struct SurfaceBuilderView {
    pub freeze_distance: int,
    pub insertion_buffer: int,
    pub watermark: int,
    pub buffer: Seq<usize>,
}

/// The part of a surface under construction that the triangulation does not
/// hold: the watermark of the sweep and the edges that wait to be frozen,
/// oldest first.
pub struct SurfaceBuilder {
    freeze_distance: i64,
    insertion_buffer: i64,
    watermark: i64,
    buffer: VecDeque<usize>,
}

impl View for SurfaceBuilder {
    type V = SurfaceBuilderView;

    closed spec fn view(&self) -> SurfaceBuilderView {
        SurfaceBuilderView {
            freeze_distance: self.freeze_distance as int,
            insertion_buffer: self.insertion_buffer as int,
            watermark: self.watermark as int,
            buffer: self.buffer@,
        }
    }
}

impl SurfaceBuilder {
    /// A builder with no edge waiting.
    pub fn new(freeze_distance: i64, insertion_buffer: i64, watermark: i64) -> (b: SurfaceBuilder)
        ensures
            b@ == (SurfaceBuilderView {
                freeze_distance: freeze_distance as int,
                insertion_buffer: insertion_buffer as int,
                watermark: watermark as int,
                buffer: Seq::<usize>::empty(),
            }),
    {
        SurfaceBuilder { freeze_distance, insertion_buffer, watermark, buffer: VecDeque::new() }
    }

    /// The lowest elevation inserted so far.
    pub fn watermark(&self) -> (w: i64)
        ensures
            w == self@.watermark,
    {
        self.watermark
    }

    /// The length up to which an edge is frozen.
    pub fn freeze_distance(&self) -> (d: i64)
        ensures
            d == self@.freeze_distance,
    {
        self.freeze_distance
    }

    /// How far above the watermark an edge must start to be frozen.
    pub fn insertion_buffer(&self) -> (d: i64)
        ensures
            d == self@.insertion_buffer,
    {
        self.insertion_buffer
    }

    /// The handles of the edges that wait to be frozen, oldest first.
    pub fn buffer(&self) -> (handles: Vec<usize>)
        ensures
            handles@ == self@.buffer,
    {
        let mut handles: Vec<usize> = Vec::new();
        let mut i: usize = 0;
        while i < self.buffer.len()
            invariant
                i <= self.buffer@.len(),
                handles@ == self.buffer@.take(i as int),
            decreases self.buffer@.len() - i,
        {
            handles.push(self.buffer[i]);
            proof {
                assert(self.buffer@.take(i + 1) =~= self.buffer@.take(i as int).push(
                    self.buffer@[i as int],
                ));
            }
            i = i + 1;
        }
        proof {
            assert(self.buffer@.take(i as int) =~= self.buffer@);
        }
        handles
    }

    fn edge_is_ripe(&self, edge: &Edge) -> (b: bool)
        ensures
            b == is_ripe(*edge, self@.watermark, self@.insertion_buffer),
    {
        let threshold: i128 = self.watermark as i128 + self.insertion_buffer as i128;
        edge.from.point.z() as i128 > threshold
    }

    fn edge_is_short(&self, edge: &Edge) -> (b: bool)
        ensures
            b == is_short(*edge, self@.freeze_distance),
    {
        if self.freeze_distance < 0 {
            return false;
        }
        let dx: i128 = edge.from.point.x() as i128 - edge.to.point.x() as i128;
        let dy: i128 = edge.from.point.y() as i128 - edge.to.point.y() as i128;
        let reach: i128 = self.freeze_distance as i128;
        proof {
            assert(0 <= dx * dx <= 0x200_0000_0000 * 0x200_0000_0000) by (nonlinear_arith)
                requires
                    -0x200_0000_0000 <= dx <= 0x200_0000_0000,
            ;
            assert(0 <= dy * dy <= 0x200_0000_0000 * 0x200_0000_0000) by (nonlinear_arith)
                requires
                    -0x200_0000_0000 <= dy <= 0x200_0000_0000,
            ;
            assert(0 <= reach * reach <= 0x8000_0000_0000_0000 * 0x8000_0000_0000_0000)
                by (nonlinear_arith)
                requires
                    0 <= reach <= 0x8000_0000_0000_0000,
            ;
        }
        dx * dx + dy * dy <= reach * reach
    }

    /// The freeze check that goes before every point. `edges` shows the
    /// buffered edges as the triangulation has them now. From the newest edge
    /// back, the first one that starts more than the insertion buffer above
    /// the watermark is sought; it leaves the buffer with all that are older,
    /// and the result names those of them that are to become constraints:
    /// each one no longer than the freeze distance. Where `edges` does not
    /// show the buffer, nothing changes and the check fails.
    pub fn freeze_sweep(&mut self, edges: &Vec<Edge>) -> (r: Result<Vec<Constraint>, Error>)
        ensures
            r.is_ok() <==> shows(edges@, old(self)@.buffer),
            r matches Ok(constraints) ==> {
                let n = evicted_count(
                    edges@,
                    old(self)@.watermark,
                    old(self)@.insertion_buffer,
                );
                &&& 0 <= n <= edges@.len()
                &&& constraints@ == frozen(edges@.take(n), old(self)@.freeze_distance)
                &&& final(self)@ == (SurfaceBuilderView {
                    buffer: old(self)@.buffer.skip(n),
                    ..old(self)@
                })
            },
            r matches Err(e) ==> e is ShouldntHappen && final(self)@ == old(self)@,
    {
        if edges.len() != self.buffer.len() {
            return Err(
                Error::ShouldntHappen(
                    String::from_str("the edges shown are not as many as the edges buffered"),
                ),
            );
        }
        let mut i: usize = 0;
        while i < edges.len()
            invariant
                i <= edges@.len(),
                edges@.len() == self.buffer@.len(),
                forall|j: int| 0 <= j < i ==> edges@[j].handle == self.buffer@[j],
            decreases edges@.len() - i,
        {
            if edges[i].handle != self.buffer[i] {
                return Err(
                    Error::ShouldntHappen(
                        String::from_str("an edge shown is not the edge buffered"),
                    ),
                );
            }
            i = i + 1;
        }
        let mut n: usize = edges.len();
        proof {
            assert(edges@.take(n as int) =~= edges@);
        }
        while n > 0 && !self.edge_is_ripe(&edges[n - 1])
            invariant
                n <= edges@.len(),
                evicted_count(edges@, self@.watermark, self@.insertion_buffer) == evicted_count(
                    edges@.take(n as int),
                    self@.watermark,
                    self@.insertion_buffer,
                ),
            decreases n,
        {
            proof {
                assert(edges@.take(n as int).drop_last() =~= edges@.take(n - 1));
            }
            n = n - 1;
        }
        proof {
            if n > 0 {
                assert(edges@.take(n as int).last() == edges@[n - 1]);
            }
        }
        let mut constraints: Vec<Constraint> = Vec::new();
        let mut e: usize = 0;
        proof {
            reveal(Seq::filter);
            assert(frozen(edges@.take(0), self@.freeze_distance) =~= constraints@);
            assert(self.buffer@.skip(0) =~= self.buffer@);
        }
        while e < n
            invariant
                e <= n <= edges@.len(),
                edges@.len() == old(self).buffer@.len(),
                self.buffer@ == old(self).buffer@.skip(e as int),
                self.freeze_distance == old(self).freeze_distance,
                self.insertion_buffer == old(self).insertion_buffer,
                self.watermark == old(self).watermark,
                constraints@ == frozen(edges@.take(e as int), self@.freeze_distance),
            decreases n - e,
        {
            let _ = self.buffer.pop_front();
            let edge: &Edge = &edges[e];
            if self.edge_is_short(edge) {
                constraints.push(Constraint { from: edge.from.handle, to: edge.to.handle });
            }
            proof {
                assert(edges@.take(e + 1) =~= edges@.take(e as int).push(*edge));
                lemma_frozen_push(edges@.take(e as int), *edge, self@.freeze_distance);
                assert(old(self).buffer@.skip(e as int).subrange(
                    1,
                    old(self).buffer@.skip(e as int).len() as int,
                ) =~= old(self).buffer@.skip(e + 1));
            }
            e = e + 1;
        }
        Ok(constraints)
    }

    /// What becomes of a point that lies at `location`.
    pub fn decide(&self, point: &Point, location: &Location) -> (d: Decision)
        ensures
            d == policy(*location, point@.z, self@.watermark),
    {
        match location {
            Location::OnFace { first, second, third } => {
                if *first && *second && *third {
                    Decision::Skip
                } else {
                    Decision::InsertNew
                }
            },
            Location::OnVertex { elevation } => {
                let rise: i128 = point.z() as i128 - *elevation as i128;
                if rise > self.watermark as i128 {
                    Decision::MergeDuplicate
                } else {
                    Decision::Skip
                }
            },
            Location::OnEdge { constrained } => {
                if *constrained {
                    Decision::Skip
                } else {
                    Decision::InsertNew
                }
            },
            Location::Outside => Decision::InsertNew,
        }
    }

    /// Takes note of a point that went into the triangulation: the watermark
    /// drops to its elevation where that is lower, and the edges that leave
    /// its vertex join the buffer as its newest.
    pub fn record_insertion(&mut self, point: &Point, out_edges: &Vec<usize>)
        ensures
            final(self)@ == (SurfaceBuilderView {
                watermark: if point@.z < old(self)@.watermark {
                    point@.z
                } else {
                    old(self)@.watermark
                },
                buffer: old(self)@.buffer + out_edges@,
                ..old(self)@
            }),
            final(self)@.watermark <= old(self)@.watermark,
    {
        if point.z() < self.watermark {
            self.watermark = point.z();
        }
        let mut i: usize = 0;
        proof {
            assert(self.buffer@ =~= old(self).buffer@ + out_edges@.take(0));
        }
        while i < out_edges.len()
            invariant
                i <= out_edges@.len(),
                self.buffer@ == old(self).buffer@ + out_edges@.take(i as int),
                self.freeze_distance == old(self).freeze_distance,
                self.insertion_buffer == old(self).insertion_buffer,
                self.watermark == if point@.z < old(self).watermark {
                    point@.z
                } else {
                    old(self).watermark as int
                },
            decreases out_edges@.len() - i,
        {
            self.buffer.push_back(out_edges[i]);
            proof {
                assert(out_edges@.take(i + 1) =~= out_edges@.take(i as int).push(
                    out_edges@[i as int],
                ));
                assert((old(self).buffer@ + out_edges@.take(i as int)).push(out_edges@[i as int])
                    =~= old(self).buffer@ + out_edges@.take(i + 1));
            }
            i = i + 1;
        }
        proof {
            assert(out_edges@.take(i as int) =~= out_edges@);
        }
    }

    /// Takes note of how the triangulation answered a point that was to go
    /// in. Where it took the point, `outcome` holds the edges that leave its
    /// vertex, and they are recorded as `record_insertion` does. Where it
    /// refused the point, the build is over: nothing changes and the
    /// refusal is handed on.
    pub fn record_outcome(
        &mut self,
        point: &Point,
        outcome: &Result<Vec<usize>, InsertionFailure>,
    ) -> (r: Result<(), Error>)
        ensures
            match *outcome {
                Ok(out_edges) => r.is_ok() && final(self)@ == (SurfaceBuilderView {
                    watermark: if point@.z < old(self)@.watermark {
                        point@.z
                    } else {
                        old(self)@.watermark
                    },
                    buffer: old(self)@.buffer + out_edges@,
                    ..old(self)@
                }),
                Err(failure) => r == Err::<(), Error>(Error::Insertion(failure)) && final(self)@
                    == old(self)@,
            },
    {
        match outcome {
            Ok(out_edges) => {
                self.record_insertion(point, out_edges);
                Ok(())
            },
            Err(failure) => Err(Error::Insertion(*failure)),
        }
    }
}

} // verus!
