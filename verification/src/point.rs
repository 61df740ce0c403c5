use crate::scalar::{in_range, is_in_range, UNITS};
use vstd::prelude::*;

verus! {

/// Classification code of a point that is noise high above the surface.
pub const HIGH_NOISE: u8 = 18;

/// The variable of a point that a raster shows.
#[derive(Clone, Copy, Debug, PartialEq, Eq, Structural)]
pub enum Variable {
    X,
    Y,
    Z,
    Intensity,
}

/// A corner of an extent.
#[derive(Clone, Copy, Debug, PartialEq, Eq, Structural)]
pub struct Vector {
    pub x: i64,
    pub y: i64,
    pub z: i64,
}

/// An axis-aligned extent, given by its lowest and its highest corner.
#[derive(Clone, Copy, Debug, PartialEq, Eq, Structural)]
pub struct Bounds {
    pub min: Vector,
    pub max: Vector,
}

/// What a point of the cloud is to the contracts: its position, its
/// elevation, its intensity and its classification code.
pub struct PointRecordView {
    pub x: int,
    pub y: int,
    pub z: int,
    pub intensity: int,
    pub classification: int,
}

/// A point as the point cloud gives it. Its coordinates are within
/// [`crate::scalar::LIMIT`] of zero.
#[derive(Clone, Copy, Debug)]
pub struct PointRecord {
    x: i64,
    y: i64,
    z: i64,
    intensity: u16,
    classification: u8,
}

impl View for PointRecord {
    type V = PointRecordView;

    closed spec fn view(&self) -> PointRecordView {
        PointRecordView {
            x: self.x as int,
            y: self.y as int,
            z: self.z as int,
            intensity: self.intensity as int,
            classification: self.classification as int,
        }
    }
}

impl PointRecordView {
    /// Whether the point is marked as noise.
    pub open spec fn is_noise(self) -> bool {
        self.classification == HIGH_NOISE
    }

    /// The value of one variable of the point. An intensity is a whole
    /// number, so it counts whole units.
    pub open spec fn variable(self, var: Variable) -> int {
        match var {
            Variable::X => self.x,
            Variable::Y => self.y,
            Variable::Z => self.z,
            Variable::Intensity => self.intensity * UNITS,
        }
    }

    /// The vertex that the point becomes when `var` is the variable shown.
    pub open spec fn vertex(self, var: Variable) -> PointView {
        PointView { x: self.x, y: self.y, z: self.z, value: self.variable(var) }
    }
}

impl PointRecord {
    #[verifier::type_invariant]
    spec fn valid(self) -> bool {
        &&& in_range(self.x as int)
        &&& in_range(self.y as int)
        &&& in_range(self.z as int)
    }

    /// The vertex that the point becomes when `var` is the variable shown.
    pub closed spec fn as_vertex(self, var: Variable) -> Point {
        Point {
            x: self.x,
            y: self.y,
            z: self.z,
            value: match var {
                Variable::X => self.x,
                Variable::Y => self.y,
                Variable::Z => self.z,
                Variable::Intensity => (self.intensity * UNITS) as i64,
            },
        }
    }

    /// The coordinates of a point are scalars.
    pub proof fn lemma_scalars(self)
        ensures
            i64::MIN <= self@.x <= i64::MAX,
            i64::MIN <= self@.y <= i64::MAX,
            i64::MIN <= self@.z <= i64::MAX,
            0 <= self@.intensity <= u16::MAX,
            0 <= self@.classification <= u8::MAX,
    {
    }

    /// The vertex that a point becomes holds what the point holds.
    pub broadcast proof fn lemma_as_vertex(self, var: Variable)
        ensures
            (#[trigger] self.as_vertex(var))@ == self@.vertex(var),
    {
    }

    /// Makes a point, unless one of its coordinates is out of range.
    pub fn new(x: i64, y: i64, z: i64, intensity: u16, classification: u8) -> (r: Option<
        PointRecord,
    >)
        ensures
            r.is_some() <==> in_range(x as int) && in_range(y as int) && in_range(z as int),
            r matches Some(p) ==> p@ == (PointRecordView {
                x: x as int,
                y: y as int,
                z: z as int,
                intensity: intensity as int,
                classification: classification as int,
            }),
    {
        if is_in_range(x) && is_in_range(y) && is_in_range(z) {
            Some(PointRecord { x, y, z, intensity, classification })
        } else {
            None
        }
    }

    /// The first planar coordinate.
    pub fn x(&self) -> (r: i64)
        ensures
            r == self@.x,
            in_range(r as int),
    {
        proof {
            use_type_invariant(self);
        }
        self.x
    }

    /// The second planar coordinate.
    pub fn y(&self) -> (r: i64)
        ensures
            r == self@.y,
            in_range(r as int),
    {
        proof {
            use_type_invariant(self);
        }
        self.y
    }

    /// The elevation.
    pub fn z(&self) -> (r: i64)
        ensures
            r == self@.z,
            in_range(r as int),
    {
        proof {
            use_type_invariant(self);
        }
        self.z
    }

    /// The strength of the return.
    pub fn intensity(&self) -> (r: u16)
        ensures
            r == self@.intensity,
    {
        self.intensity
    }

    /// The classification code.
    pub fn classification(&self) -> (r: u8)
        ensures
            r == self@.classification,
    {
        self.classification
    }

    /// Whether the point is marked as noise.
    pub fn is_noise(&self) -> (b: bool)
        ensures
            b == self@.is_noise(),
    {
        self.classification == HIGH_NOISE
    }
}

/// Reads one variable of a point.
pub fn get_var(var: &Variable, point: &PointRecord) -> (r: i64)
    ensures
        r == point@.variable(*var),
        in_range(r as int),
{
    match var {
        Variable::X => point.x(),
        Variable::Y => point.y(),
        Variable::Z => point.z(),
        Variable::Intensity => {
            let whole: i64 = point.intensity() as i64;
            whole * UNITS
        },
    }
}

/// What a vertex of the surface is to the contracts: its planar position,
/// its elevation and the value that the raster shows.
pub struct PointView {
    pub x: int,
    pub y: int,
    pub z: int,
    pub value: int,
}

impl PointView {
    /// Whether the vertex lies at the planar position `(x, y)`.
    pub open spec fn is_at(self, x: int, y: int) -> bool {
        self.x == x && self.y == y
    }
}

/// A vertex of the surface. Its coordinates, its elevation and its value are
/// within [`crate::scalar::LIMIT`] of zero.
#[derive(Clone, Copy, Debug)]
pub struct Point {
    x: i64,
    y: i64,
    z: i64,
    value: i64,
}

impl View for Point {
    type V = PointView;

    closed spec fn view(&self) -> PointView {
        PointView { x: self.x as int, y: self.y as int, z: self.z as int, value: self.value as int }
    }
}

impl Point {
    #[verifier::type_invariant]
    spec fn valid(self) -> bool {
        &&& in_range(self.x as int)
        &&& in_range(self.y as int)
        &&& in_range(self.z as int)
        &&& in_range(self.value as int)
    }

    /// Makes a vertex, unless one of its four scalars is out of range.
    pub fn new(x: i64, y: i64, z: i64, value: i64) -> (r: Option<Point>)
        ensures
            r.is_some() <==> in_range(x as int) && in_range(y as int) && in_range(z as int)
                && in_range(value as int),
            r matches Some(p) ==> p@ == (PointView {
                x: x as int,
                y: y as int,
                z: z as int,
                value: value as int,
            }),
    {
        if is_in_range(x) && is_in_range(y) && is_in_range(z) && is_in_range(value) {
            Some(Point { x, y, z, value })
        } else {
            None
        }
    }

    /// The vertex that a point of the cloud becomes when `var` is the
    /// variable shown.
    pub fn from_record(record: &PointRecord, var: &Variable) -> (p: Point)
        ensures
            p == record.as_vertex(*var),
            p@ == record@.vertex(*var),
    {
        let value: i64 = get_var(var, record);
        Point { x: record.x(), y: record.y(), z: record.z(), value }
    }

    /// The planar position of the vertex.
    pub fn position(&self) -> (r: (i64, i64))
        ensures
            r.0 == self@.x,
            r.1 == self@.y,
            in_range(r.0 as int),
            in_range(r.1 as int),
    {
        proof {
            use_type_invariant(self);
        }
        (self.x, self.y)
    }

    /// The first planar coordinate.
    pub fn x(&self) -> (r: i64)
        ensures
            r == self@.x,
            in_range(r as int),
    {
        proof {
            use_type_invariant(self);
        }
        self.x
    }

    /// The second planar coordinate.
    pub fn y(&self) -> (r: i64)
        ensures
            r == self@.y,
            in_range(r as int),
    {
        proof {
            use_type_invariant(self);
        }
        self.y
    }

    /// The elevation of the vertex.
    pub fn z(&self) -> (r: i64)
        ensures
            r == self@.z,
            in_range(r as int),
    {
        proof {
            use_type_invariant(self);
        }
        self.z
    }

    /// The value that the raster shows at the vertex.
    pub fn value(&self) -> (r: i64)
        ensures
            r == self@.value,
            in_range(r as int),
    {
        proof {
            use_type_invariant(self);
        }
        self.value
    }
}

} // verus!
