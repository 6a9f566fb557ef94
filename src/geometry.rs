use vstd::prelude::*;

verus! {

/// A coordinate whose components are IEEE-754 double bit patterns.
/// In two dimensions `z` is unused and kept at zero.
#[derive(Debug, Clone, Copy, PartialEq, Eq, Structural)]
pub struct Coord {
    pub x: u64,
    pub y: u64,
    pub z: u64,
}

/// Number of components per coordinate.
#[derive(Debug, Clone, Copy, PartialEq, Eq, Structural)]
pub enum Dimension {
    XY,
    XYZ,
}

impl Dimension {
    pub open spec fn size(self) -> int {
        match self {
            Dimension::XY => 2,
            Dimension::XYZ => 3,
        }
    }

    /// A coordinate that this dimension can hold.
    pub open spec fn holds(self, c: Coord) -> bool {
        self == Dimension::XY ==> c.z == 0
    }
}

/// The concrete geometry kinds that have their own array layout.
#[derive(Debug, Clone, Copy, PartialEq, Eq, Structural)]
pub enum GeometryKind {
    Point,
    LineString,
    Polygon,
    MultiPoint,
    MultiLineString,
    MultiPolygon,
}

/// Every geometry is held as parts, each part as rings, each ring as
/// coordinates. A kind fixes some of these levels to exactly one entry; the
/// other ("free") levels are stored with an offset buffer.
impl GeometryKind {
    pub open spec fn parts_free(self) -> bool {
        self is MultiPoint || self is MultiLineString || self is MultiPolygon
    }

    pub open spec fn rings_free(self) -> bool {
        self is Polygon || self is MultiPolygon
    }

    pub open spec fn coords_free(self) -> bool {
        !(self is Point || self is MultiPoint)
    }

    pub open spec fn is_multi(self) -> bool {
        self.parts_free()
    }

    /// The single-part kind of the same base.
    pub open spec fn single(self) -> GeometryKind {
        match self {
            GeometryKind::MultiPoint => GeometryKind::Point,
            GeometryKind::MultiLineString => GeometryKind::LineString,
            GeometryKind::MultiPolygon => GeometryKind::Polygon,
            _ => self,
        }
    }

    /// The multi-part kind of the same base.
    pub open spec fn multi(self) -> GeometryKind {
        match self {
            GeometryKind::Point => GeometryKind::MultiPoint,
            GeometryKind::LineString => GeometryKind::MultiLineString,
            GeometryKind::Polygon => GeometryKind::MultiPolygon,
            _ => self,
        }
    }

    /// The ISO WKB geometry code of this kind in two dimensions.
    pub open spec fn code(self) -> u32 {
        match self {
            GeometryKind::Point => 1,
            GeometryKind::LineString => 2,
            GeometryKind::Polygon => 3,
            GeometryKind::MultiPoint => 4,
            GeometryKind::MultiLineString => 5,
            GeometryKind::MultiPolygon => 6,
        }
    }

    pub fn is_multi_exec(self) -> (r: bool)
        ensures
            r == self.is_multi(),
    {
        match self {
            GeometryKind::MultiPoint | GeometryKind::MultiLineString
            | GeometryKind::MultiPolygon => true,
            _ => false,
        }
    }

    pub fn single_exec(self) -> (r: GeometryKind)
        ensures
            r == self.single(),
    {
        match self {
            GeometryKind::MultiPoint => GeometryKind::Point,
            GeometryKind::MultiLineString => GeometryKind::LineString,
            GeometryKind::MultiPolygon => GeometryKind::Polygon,
            _ => self,
        }
    }

    pub fn multi_exec(self) -> (r: GeometryKind)
        ensures
            r == self.multi(),
    {
        match self {
            GeometryKind::Point => GeometryKind::MultiPoint,
            GeometryKind::LineString => GeometryKind::MultiLineString,
            GeometryKind::Polygon => GeometryKind::MultiPolygon,
            _ => self,
        }
    }

    pub fn rings_free_exec(self) -> (r: bool)
        ensures
            r == self.rings_free(),
    {
        match self {
            GeometryKind::Polygon | GeometryKind::MultiPolygon => true,
            _ => false,
        }
    }

    pub fn coords_free_exec(self) -> (r: bool)
        ensures
            r == self.coords_free(),
    {
        match self {
            GeometryKind::Point | GeometryKind::MultiPoint => false,
            _ => true,
        }
    }

    pub fn code_exec(self) -> (r: u32)
        ensures
            r == self.code(),
    {
        match self {
            GeometryKind::Point => 1,
            GeometryKind::LineString => 2,
            GeometryKind::Polygon => 3,
            GeometryKind::MultiPoint => 4,
            GeometryKind::MultiLineString => 5,
            GeometryKind::MultiPolygon => 6,
        }
    }
}

/// The nested coordinates of a geometry: parts, rings, coordinates.
pub type Parts = Seq<Seq<Seq<Coord>>>;

/// What a geometry is: its kind, its dimension and its nested coordinates.
pub struct GeomModel {
    pub kind: GeometryKind,
    pub dim: Dimension,
    pub parts: Parts,
}

/// One part fits `kind` and `dim`: fixed levels hold exactly one entry, every
/// count fits the 32-bit counts of the binary encoding, and every coordinate
/// can be held in `dim`.
pub open spec fn part_fits(kind: GeometryKind, dim: Dimension, part: Seq<Seq<Coord>>) -> bool {
    &&& (!kind.rings_free() ==> part.len() == 1)
    &&& part.len() <= u32::MAX
    &&& forall|r: int|
        0 <= r < part.len() ==> {
            &&& (!kind.coords_free() ==> (#[trigger] part[r]).len() == 1)
            &&& part[r].len() <= u32::MAX
            &&& forall|c: int| 0 <= c < part[r].len() ==> dim.holds(#[trigger] part[r][c])
        }
}

impl GeomModel {
    pub open spec fn wf(self) -> bool {
        &&& (!self.kind.parts_free() ==> self.parts.len() == 1)
        &&& self.parts.len() <= u32::MAX
        &&& forall|p: int|
            0 <= p < self.parts.len() ==> part_fits(self.kind, self.dim, #[trigger] self.parts[p])
    }
}

/// `g` re-tagged as `kind`, with the same coordinates.
pub open spec fn retag(g: GeomModel, kind: GeometryKind) -> GeomModel {
    GeomModel { kind, dim: g.dim, parts: g.parts }
}

/// An owned geometry.
#[derive(Debug, Clone, PartialEq)]
pub struct Geometry {
    pub kind: GeometryKind,
    pub dim: Dimension,
    pub parts: Vec<Vec<Vec<Coord>>>,
}

pub open spec fn part_view(v: Vec<Vec<Coord>>) -> Seq<Seq<Coord>> {
    v@.map_values(|r: Vec<Coord>| r@)
}

pub open spec fn parts_view(v: Vec<Vec<Vec<Coord>>>) -> Parts {
    v@.map_values(|p: Vec<Vec<Coord>>| part_view(p))
}

impl View for Geometry {
    type V = GeomModel;

    open spec fn view(&self) -> GeomModel {
        GeomModel { kind: self.kind, dim: self.dim, parts: parts_view(self.parts) }
    }
}

} // verus!
