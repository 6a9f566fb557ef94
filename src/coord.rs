use vstd::prelude::*;

use crate::geometry::{Coord, Dimension};

verus! {

/// Physical layout of a coordinate buffer.
#[derive(Debug, Clone, Copy, PartialEq, Eq, Structural)]
pub enum CoordType {
    /// `x, y, [z], x, y, [z], ...`
    Interleaved,
    /// One run per axis.
    Separated,
}

/// Flat storage for coordinates in either layout.
#[derive(Debug, Clone)]
pub enum CoordBuffer {
    Interleaved { dim: Dimension, values: Vec<u64> },
    Separated { dim: Dimension, x: Vec<u64>, y: Vec<u64>, z: Vec<u64> },
}

impl View for CoordBuffer {
    type V = Seq<Coord>;

    open spec fn view(&self) -> Seq<Coord> {
        match self {
            CoordBuffer::Interleaved { dim: Dimension::XY, values } => Seq::new(
                values@.len() / 2,
                |i: int| Coord { x: values@[2 * i], y: values@[2 * i + 1], z: 0 },
            ),
            CoordBuffer::Interleaved { dim: Dimension::XYZ, values } => Seq::new(
                values@.len() / 3,
                |i: int| Coord { x: values@[3 * i], y: values@[3 * i + 1], z: values@[3 * i + 2] },
            ),
            CoordBuffer::Separated { dim: Dimension::XY, x, y, z } => Seq::new(
                x@.len(),
                |i: int| Coord { x: x@[i], y: y@[i], z: 0 },
            ),
            CoordBuffer::Separated { dim: Dimension::XYZ, x, y, z } => Seq::new(
                x@.len(),
                |i: int| Coord { x: x@[i], y: y@[i], z: z@[i] },
            ),
        }
    }
}

impl CoordBuffer {
    pub open spec fn dim(&self) -> Dimension {
        match self {
            CoordBuffer::Interleaved { dim, .. } => *dim,
            CoordBuffer::Separated { dim, .. } => *dim,
        }
    }

    pub open spec fn coord_type(&self) -> CoordType {
        match self {
            CoordBuffer::Interleaved { .. } => CoordType::Interleaved,
            CoordBuffer::Separated { .. } => CoordType::Separated,
        }
    }

    /// Interleaved values fill whole coordinates; separated planes have equal
    /// lengths, with no `z` plane in two dimensions.
    pub open spec fn wf(&self) -> bool {
        match self {
            CoordBuffer::Interleaved { dim, values } => values@.len() as int % dim.size() == 0,
            CoordBuffer::Separated { dim, x, y, z } => {
                &&& x@.len() == y@.len()
                &&& z@.len() == if *dim == Dimension::XYZ {
                    x@.len()
                } else {
                    0
                }
            },
        }
    }

    /// An empty buffer.
    pub fn new(coord_type: CoordType, dim: Dimension) -> (r: CoordBuffer)
        ensures
            r.wf(),
            r@.len() == 0,
            r.dim() == dim,
            r.coord_type() == coord_type,
    {
        match coord_type {
            CoordType::Interleaved => CoordBuffer::Interleaved { dim, values: Vec::new() },
            CoordType::Separated => CoordBuffer::Separated {
                dim,
                x: Vec::new(),
                y: Vec::new(),
                z: Vec::new(),
            },
        }
    }

    /// An empty buffer with room for `n` coordinates in each run.
    pub fn with_capacity(coord_type: CoordType, dim: Dimension, n: usize) -> (r: CoordBuffer)
        ensures
            r.wf(),
            r@.len() == 0,
            r.dim() == dim,
            r.coord_type() == coord_type,
    {
        match coord_type {
            CoordType::Interleaved => CoordBuffer::Interleaved {
                dim,
                values: Vec::with_capacity(
                    if n <= usize::MAX / 3 {
                        match dim {
                            Dimension::XY => n * 2,
                            Dimension::XYZ => n * 3,
                        }
                    } else {
                        n
                    },
                ),
            },
            CoordType::Separated => CoordBuffer::Separated {
                dim,
                x: Vec::with_capacity(n),
                y: Vec::with_capacity(n),
                z: Vec::with_capacity(
                    match dim {
                        Dimension::XY => 0,
                        Dimension::XYZ => n,
                    },
                ),
            },
        }
    }

    pub fn dimension(&self) -> (r: Dimension)
        ensures
            r == self.dim(),
    {
        match self {
            CoordBuffer::Interleaved { dim, .. } => *dim,
            CoordBuffer::Separated { dim, .. } => *dim,
        }
    }

    pub fn get_coord_type(&self) -> (r: CoordType)
        ensures
            r == self.coord_type(),
    {
        match self {
            CoordBuffer::Interleaved { .. } => CoordType::Interleaved,
            CoordBuffer::Separated { .. } => CoordType::Separated,
        }
    }

    /// Number of coordinates.
    pub fn len(&self) -> (r: usize)
        requires
            self.wf(),
        ensures
            r == self@.len(),
    {
        match self {
            CoordBuffer::Interleaved { dim: Dimension::XY, values } => values.len() / 2,
            CoordBuffer::Interleaved { dim: Dimension::XYZ, values } => values.len() / 3,
            CoordBuffer::Separated { x, .. } => x.len(),
        }
    }

    /// The coordinate at `i`.
    pub fn get(&self, i: usize) -> (r: Coord)
        requires
            self.wf(),
            i < self@.len(),
        ensures
            r == self@[i as int],
    {
        match self {
            CoordBuffer::Interleaved { dim: Dimension::XY, values } => {
                let n = values.len();
                assert(2 * i + 1 < n) by (nonlinear_arith)
                    requires
                        i < n / 2,
                ;
                Coord {
                x: values[2 * i],
                y: values[2 * i + 1],
                z: 0,
            }},
            CoordBuffer::Interleaved { dim: Dimension::XYZ, values } => {
                let n = values.len();
                assert(3 * i + 2 < n) by (nonlinear_arith)
                    requires
                        i < n / 3,
                ;
                Coord {
                x: values[3 * i],
                y: values[3 * i + 1],
                z: values[3 * i + 2],
            }},
            CoordBuffer::Separated { dim: Dimension::XY, x, y, .. } => Coord {
                x: x[i],
                y: y[i],
                z: 0,
            },
            CoordBuffer::Separated { dim: Dimension::XYZ, x, y, z } => Coord {
                x: x[i],
                y: y[i],
                z: z[i],
            },
        }
    }

    /// Appends a coordinate.
    pub fn push(&mut self, c: Coord)
        requires
            old(self).wf(),
            old(self).dim().holds(c),
        ensures
            final(self).wf(),
            final(self)@ == old(self)@.push(c),
            final(self).dim() == old(self).dim(),
            final(self).coord_type() == old(self).coord_type(),
    {
        match self {
            CoordBuffer::Interleaved { dim: Dimension::XY, values } => {
                values.push(c.x);
                values.push(c.y);
            },
            CoordBuffer::Interleaved { dim: Dimension::XYZ, values } => {
                values.push(c.x);
                values.push(c.y);
                values.push(c.z);
            },
            CoordBuffer::Separated { dim: Dimension::XY, x, y, .. } => {
                x.push(c.x);
                y.push(c.y);
            },
            CoordBuffer::Separated { dim: Dimension::XYZ, x, y, z } => {
                x.push(c.x);
                y.push(c.y);
                z.push(c.z);
            },
        }
        assert(final(self)@ =~= old(self)@.push(c));
    }

    /// The same coordinates in the given layout.
    pub fn to_coord_type(&self, coord_type: CoordType) -> (r: CoordBuffer)
        requires
            self.wf(),
            forall|i: int| 0 <= i < self@.len() ==> self.dim().holds(#[trigger] self@[i]),
        ensures
            r.wf(),
            r@ == self@,
            r.dim() == self.dim(),
            r.coord_type() == coord_type,
    {
        let n = self.len();
        let mut out = CoordBuffer::new(coord_type, self.dimension());
        let mut i: usize = 0;
        while i < n
            invariant
                n == self@.len(),
                self.wf(),
                forall|i: int| 0 <= i < self@.len() ==> self.dim().holds(#[trigger] self@[i]),
                i <= n,
                out.wf(),
                out.dim() == self.dim(),
                out.coord_type() == coord_type,
                out@ == self@.subrange(0, i as int),
            decreases n - i,
        {
            let c = self.get(i);
            out.push(c);
            assert(self@.subrange(0, i + 1) =~= self@.subrange(0, i as int).push(c));
            i = i + 1;
        }
        assert(self@.subrange(0, n as int) =~= self@);
        out
    }
}

} // verus!
