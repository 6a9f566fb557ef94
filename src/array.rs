use vstd::prelude::*;

use crate::coord::{CoordBuffer, CoordType};
use crate::geometry::{retag, part_fits, part_view, parts_view, Coord, Dimension, GeomModel, Geometry, GeometryKind, Parts};
use crate::error::GeoArrowError;
use crate::metadata::ArrayMetadata;
use crate::offsets::offsets_valid;
use crate::levels::{
    flat, lemma_flat_concat, lemma_flat_push, lemma_flat_runs, lemma_level_bounds, lemma_runs_push, level_len, level_push, level_wf,
    off, runs,
};

verus! {

/// The offsets of a stored level, as integers.
pub open spec fn ov(o: Option<Vec<usize>>) -> Option<Seq<int>> {
    match o {
        Some(v) => Some(v@.map_values(|x: usize| x as int)),
        None => None,
    }
}

fn push_offset(o: &mut Option<Vec<usize>>, end: usize)
    ensures
        ov(*final(o)) == level_push(ov(*old(o)), end as int),
        (*final(o) is Some) == (*old(o) is Some),
{
    match o {
        Some(v) => {
            let ghost s = v@;
            v.push(end);
            assert(v@.map_values(|x: usize| x as int) =~= s.map_values(|x: usize| x as int).push(
                end as int,
            ));
        },
        None => {},
    }
}

fn get_offset(o: &Option<Vec<usize>>, k: usize) -> (r: usize)
    requires
        o is Some ==> k < o->0@.len(),
    ensures
        r == off(ov(*o), k as int),
{
    match o {
        Some(v) => v[k],
        None => k,
    }
}

/// A columnar array of geometries of one kind and dimension: a coordinate
/// buffer, one offset buffer for each free nesting level of the kind, and a
/// validity bitmap.
#[derive(Debug, Clone)]
pub struct GeometryArray {
    kind: GeometryKind,
    dim: Dimension,
    coords: CoordBuffer,
    ring_offsets: Option<Vec<usize>>,
    part_offsets: Option<Vec<usize>>,
    geom_offsets: Option<Vec<usize>>,
    validity: Vec<bool>,
    metadata: ArrayMetadata,
}

impl GeometryArray {
    /// The coordinate reference system carried by the array.
    pub closed spec fn crs(&self) -> Option<Seq<char>> {
        self.metadata@
    }

    pub closed spec fn kind(&self) -> GeometryKind {
        self.kind
    }

    pub closed spec fn dim(&self) -> Dimension {
        self.dim
    }

    pub closed spec fn coord_type(&self) -> CoordType {
        self.coords.coord_type()
    }

    /// The coordinates, in order.
    pub closed spec fn coords(&self) -> Seq<Coord> {
        self.coords@
    }

    /// Every ring, in order: runs of coordinates.
    pub closed spec fn rings(&self) -> Seq<Seq<Coord>> {
        runs(ov(self.ring_offsets), self.coords@)
    }

    /// Every part, in order: runs of rings.
    pub closed spec fn parts(&self) -> Seq<Seq<Seq<Coord>>> {
        runs(ov(self.part_offsets), self.rings())
    }

    /// The nested coordinates of every slot: runs of parts.
    pub closed spec fn slots(&self) -> Seq<Parts> {
        runs(ov(self.geom_offsets), self.parts())
    }

    pub closed spec fn rings_wf(&self) -> bool {
        &&& self.coords.wf()
        &&& self.coords.dim() == self.dim
        &&& forall|i: int| 0 <= i < self.coords@.len() ==> self.dim.holds(#[trigger] self.coords@[i])
        &&& (self.ring_offsets is Some <==> self.kind.coords_free())
        &&& level_wf(ov(self.ring_offsets), self.coords@.len() as int)
    }

    pub closed spec fn parts_wf(&self) -> bool {
        &&& self.rings_wf()
        &&& (self.part_offsets is Some <==> self.kind.rings_free())
        &&& level_wf(ov(self.part_offsets), self.rings().len() as int)
    }

    /// Every level ends where the level below ends, and there is one validity
    /// bit per slot.
    pub closed spec fn wf(&self) -> bool {
        &&& self.parts_wf()
        &&& (self.geom_offsets is Some <==> self.kind.parts_free())
        &&& level_wf(ov(self.geom_offsets), self.parts().len() as int)
        &&& self.validity@.len() == self.slots().len()
        &&& forall|i: int|
            0 <= i < self.validity@.len() ==> (!self.validity@[i] ==> #[trigger] self.slots()[i]
                == null_parts(self.kind))
    }
}

/// The part that a null slot of a single-part kind occupies: no rings for a
/// polygon, an empty ring for a line string, a zero coordinate for a point.
pub open spec fn null_part(kind: GeometryKind) -> Seq<Seq<Coord>> {
    if kind.rings_free() {
        Seq::empty()
    } else if kind.coords_free() {
        seq![Seq::empty()]
    } else {
        seq![seq![Coord { x: 0, y: 0, z: 0 }]]
    }
}

/// What a null slot occupies: no parts for a multi-part kind, else one
/// `null_part`.
pub open spec fn null_parts(kind: GeometryKind) -> Parts {
    if kind.parts_free() {
        Seq::empty()
    } else {
        seq![null_part(kind)]
    }
}

/// What each slot of `v` occupies in a column of `kind`.
pub open spec fn contents(kind: GeometryKind, v: Seq<Option<GeomModel>>) -> Seq<Parts> {
    Seq::new(
        v.len(),
        |i: int|
            match v[i] {
                Some(g) => g.parts,
                None => null_parts(kind),
            },
    )
}

/// Number of parts that the slots `v` need in a column of `kind`.
pub open spec fn parts_needed(kind: GeometryKind, v: Seq<Option<GeomModel>>) -> int {
    flat(contents(kind, v)).len() as int
}

/// Number of rings that the slots `v` need in a column of `kind`.
pub open spec fn rings_needed(kind: GeometryKind, v: Seq<Option<GeomModel>>) -> int {
    flat(flat(contents(kind, v))).len() as int
}

/// Number of coordinates that the slots `v` need in a column of `kind`.
pub open spec fn coords_needed(kind: GeometryKind, v: Seq<Option<GeomModel>>) -> int {
    flat(flat(flat(contents(kind, v)))).len() as int
}

impl View for GeometryArray {
    type V = Seq<Option<GeomModel>>;

    /// Each slot: `None` where null, else the geometry it holds.
    closed spec fn view(&self) -> Seq<Option<GeomModel>> {
        Seq::new(
            self.validity@.len(),
            |i: int|
                if self.validity@[i] {
                    Some(GeomModel { kind: self.kind, dim: self.dim, parts: self.slots()[i] })
                } else {
                    None
                },
        )
    }
}

impl GeometryArray {
    /// An empty array.
    pub fn new(kind: GeometryKind, dim: Dimension, coord_type: CoordType) -> (r: GeometryArray)
        ensures
            r.wf(),
            r@.len() == 0,
            r.kind() == kind,
            r.dim() == dim,
            r.coord_type() == coord_type,
    {
        let ring_offsets = if kind.coords_free_exec() {
            Some(vec![0usize])
        } else {
            None
        };
        let part_offsets = if kind.rings_free_exec() {
            Some(vec![0usize])
        } else {
            None
        };
        let geom_offsets = if kind.is_multi_exec() {
            Some(vec![0usize])
        } else {
            None
        };
        let r = GeometryArray {
            kind,
            dim,
            coords: CoordBuffer::new(coord_type, dim),
            ring_offsets,
            part_offsets,
            geom_offsets,
            validity: Vec::new(),
            metadata: ArrayMetadata::new(),
        };
        assert(r.rings().len() == 0);
        assert(r.parts().len() == 0);
        assert(r.slots().len() == 0);
        assert(r@ =~= Seq::empty());
        r
    }

    /// An empty array whose buffers are allocated for `capacity`.
    pub fn with_capacity(
        kind: GeometryKind,
        dim: Dimension,
        coord_type: CoordType,
        capacity: &Capacity,
    ) -> (r: GeometryArray)
        ensures
            r.wf(),
            r@.len() == 0,
            r.kind() == kind,
            r.dim() == dim,
            r.coord_type() == coord_type,
    {
        let ring_offsets = if kind.coords_free_exec() {
            let mut v = Vec::with_capacity(capacity.ring_capacity.saturating_add(1));
            v.push(0usize);
            Some(v)
        } else {
            None
        };
        let part_offsets = if kind.rings_free_exec() {
            let mut v = Vec::with_capacity(capacity.part_capacity.saturating_add(1));
            v.push(0usize);
            Some(v)
        } else {
            None
        };
        let geom_offsets = if kind.is_multi_exec() {
            let mut v = Vec::with_capacity(capacity.geom_capacity.saturating_add(1));
            v.push(0usize);
            Some(v)
        } else {
            None
        };
        let r = GeometryArray {
            kind,
            dim,
            coords: CoordBuffer::with_capacity(coord_type, dim, capacity.coord_capacity),
            ring_offsets,
            part_offsets,
            geom_offsets,
            validity: Vec::with_capacity(capacity.geom_capacity),
            metadata: ArrayMetadata::new(),
        };
        assert(ov(r.ring_offsets) matches Some(s) ==> s =~= seq![0int]);
        assert(ov(r.part_offsets) matches Some(s) ==> s =~= seq![0int]);
        assert(ov(r.geom_offsets) matches Some(s) ==> s =~= seq![0int]);
        assert(r.rings().len() == 0);
        assert(r.parts().len() == 0);
        assert(r.slots().len() == 0);
        assert(r@ =~= Seq::empty());
        r
    }

    /// The same array carrying `metadata`.
    pub fn with_metadata(self, metadata: ArrayMetadata) -> (r: GeometryArray)
        ensures
            r@ == self@,
            self.wf() ==> r.wf(),
            r.kind() == self.kind(),
            r.dim() == self.dim(),
            r.coord_type() == self.coord_type(),
            r.crs() == metadata@,
    {
        GeometryArray { metadata, ..self }
    }

    pub fn metadata(&self) -> (r: &ArrayMetadata)
        ensures
            r@ == self.crs(),
    {
        &self.metadata
    }

    pub fn kind_exec(&self) -> (r: GeometryKind)
        ensures
            r == self.kind(),
    {
        self.kind
    }

    pub fn dim_exec(&self) -> (r: Dimension)
        ensures
            r == self.dim(),
    {
        self.dim
    }

    pub fn coord_type_exec(&self) -> (r: CoordType)
        ensures
            r == self.coord_type(),
    {
        self.coords.get_coord_type()
    }

    /// Number of slots.
    pub fn len(&self) -> (r: usize)
        ensures
            r == self@.len(),
    {
        self.validity.len()
    }

    pub fn is_empty(&self) -> (r: bool)
        ensures
            r == (self@.len() == 0),
    {
        self.validity.len() == 0
    }

    /// Whether slot `i` holds a geometry.
    pub fn is_valid(&self, i: usize) -> (r: bool)
        requires
            i < self@.len(),
        ensures
            r == self@[i as int] is Some,
    {
        self.validity[i]
    }

    fn push_ring(&mut self, ring: &Vec<Coord>)
        requires
            old(self).rings_wf(),
            ring@.len() <= u32::MAX,
            forall|c: int| 0 <= c < ring@.len() ==> old(self).dim.holds(#[trigger] ring@[c]),
            !old(self).kind.coords_free() ==> ring@.len() == 1,
        ensures
            final(self).rings_wf(),
            final(self).rings() == old(self).rings().push(ring@),
            final(self).coords@ == old(self).coords@ + ring@,
            final(self).kind == old(self).kind,
            final(self).dim == old(self).dim,
            final(self).coords.coord_type() == old(self).coords.coord_type(),
            final(self).part_offsets == old(self).part_offsets,
            final(self).geom_offsets == old(self).geom_offsets,
            final(self).validity == old(self).validity,
    {
        let ghost c0 = self.coords@;
        let mut i: usize = 0;
        while i < ring.len()
            invariant
                i <= ring@.len(),
                self.coords.wf(),
                self.coords.dim() == self.dim,
                self.coords@ == c0 + ring@.subrange(0, i as int),
                c0 == old(self).coords@,
                forall|c: int| 0 <= c < ring@.len() ==> self.dim.holds(#[trigger] ring@[c]),
                forall|c: int| 0 <= c < c0.len() ==> self.dim.holds(#[trigger] c0[c]),
                self.kind == old(self).kind,
                self.dim == old(self).dim,
                self.coords.coord_type() == old(self).coords.coord_type(),
                self.ring_offsets == old(self).ring_offsets,
                self.part_offsets == old(self).part_offsets,
                self.geom_offsets == old(self).geom_offsets,
                self.validity == old(self).validity,
            decreases ring@.len() - i,
        {
            self.coords.push(ring[i]);
            assert(c0 + ring@.subrange(0, i + 1) =~= (c0 + ring@.subrange(0, i as int)).push(
                ring@[i as int],
            ));
            i = i + 1;
        }
        assert(ring@.subrange(0, ring@.len() as int) =~= ring@);
        let n = self.coords.len();
        push_offset(&mut self.ring_offsets, n);
        proof {
            lemma_runs_push(ov(old(self).ring_offsets), c0, ring@);
            assert forall|i: int| 0 <= i < self.coords@.len() implies self.dim.holds(
                #[trigger] self.coords@[i],
            ) by {
                if i >= c0.len() {
                    assert(self.coords@[i] == ring@[i - c0.len()]);
                }
            }
        }
    }

    fn push_part(&mut self, part: &Vec<Vec<Coord>>)
        requires
            old(self).parts_wf(),
            part_fits(old(self).kind, old(self).dim, part_view(*part)),
        ensures
            final(self).parts_wf(),
            final(self).parts() == old(self).parts().push(part_view(*part)),
            final(self).kind == old(self).kind,
            final(self).dim == old(self).dim,
            final(self).coords.coord_type() == old(self).coords.coord_type(),
            final(self).geom_offsets == old(self).geom_offsets,
            final(self).validity == old(self).validity,
    {
        let ghost r0 = self.rings();
        let ghost pv = part_view(*part);
        let mut j: usize = 0;
        while j < part.len()
            invariant
                j <= part@.len(),
                pv == part_view(*part),
                part_fits(self.kind, self.dim, pv),
                self.rings_wf(),
                self.rings() == r0 + pv.subrange(0, j as int),
                r0 == old(self).rings(),
                level_wf(ov(self.part_offsets), r0.len() as int),
                (self.part_offsets is Some <==> self.kind.rings_free()),
                self.kind == old(self).kind,
                self.dim == old(self).dim,
                self.coords.coord_type() == old(self).coords.coord_type(),
                self.part_offsets == old(self).part_offsets,
                self.geom_offsets == old(self).geom_offsets,
                self.validity == old(self).validity,
            decreases part@.len() - j,
        {
            assert(pv[j as int] == part@[j as int]@);
            self.push_ring(&part[j]);
            assert(r0 + pv.subrange(0, j + 1) =~= (r0 + pv.subrange(0, j as int)).push(
                pv[j as int],
            ));
            j = j + 1;
        }
        assert(pv.subrange(0, pv.len() as int) =~= pv);
        let n = self.ring_count();
        push_offset(&mut self.part_offsets, n);
        proof {
            lemma_runs_push(ov(old(self).part_offsets), r0, pv);
        }
    }

    /// Number of rings.
    fn ring_count(&self) -> (r: usize)
        requires
            self.rings_wf(),
        ensures
            r == self.rings().len(),
    {
        match &self.ring_offsets {
            Some(v) => v.len() - 1,
            None => self.coords.len(),
        }
    }

    /// Number of parts.
    fn part_count(&self) -> (r: usize)
        requires
            self.parts_wf(),
        ensures
            r == self.parts().len(),
    {
        match &self.part_offsets {
            Some(v) => v.len() - 1,
            None => self.ring_count(),
        }
    }

    /// Appends the coordinates of a geometry of this array's dimension,
    /// as a geometry of this array's kind.
    pub fn push_geometry(&mut self, g: &Geometry)
        requires
            old(self).wf(),
            retag(g@, old(self).kind()).wf(),
            g.dim == old(self).dim(),
        ensures
            final(self).wf(),
            final(self)@ == old(self)@.push(Some(retag(g@, old(self).kind()))),
            final(self).kind() == old(self).kind(),
            final(self).dim() == old(self).dim(),
            final(self).coord_type() == old(self).coord_type(),
    {
        let ghost p0 = self.parts();
        let ghost gv = g@.parts;
        let mut j: usize = 0;
        while j < g.parts.len()
            invariant
                j <= g.parts@.len(),
                gv == g@.parts,
                retag(g@, self.kind).wf(),
                g.dim == self.dim,
                self.parts_wf(),
                self.parts() == p0 + gv.subrange(0, j as int),
                p0 == old(self).parts(),
                level_wf(ov(self.geom_offsets), p0.len() as int),
                (self.geom_offsets is Some <==> self.kind.parts_free()),
                self.kind == old(self).kind,
                self.dim == old(self).dim,
                self.coords.coord_type() == old(self).coords.coord_type(),
                self.geom_offsets == old(self).geom_offsets,
                self.validity == old(self).validity,
            decreases g.parts@.len() - j,
        {
            assert(gv[j as int] == part_view(g.parts@[j as int]));
            assert(part_fits(self.kind, g.dim, gv[j as int]));
            self.push_part(&g.parts[j]);
            assert(p0 + gv.subrange(0, j + 1) =~= (p0 + gv.subrange(0, j as int)).push(
                gv[j as int],
            ));
            j = j + 1;
        }
        assert(gv.subrange(0, gv.len() as int) =~= gv);
        let n = self.part_count();
        push_offset(&mut self.geom_offsets, n);
        proof {
            lemma_runs_push(ov(old(self).geom_offsets), p0, gv);
        }
        self.validity.push(true);
        assert(self.slots() == old(self).slots().push(gv));
        assert forall|i: int| 0 <= i < self.validity@.len() && !self.validity@[i] implies #[trigger] self.slots()[i]
            == null_parts(self.kind) by {
            if i < old(self).validity@.len() {
                assert(self.slots()[i] == old(self).slots()[i]);
                assert(self.validity@[i] == old(self).validity@[i]);
            }
        }
        assert(self@ =~= old(self)@.push(Some(retag(g@, self.kind))));
    }

    /// Appends a null slot.
    pub fn push_null(&mut self)
        requires
            old(self).wf(),
        ensures
            final(self).wf(),
            final(self)@ == old(self)@.push(None),
            final(self).kind() == old(self).kind(),
            final(self).dim() == old(self).dim(),
            final(self).coord_type() == old(self).coord_type(),
    {
        let ghost s0 = old(self).slots();
        if self.kind.is_multi_exec() {
            let n = self.part_count();
            push_offset(&mut self.geom_offsets, n);
            proof {
                assert(self.parts() + Seq::<Seq<Seq<Coord>>>::empty() =~= self.parts());
                lemma_runs_push(ov(old(self).geom_offsets), self.parts(), Seq::empty());
                assert(self.slots() == s0.push(null_parts(self.kind)));
            }
        } else {
            let ghost p0 = self.parts();
            let part: Vec<Vec<Coord>> = if self.kind.rings_free_exec() {
                Vec::new()
            } else if self.kind.coords_free_exec() {
                vec![Vec::new()]
            } else {
                vec![vec![Coord { x: 0, y: 0, z: 0 }]]
            };
            proof {
                let pv = part_view(part);
                if !self.kind.rings_free() {
                    assert(pv[0] == part@[0]@);
                }
                assert(pv =~~= null_part(self.kind));
            }
            self.push_part(&part);
            proof {
                lemma_runs_push(ov(old(self).geom_offsets), p0, seq![part_view(part)]);
                assert(p0 + seq![part_view(part)] =~= p0.push(part_view(part)));
                assert(seq![part_view(part)] =~~= null_parts(self.kind));
                assert(self.slots() == s0.push(null_parts(self.kind)));
            }
        }
        self.validity.push(false);
        assert forall|i: int| 0 <= i < self.validity@.len() && !self.validity@[i] implies #[trigger] self.slots()[i]
            == null_parts(self.kind) by {
            if i < old(self).validity@.len() {
                assert(self.slots()[i] == old(self).slots()[i]);
                assert(self.validity@[i] == old(self).validity@[i]);
            }
        }
        assert(self@ =~= old(self)@.push(None));
    }
}

impl GeometryArray {
    proof fn lemma_ring_fits(&self, rr: int)
        requires
            self.rings_wf(),
            0 <= rr < self.rings().len(),
        ensures
            self.rings()[rr].len() <= u32::MAX,
            !self.kind.coords_free() ==> self.rings()[rr].len() == 1,
            forall|c: int|
                0 <= c < self.rings()[rr].len() ==> self.dim.holds(#[trigger] self.rings()[rr][c]),
    {
        let o = ov(self.ring_offsets);
        lemma_level_bounds(o, self.coords@.len() as int, rr);
        assert forall|c: int| 0 <= c < self.rings()[rr].len() implies self.dim.holds(
            #[trigger] self.rings()[rr][c],
        ) by {
            assert(self.rings()[rr][c] == self.coords@[off(o, rr) + c]);
        }
    }

    proof fn lemma_part_fits(&self, q: int)
        requires
            self.parts_wf(),
            0 <= q < self.parts().len(),
        ensures
            part_fits(self.kind, self.dim, self.parts()[q]),
    {
        let o = ov(self.part_offsets);
        lemma_level_bounds(o, self.rings().len() as int, q);
        let part = self.parts()[q];
        assert forall|r: int| 0 <= r < part.len() implies {
            &&& (!self.kind.coords_free() ==> (#[trigger] part[r]).len() == 1)
            &&& part[r].len() <= u32::MAX
            &&& forall|c: int| 0 <= c < part[r].len() ==> self.dim.holds(#[trigger] part[r][c])
        } by {
            assert(part[r] == self.rings()[off(o, q) + r]);
            self.lemma_ring_fits(off(o, q) + r);
        }
    }

    /// Every slot holds a well-formed geometry of the array's kind and dimension.
    pub proof fn lemma_slot_wf(&self, i: int)
        requires
            self.wf(),
            0 <= i < self.slots().len(),
        ensures
            (GeomModel { kind: self.kind(), dim: self.dim(), parts: self.slots()[i] }).wf(),
    {
        let o = ov(self.geom_offsets);
        lemma_level_bounds(o, self.parts().len() as int, i);
        let g = GeomModel { kind: self.kind, dim: self.dim, parts: self.slots()[i] };
        assert forall|p: int| 0 <= p < g.parts.len() implies part_fits(
            g.kind,
            g.dim,
            #[trigger] g.parts[p],
        ) by {
            assert(g.parts[p] == self.parts()[off(o, i) + p]);
            self.lemma_part_fits(off(o, i) + p);
        }
    }

    fn ring_at(&self, rr: usize) -> (r: Vec<Coord>)
        requires
            self.rings_wf(),
            rr < self.rings().len(),
        ensures
            r@ == self.rings()[rr as int],
    {
        let ghost o = ov(self.ring_offsets);
        proof {
            lemma_level_bounds(o, self.coords@.len() as int, rr as int);
        }
        let lo = get_offset(&self.ring_offsets, rr);
        let count = self.ring_count();
        let hi = get_offset(&self.ring_offsets, rr + 1);
        let mut out: Vec<Coord> = Vec::new();
        let mut k = lo;
        while k < hi
            invariant
                self.rings_wf(),
                lo <= k <= hi <= self.coords@.len(),
                out@ == self.coords@.subrange(lo as int, k as int),
            decreases hi - k,
        {
            out.push(self.coords.get(k));
            assert(self.coords@.subrange(lo as int, k + 1) =~= self.coords@.subrange(
                lo as int,
                k as int,
            ).push(self.coords@[k as int]));
            k = k + 1;
        }
        out
    }

    fn part_at(&self, q: usize) -> (r: Vec<Vec<Coord>>)
        requires
            self.parts_wf(),
            q < self.parts().len(),
        ensures
            part_view(r) == self.parts()[q as int],
    {
        let ghost o = ov(self.part_offsets);
        proof {
            lemma_level_bounds(o, self.rings().len() as int, q as int);
        }
        let lo = get_offset(&self.part_offsets, q);
        let count = self.part_count();
        let hi = get_offset(&self.part_offsets, q + 1);
        let mut out: Vec<Vec<Coord>> = Vec::new();
        let mut k = lo;
        while k < hi
            invariant
                self.parts_wf(),
                lo <= k <= hi <= self.rings().len(),
                part_view(out) == self.rings().subrange(lo as int, k as int),
            decreases hi - k,
        {
            let ring = self.ring_at(k);
            let ghost before = part_view(out);
            out.push(ring);
            assert(part_view(out) =~= before.push(self.rings()[k as int]));
            assert(self.rings().subrange(lo as int, k + 1) =~= self.rings().subrange(
                lo as int,
                k as int,
            ).push(self.rings()[k as int]));
            k = k + 1;
        }
        out
    }

    /// The geometry held in slot `i`, null or not (a null slot reads as the
    /// empty geometry that it occupies).
    fn geometry_at(&self, i: usize) -> (r: Geometry)
        requires
            self.wf(),
            i < self@.len(),
        ensures
            r@ == (GeomModel { kind: self.kind(), dim: self.dim(), parts: self.slots()[i as int] }),
            r@.wf(),
    {
        let ghost o = ov(self.geom_offsets);
        proof {
            lemma_level_bounds(o, self.parts().len() as int, i as int);
            self.lemma_slot_wf(i as int);
        }
        let lo = get_offset(&self.geom_offsets, i);
        let count = self.validity.len();
        let hi = get_offset(&self.geom_offsets, i + 1);
        let mut out: Vec<Vec<Vec<Coord>>> = Vec::new();
        let mut k = lo;
        while k < hi
            invariant
                self.wf(),
                lo <= k <= hi <= self.parts().len(),
                parts_view(out) == self.parts().subrange(lo as int, k as int),
            decreases hi - k,
        {
            let part = self.part_at(k);
            let ghost before = parts_view(out);
            out.push(part);
            assert(parts_view(out) =~= before.push(self.parts()[k as int]));
            assert(self.parts().subrange(lo as int, k + 1) =~= self.parts().subrange(
                lo as int,
                k as int,
            ).push(self.parts()[k as int]));
            k = k + 1;
        }
        Geometry { kind: self.kind, dim: self.dim, parts: out }
    }

    /// The geometry of slot `i`, or `None` where the slot is null.
    pub fn value(&self, i: usize) -> (r: Option<Geometry>)
        requires
            self.wf(),
            i < self@.len(),
        ensures
            r matches Some(g) ==> self@[i as int] == Some(g@),
            r is None ==> self@[i as int] is None,
    {
        if self.validity[i] {
            Some(self.geometry_at(i))
        } else {
            None
        }
    }
}

impl GeometryArray {
    /// Number of parts of slot `i`.
    pub fn num_parts(&self, i: usize) -> (r: usize)
        requires
            self.wf(),
            i < self@.len(),
        ensures
            r == self.slots()[i as int].len(),
            self@[i as int] matches Some(g) ==> r == g.parts.len(),
    {
        proof {
            lemma_level_bounds(ov(self.geom_offsets), self.parts().len() as int, i as int);
        }
        let count = self.validity.len();
        let lo = get_offset(&self.geom_offsets, i);
        let hi = get_offset(&self.geom_offsets, i + 1);
        hi - lo
    }

    /// Every slot of a well-formed array is null or a well-formed geometry of
    /// the array's kind and dimension.
    pub proof fn lemma_view_wf(&self)
        requires
            self.wf(),
        ensures
            forall|i: int|
                0 <= i < self@.len() ==> (#[trigger] self@[i] matches Some(g) ==> g.wf() && g.kind
                    == self.kind() && g.dim == self.dim()),
    {
        assert forall|i: int| 0 <= i < self@.len() implies (#[trigger] self@[i] matches Some(g)
            ==> g.wf() && g.kind == self.kind() && g.dim == self.dim()) by {
            self.lemma_slot_wf(i);
        }
    }
}

impl GeometryArray {
    /// The stored offsets of nesting level `l` (0: slots to parts, 1: parts
    /// to rings, 2: rings to coordinates), `None` where the kind fixes it.
    pub closed spec fn level_offsets(&self, l: int) -> Option<Seq<int>> {
        if l == 0 {
            ov(self.geom_offsets)
        } else if l == 1 {
            ov(self.part_offsets)
        } else {
            ov(self.ring_offsets)
        }
    }

    /// Every offset buffer of a well-formed array starts at zero and never
    /// decreases.
    pub proof fn lemma_offsets_monotone(&self, l: int)
        requires
            self.wf(),
            0 <= l < 3,
        ensures
            self.level_offsets(l) matches Some(s) ==> offsets_valid(s),
            (self.level_offsets(l) is Some) == if l == 0 {
                self.kind().parts_free()
            } else if l == 1 {
                self.kind().rings_free()
            } else {
                self.kind().coords_free()
            },
    {
    }
}

/// Buffer sizes of a geometry column.
#[derive(Debug, Clone, Copy, PartialEq, Eq, Structural)]
pub struct Capacity {
    pub coord_capacity: usize,
    pub ring_capacity: usize,
    pub part_capacity: usize,
    pub geom_capacity: usize,
}

impl GeometryArray {
    /// The number of coordinates, rings, parts and slots held.
    pub fn buffer_lengths(&self) -> (r: Capacity)
        requires
            self.wf(),
        ensures
            r.coord_capacity == self.coords().len(),
            r.ring_capacity == self.rings().len(),
            r.part_capacity == self.parts().len(),
            r.geom_capacity == self@.len(),
    {
        Capacity {
            coord_capacity: self.coords.len(),
            ring_capacity: self.ring_count(),
            part_capacity: self.part_count(),
            geom_capacity: self.validity.len(),
        }
    }

    /// The buffers of a well-formed column hold exactly what its slots need:
    /// nothing more and nothing less.
    pub proof fn lemma_capacity_exact(&self)
        requires
            self.wf(),
        ensures
            parts_needed(self.kind(), self@) == self.parts().len(),
            rings_needed(self.kind(), self@) == self.rings().len(),
            coords_needed(self.kind(), self@) == self.coords().len(),
    {
        let c = contents(self.kind, self@);
        assert(c =~= self.slots());
        lemma_flat_runs(ov(self.geom_offsets), self.parts());
        lemma_flat_runs(ov(self.part_offsets), self.rings());
        lemma_flat_runs(ov(self.ring_offsets), self.coords@);
    }
}

/// The geometries held by a sequence of optional geometries.
pub open spec fn option_views(v: Seq<Option<Geometry>>) -> Seq<Option<GeomModel>> {
    v.map_values(
        |o: Option<Geometry>|
            match o {
                Some(g) => Some(g@),
                None => None,
            },
    )
}

/// What the slots `v` need, counted as parts, rings and coordinates, does
/// not shrink when slots are appended.
proof fn lemma_needed_prefix(kind: GeometryKind, v: Seq<Option<GeomModel>>, i: int)
    requires
        0 <= i <= v.len(),
    ensures
        parts_needed(kind, v.subrange(0, i)) <= parts_needed(kind, v),
        rings_needed(kind, v.subrange(0, i)) <= rings_needed(kind, v),
        coords_needed(kind, v.subrange(0, i)) <= coords_needed(kind, v),
{
    let a = contents(kind, v.subrange(0, i));
    let b = contents(kind, v.subrange(i, v.len() as int));
    assert(contents(kind, v) =~= a + b);
    lemma_flat_concat(a, b);
    lemma_flat_concat(flat(a), flat(b));
    lemma_flat_concat(flat(flat(a)), flat(flat(b)));
}

/// Appending one slot adds what its contents hold.
proof fn lemma_needed_push(kind: GeometryKind, v: Seq<Option<GeomModel>>, s: Option<GeomModel>)
    ensures
        ({
            let p = match s {
                Some(g) => g.parts,
                None => null_parts(kind),
            };
            &&& parts_needed(kind, v.push(s)) == parts_needed(kind, v) + p.len()
            &&& rings_needed(kind, v.push(s)) == rings_needed(kind, v) + flat(p).len()
            &&& coords_needed(kind, v.push(s)) == coords_needed(kind, v) + flat(flat(p)).len()
        }),
{
    let p = match s {
        Some(g) => g.parts,
        None => null_parts(kind),
    };
    let c = contents(kind, v);
    assert(contents(kind, v.push(s)) =~= c.push(p));
    lemma_flat_push(c, p);
    lemma_flat_concat(flat(c), p);
    lemma_flat_concat(flat(flat(c)), flat(p));
}

/// Counts the rings and coordinates of one geometry.
fn count_geometry(g: &Geometry) -> (r: Option<(usize, usize)>)
    ensures
        r matches Some((rings, coords)) ==> rings == flat(g@.parts).len() && coords == flat(
            flat(g@.parts),
        ).len(),
        r is None ==> flat(flat(g@.parts)).len() > usize::MAX || flat(g@.parts).len() > usize::MAX,
{
    let ghost pv = g@.parts;
    let mut rings: usize = 0;
    let mut coords: usize = 0;
    let mut j: usize = 0;
    while j < g.parts.len()
        invariant
            pv == g@.parts,
            j <= pv.len(),
            rings == flat(pv.subrange(0, j as int)).len(),
            coords == flat(flat(pv.subrange(0, j as int))).len(),
        decreases pv.len() - j,
    {
        let part = &g.parts[j];
        let ghost qv = pv[j as int];
        assert(qv == part_view(*part));
        let ghost pre = pv.subrange(0, j as int);
        assert(pv.subrange(0, j + 1) =~= pre.push(qv));
        proof {
            lemma_flat_push(pre, qv);
            lemma_flat_concat(flat(pre), qv);
            lemma_needed_bound(pv, j as int);
        }
        if part.len() > usize::MAX - rings {
            return None;
        }
        rings = rings + part.len();
        let mut k: usize = 0;
        while k < part.len()
            invariant
                qv == part_view(*part),
                k <= qv.len(),
                pv == g@.parts,
                j < pv.len(),
                pre == pv.subrange(0, j as int),
                qv == pv[j as int],
                coords == flat(flat(pre)).len() + flat(qv.subrange(0, k as int)).len(),
                flat(flat(pre.push(qv))) == flat(flat(pre)) + flat(qv),
            decreases qv.len() - k,
        {
            assert(qv[k as int] == part@[k as int]@);
            let ghost qpre = qv.subrange(0, k as int);
            assert(qv.subrange(0, k + 1) =~= qpre.push(qv[k as int]));
            proof {
                lemma_flat_push(qpre, qv[k as int]);
            }
            if part[k].len() > usize::MAX - coords {
                proof {
                    lemma_flat_prefix(qv, k + 1);
                    lemma_needed_bound(pv, j as int);
                }
                return None;
            }
            coords = coords + part[k].len();
            k = k + 1;
        }
        assert(qv.subrange(0, qv.len() as int) =~= qv);
        j = j + 1;
    }
    assert(pv.subrange(0, pv.len() as int) =~= pv);
    Some((rings, coords))
}

/// A prefix of `s` flattens to no more than `s` does.
proof fn lemma_flat_prefix<T>(s: Seq<Seq<T>>, i: int)
    requires
        0 <= i <= s.len(),
    ensures
        flat(s.subrange(0, i)).len() <= flat(s).len(),
{
    assert(s =~= s.subrange(0, i) + s.subrange(i, s.len() as int));
    lemma_flat_concat(s.subrange(0, i), s.subrange(i, s.len() as int));
}

/// The first `j + 1` parts need no more rings and coordinates than all parts.
proof fn lemma_needed_bound(pv: Parts, j: int)
    requires
        0 <= j < pv.len(),
    ensures
        flat(pv.subrange(0, j + 1)).len() <= flat(pv).len(),
        flat(flat(pv.subrange(0, j + 1))).len() <= flat(flat(pv)).len(),
        flat(flat(pv.subrange(0, j + 1))) == flat(flat(pv.subrange(0, j))) + flat(pv[j]),
{
    let a = pv.subrange(0, j + 1);
    let b = pv.subrange(j + 1, pv.len() as int);
    assert(pv =~= a + b);
    lemma_flat_concat(a, b);
    lemma_flat_concat(flat(a), flat(b));
    assert(a =~= pv.subrange(0, j).push(pv[j]));
    lemma_flat_push(pv.subrange(0, j), pv[j]);
    lemma_flat_concat(flat(pv.subrange(0, j)), pv[j]);
}

/// First pass of a conversion: the exact number of coordinates, rings,
/// parts and slots that a column of `kind` needs for `geoms`. Fails with
/// `Overflow` exactly when one of these counts exceeds `usize`.
pub fn measure(geoms: &Vec<Option<Geometry>>, kind: GeometryKind) -> (r: Result<
    Capacity,
    GeoArrowError,
>)
    ensures
        ({
            let v = option_views(geoms@);
            &&& r matches Ok(c) ==> {
                &&& c.geom_capacity == v.len()
                &&& c.part_capacity == parts_needed(kind, v)
                &&& c.ring_capacity == rings_needed(kind, v)
                &&& c.coord_capacity == coords_needed(kind, v)
            }
            &&& r is Err <==> (parts_needed(kind, v) > usize::MAX || rings_needed(kind, v)
                > usize::MAX || coords_needed(kind, v) > usize::MAX)
            &&& r is Err ==> r == Err::<Capacity, GeoArrowError>(GeoArrowError::Overflow)
        }),
{
    let ghost v = option_views(geoms@);
    let mut parts: usize = 0;
    let mut rings: usize = 0;
    let mut coords: usize = 0;
    let mut i: usize = 0;
    while i < geoms.len()
        invariant
            v == option_views(geoms@),
            i <= v.len(),
            parts == parts_needed(kind, v.subrange(0, i as int)),
            rings == rings_needed(kind, v.subrange(0, i as int)),
            coords == coords_needed(kind, v.subrange(0, i as int)),
        decreases v.len() - i,
    {
        let ghost pre = v.subrange(0, i as int);
        assert(v.subrange(0, i + 1) =~= pre.push(v[i as int]));
        proof {
            lemma_needed_push(kind, pre, v[i as int]);
            lemma_needed_prefix(kind, v, i + 1);
        }
        let (p, rg, c): (usize, usize, usize) = match &geoms[i] {
            Some(g) => {
                match count_geometry(g) {
                    Some((rg, c)) => (g.parts.len(), rg, c),
                    None => {
                        return Err(GeoArrowError::Overflow);
                    },
                }
            },
            None => {
                proof {
                    assert(flat(seq![null_part(kind)]) =~= null_part(kind)) by {
                        lemma_flat_push(Seq::<Seq<Seq<Coord>>>::empty(), null_part(kind));
                        assert(Seq::<Seq<Seq<Coord>>>::empty().push(null_part(kind)) =~= seq![
                            null_part(kind),
                        ]);
                    }
                    if !kind.rings_free() {
                        lemma_flat_push(Seq::<Seq<Coord>>::empty(), null_part(kind)[0]);
                        assert(Seq::<Seq<Coord>>::empty().push(null_part(kind)[0]) =~= null_part(kind));
                    }
                }
                if kind.is_multi_exec() {
                    (0, 0, 0)
                } else if kind.rings_free_exec() {
                    (1, 0, 0)
                } else if kind.coords_free_exec() {
                    (1, 1, 0)
                } else {
                    (1, 1, 1)
                }
            },
        };
        if p > usize::MAX - parts || rg > usize::MAX - rings || c > usize::MAX - coords {
            return Err(GeoArrowError::Overflow);
        }
        parts = parts + p;
        rings = rings + rg;
        coords = coords + c;
        i = i + 1;
    }
    assert(v.subrange(0, v.len() as int) =~= v);
    Ok(Capacity {
        coord_capacity: coords,
        ring_capacity: rings,
        part_capacity: parts,
        geom_capacity: geoms.len(),
    })
}

/// Whether `o` is present exactly when `free`, and is a well-formed level
/// over `below` items; returns the number of slots of the level.
fn check_level(o: &Option<Vec<usize>>, free: bool, below: usize) -> (r: Option<usize>)
    ensures
        r is Some <==> ((*o is Some) == free && level_wf(ov(*o), below as int)),
        r matches Some(n) ==> n == level_len(ov(*o), below as int),
{
    match o {
        None => {
            if free {
                None
            } else {
                Some(below)
            }
        },
        Some(v) => {
            if !free {
                return None;
            }
            let ghost s = v@.map_values(|x: usize| x as int);
            assert(ov(*o) == Some(s));
            if v.len() == 0 || v[0] != 0 || v[v.len() - 1] != below {
                return None;
            }
            let last = v.len() - 1;
            let mut i: usize = 0;
            while i < last
                invariant
                    s == v@.map_values(|x: usize| x as int),
                    ov(*o) == Some(s),
                    last + 1 == v@.len(),
                    s.len() == v@.len(),
                    0 <= i < v@.len(),
                    forall|k: int| 0 <= k < i ==> #[trigger] s[k] <= s[k + 1],
                    forall|k: int| 0 <= k < i ==> #[trigger] s[k + 1] - s[k] <= u32::MAX,
                decreases v@.len() - i,
            {
                if v[i] > v[i + 1] || v[i + 1] - v[i] > 4294967295 {
                    assert(s[i as int] == v@[i as int] && s[i + 1] == v@[i + 1]);
                    return None;
                }
                assert(s[i as int] == v@[i as int] && s[i + 1] == v@[i + 1]);
                i = i + 1;
            }
            Some(last)
        },
    }
}

/// The nested coordinates of every slot that these buffers describe.
pub open spec fn buffer_slots(
    coords: CoordBuffer,
    geom_offsets: Option<Vec<usize>>,
    part_offsets: Option<Vec<usize>>,
    ring_offsets: Option<Vec<usize>>,
) -> Seq<Parts> {
    runs(ov(geom_offsets), runs(ov(part_offsets), runs(ov(ring_offsets), coords@)))
}

/// Buffers that make a well-formed array of `kind`: a consistent coordinate
/// buffer; an offset buffer exactly for each free level, each starting at
/// zero, never decreasing, ending at the size of the level below and with
/// runs that fit 32-bit counts; and, where validity is given, one bit per
/// slot with every null slot occupying `null_parts`.
pub open spec fn buffers_valid(
    kind: GeometryKind,
    coords: CoordBuffer,
    geom_offsets: Option<Vec<usize>>,
    part_offsets: Option<Vec<usize>>,
    ring_offsets: Option<Vec<usize>>,
    validity: Option<Vec<bool>>,
) -> bool {
    let rings = runs(ov(ring_offsets), coords@);
    let parts = runs(ov(part_offsets), rings);
    let slots = runs(ov(geom_offsets), parts);
    &&& coords.wf()
    &&& (ring_offsets is Some <==> kind.coords_free())
    &&& level_wf(ov(ring_offsets), coords@.len() as int)
    &&& (part_offsets is Some <==> kind.rings_free())
    &&& level_wf(ov(part_offsets), rings.len() as int)
    &&& (geom_offsets is Some <==> kind.parts_free())
    &&& level_wf(ov(geom_offsets), parts.len() as int)
    &&& validity matches Some(v) ==> {
        &&& v@.len() == slots.len()
        &&& forall|i: int| 0 <= i < v@.len() && !v@[i] ==> #[trigger] slots[i] == null_parts(kind)
    }
}

impl GeometryArray {
    /// Whether null slot `i` occupies exactly `null_parts`.
    fn null_slot_ok(&self, i: usize) -> (r: bool)
        requires
            self.parts_wf(),
            (self.geom_offsets is Some <==> self.kind.parts_free()),
            level_wf(ov(self.geom_offsets), self.parts().len() as int),
            i < self.slots().len(),
        ensures
            r == (self.slots()[i as int] == null_parts(self.kind)),
    {
        let ghost k = self.kind;
        proof {
            lemma_level_bounds(ov(self.geom_offsets), self.parts().len() as int, i as int);
        }
        if self.kind.is_multi_exec() {
            let total = match &self.geom_offsets {
                Some(v) => v.len(),
                None => 0,
            };
            let n = self.part_count();
            let lo = get_offset(&self.geom_offsets, i);
            let hi = get_offset(&self.geom_offsets, i + 1);
            assert(self.slots()[i as int].len() == hi - lo);
            assert(lo == hi ==> self.slots()[i as int] =~= null_parts(k));
            return lo == hi;
        }
        assert(self.slots()[i as int] =~= seq![self.parts()[i as int]]);
        proof {
            lemma_level_bounds(ov(self.part_offsets), self.rings().len() as int, i as int);
        }
        let np = self.part_count();
        if self.kind.rings_free_exec() {
            let lo = get_offset(&self.part_offsets, i);
            let hi = get_offset(&self.part_offsets, i + 1);
            assert(self.parts()[i as int].len() == hi - lo);
            assert(lo == hi ==> self.parts()[i as int] =~= null_part(k));
            assert(self.slots()[i as int] == null_parts(k) ==> self.slots()[i as int][0]
                == null_part(k));
            return lo == hi;
        }
        assert(self.parts()[i as int] =~= seq![self.rings()[i as int]]);
        proof {
            lemma_level_bounds(ov(self.ring_offsets), self.coords@.len() as int, i as int);
        }
        let nr = self.ring_count();
        if self.kind.coords_free_exec() {
            let lo = get_offset(&self.ring_offsets, i);
            let hi = get_offset(&self.ring_offsets, i + 1);
            assert(self.rings()[i as int].len() == hi - lo);
            assert(lo == hi ==> self.rings()[i as int] =~= Seq::<Coord>::empty());
            assert(lo == hi ==> self.parts()[i as int] =~~= null_part(k));
            assert(self.slots()[i as int] == null_parts(k) ==> self.slots()[i as int][0][0]
                == null_part(k)[0]);
            return lo == hi;
        }
        assert(self.rings()[i as int] =~= seq![self.coords@[i as int]]);
        let c = self.coords.get(i);
        let zero = c.x == 0 && c.y == 0 && c.z == 0;
        assert(zero ==> self.slots()[i as int] =~~= null_parts(k));
        assert(self.slots()[i as int] == null_parts(k) ==> self.slots()[i as int][0][0][0]
            == null_part(k)[0][0]);
        zero
    }

    /// An array from its buffers. The dimension is that of the coordinates;
    /// without validity every slot is valid. Fails with `FormatError` unless
    /// the buffers are valid for `kind`.
    pub fn try_new(
        kind: GeometryKind,
        coords: CoordBuffer,
        geom_offsets: Option<Vec<usize>>,
        part_offsets: Option<Vec<usize>>,
        ring_offsets: Option<Vec<usize>>,
        validity: Option<Vec<bool>>,
    ) -> (r: Result<GeometryArray, GeoArrowError>)
        ensures
            r is Ok <==> buffers_valid(
                kind,
                coords,
                geom_offsets,
                part_offsets,
                ring_offsets,
                validity,
            ),
            r is Err ==> r == Err::<GeometryArray, GeoArrowError>(GeoArrowError::FormatError),
            r matches Ok(a) ==> {
                &&& a.wf()
                &&& a.kind() == kind
                &&& a.dim() == coords.dim()
                &&& a.coords() == coords@
                &&& a.level_offsets(0) == ov(geom_offsets)
                &&& a.level_offsets(1) == ov(part_offsets)
                &&& a.level_offsets(2) == ov(ring_offsets)
                &&& a@.len() == buffer_slots(coords, geom_offsets, part_offsets, ring_offsets).len()
                &&& forall|i: int|
                    0 <= i < a@.len() ==> #[trigger] a@[i] == if match validity {
                        Some(v) => v@[i],
                        None => true,
                    } {
                        Some(
                            GeomModel {
                                kind,
                                dim: coords.dim(),
                                parts: buffer_slots(coords, geom_offsets, part_offsets, ring_offsets)[i],
                            },
                        )
                    } else {
                        None
                    }
            },
    {
        let ghost c0 = coords;
        let ghost g0 = geom_offsets;
        let ghost p0 = part_offsets;
        let ghost r0 = ring_offsets;
        let coords_ok = match &coords {
            CoordBuffer::Interleaved { dim: Dimension::XY, values } => values.len() % 2 == 0,
            CoordBuffer::Interleaved { dim: Dimension::XYZ, values } => values.len() % 3 == 0,
            CoordBuffer::Separated { dim, x, y, z } => x.len() == y.len() && z.len() == match dim {
                Dimension::XY => 0,
                Dimension::XYZ => x.len(),
            },
        };
        if !coords_ok {
            return Err(GeoArrowError::FormatError);
        }
        let nc = coords.len();
        let nr = match check_level(&ring_offsets, kind.coords_free_exec(), nc) {
            Some(n) => n,
            None => {
                return Err(GeoArrowError::FormatError);
            },
        };
        let np = match check_level(&part_offsets, kind.rings_free_exec(), nr) {
            Some(n) => n,
            None => {
                return Err(GeoArrowError::FormatError);
            },
        };
        let ng = match check_level(&geom_offsets, kind.is_multi_exec(), np) {
            Some(n) => n,
            None => {
                return Err(GeoArrowError::FormatError);
            },
        };
        let ghost given = validity;
        let bits = match validity {
            Some(v) => {
                if v.len() != ng {
                    return Err(GeoArrowError::FormatError);
                }
                v
            },
            None => {
                let mut v: Vec<bool> = Vec::new();
                let mut i: usize = 0;
                while i < ng
                    invariant
                        i <= ng,
                        v@.len() == i,
                        forall|j: int| 0 <= j < i ==> v@[j],
                    decreases ng - i,
                {
                    v.push(true);
                    i = i + 1;
                }
                v
            },
        };
        let dim = coords.dimension();
        let a = GeometryArray {
            kind,
            dim,
            coords,
            ring_offsets,
            part_offsets,
            geom_offsets,
            validity: bits,
            metadata: ArrayMetadata::new(),
        };
        proof {
            assert forall|i: int| 0 <= i < a.coords@.len() implies a.dim.holds(#[trigger] a.coords@[i]) by {
            }
        }
        let mut i: usize = 0;
        while i < ng
            invariant
                a.parts_wf(),
                (a.geom_offsets is Some <==> a.kind.parts_free()),
                level_wf(ov(a.geom_offsets), a.parts().len() as int),
                ng == a.slots().len(),
                a.validity@.len() == ng,
                i <= ng,
                forall|j: int| 0 <= j < i && !a.validity@[j] ==> #[trigger] a.slots()[j] == null_parts(a.kind),
                given matches Some(v) ==> v@ == a.validity@,
                given is None ==> forall|j: int| 0 <= j < ng ==> a.validity@[j],
                a.kind == kind,
                a.coords == c0,
                a.geom_offsets == g0,
                a.part_offsets == p0,
                a.ring_offsets == r0,
                c0 == coords,
                g0 == geom_offsets,
                p0 == part_offsets,
                r0 == ring_offsets,
                given == validity,
            decreases ng - i,
        {
            if !a.validity[i] && !a.null_slot_ok(i) {
                proof {
                    assert(given matches Some(v) && v@ == a.validity@);
                    assert(a.slots()[i as int] != null_parts(kind));
                    assert(a.slots() == runs(ov(g0), runs(ov(p0), runs(ov(r0), c0@))));
                    assert(!buffers_valid(kind, c0, g0, p0, r0, given));
                }
                return Err(GeoArrowError::FormatError);
            }
            i = i + 1;
        }
        Ok(a)
    }
}

} // verus!
