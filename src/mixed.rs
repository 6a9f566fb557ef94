use vstd::prelude::*;

use crate::array::GeometryArray;
use crate::coord::CoordType;
use crate::metadata::ArrayMetadata;
use crate::geometry::{retag, Dimension, GeomModel, Geometry, GeometryKind};

verus! {

/// A column whose slots may each hold any concrete kind: a kind tag and an
/// index into the child array of that kind, per slot. Null slots are stored
/// as null points.
#[derive(Debug, Clone)]
pub struct MixedGeometryArray {
    dim: Dimension,
    coord_type: CoordType,
    type_ids: Vec<GeometryKind>,
    offsets: Vec<usize>,
    points: GeometryArray,
    line_strings: GeometryArray,
    polygons: GeometryArray,
    multi_points: GeometryArray,
    multi_line_strings: GeometryArray,
    multi_polygons: GeometryArray,
    metadata: ArrayMetadata,
}

impl MixedGeometryArray {
    /// The coordinate reference system carried by the array.
    pub closed spec fn crs(&self) -> Option<Seq<char>> {
        self.metadata@
    }

    pub closed spec fn child(&self, k: GeometryKind) -> GeometryArray {
        match k {
            GeometryKind::Point => self.points,
            GeometryKind::LineString => self.line_strings,
            GeometryKind::Polygon => self.polygons,
            GeometryKind::MultiPoint => self.multi_points,
            GeometryKind::MultiLineString => self.multi_line_strings,
            GeometryKind::MultiPolygon => self.multi_polygons,
        }
    }

    pub closed spec fn dim(&self) -> Dimension {
        self.dim
    }

    pub closed spec fn coord_type(&self) -> CoordType {
        self.coord_type
    }

    pub closed spec fn wf(&self) -> bool {
        &&& forall|k: GeometryKind|
            {
                &&& (#[trigger] self.child(k)).wf()
                &&& self.child(k).kind() == k
                &&& self.child(k).dim() == self.dim
                &&& self.child(k).coord_type() == self.coord_type
            }
        &&& self.type_ids@.len() == self.offsets@.len()
        &&& forall|i: int|
            0 <= i < self.offsets@.len() ==> #[trigger] self.offsets@[i] < self.child(
                self.type_ids@[i],
            )@.len()
    }
}

impl View for MixedGeometryArray {
    type V = Seq<Option<GeomModel>>;

    closed spec fn view(&self) -> Seq<Option<GeomModel>> {
        Seq::new(
            self.type_ids@.len(),
            |i: int| self.child(self.type_ids@[i])@[self.offsets@[i] as int],
        )
    }
}

impl MixedGeometryArray {
    /// An empty array.
    pub fn new(dim: Dimension, coord_type: CoordType) -> (r: MixedGeometryArray)
        ensures
            r.wf(),
            r@.len() == 0,
            r.dim() == dim,
            r.coord_type() == coord_type,
    {
        let r = MixedGeometryArray {
            dim,
            coord_type,
            type_ids: Vec::new(),
            offsets: Vec::new(),
            points: GeometryArray::new(GeometryKind::Point, dim, coord_type),
            line_strings: GeometryArray::new(GeometryKind::LineString, dim, coord_type),
            polygons: GeometryArray::new(GeometryKind::Polygon, dim, coord_type),
            multi_points: GeometryArray::new(GeometryKind::MultiPoint, dim, coord_type),
            multi_line_strings: GeometryArray::new(GeometryKind::MultiLineString, dim, coord_type),
            multi_polygons: GeometryArray::new(GeometryKind::MultiPolygon, dim, coord_type),
            metadata: ArrayMetadata::new(),
        };
        assert(r@ =~= Seq::empty());
        r
    }

    /// The same array carrying `metadata`.
    pub fn with_metadata(self, metadata: ArrayMetadata) -> (r: MixedGeometryArray)
        ensures
            r@ == self@,
            self.wf() ==> r.wf(),
            r.dim() == self.dim(),
            r.coord_type() == self.coord_type(),
            r.crs() == metadata@,
    {
        let r = MixedGeometryArray { metadata, ..self };
        assert(forall|k: GeometryKind| #[trigger] r.child(k) == self.child(k));
        assert(r@ =~= self@);
        r
    }

    pub fn metadata(&self) -> (r: &ArrayMetadata)
        ensures
            r@ == self.crs(),
    {
        &self.metadata
    }

    pub fn dim_exec(&self) -> (r: Dimension)
        ensures
            r == self.dim(),
    {
        self.dim
    }

    pub fn coord_type_exec(&self) -> (r: CoordType)
        ensures
            r == self.coord_type(),
    {
        self.coord_type
    }

    /// Number of slots.
    pub fn len(&self) -> (r: usize)
        ensures
            r == self@.len(),
    {
        self.type_ids.len()
    }

    pub fn is_empty(&self) -> (r: bool)
        ensures
            r == (self@.len() == 0),
    {
        self.type_ids.len() == 0
    }

    /// Every slot is null or a well-formed geometry of the array's dimension.
    pub proof fn lemma_view_wf(&self)
        requires
            self.wf(),
        ensures
            forall|i: int|
                0 <= i < self@.len() ==> (#[trigger] self@[i] matches Some(g) ==> g.wf() && g.dim
                    == self.dim()),
    {
        assert forall|i: int| 0 <= i < self@.len() implies (#[trigger] self@[i] matches Some(g)
            ==> g.wf() && g.dim == self.dim()) by {
            let c = self.child(self.type_ids@[i]);
            assert(c.wf());
            c.lemma_view_wf();
            assert(self@[i] == c@[self.offsets@[i] as int]);
        }
    }

    /// After one child of kind `kind` had one slot appended and a slot
    /// pointing at it was added, the array is well formed and the old slots
    /// are unchanged.
    proof fn lemma_frame(&self, prev: MixedGeometryArray, kind: GeometryKind)
        requires
            prev.wf(),
            self.dim == prev.dim,
            self.coord_type == prev.coord_type,
            self.metadata == prev.metadata,
            self.type_ids@ == prev.type_ids@.push(kind),
            prev.child(kind)@.len() <= usize::MAX,
            self.offsets@ == prev.offsets@.push(prev.child(kind)@.len() as usize),
            self.child(kind).wf(),
            self.child(kind).kind() == kind,
            self.child(kind).dim() == prev.dim,
            self.child(kind).coord_type() == prev.coord_type,
            self.child(kind)@.len() == prev.child(kind)@.len() + 1,
            forall|j: int|
                0 <= j < prev.child(kind)@.len() ==> #[trigger] self.child(kind)@[j] == prev.child(
                    kind,
                )@[j],
            forall|k: GeometryKind| k != kind ==> #[trigger] self.child(k) == prev.child(k),
        ensures
            self.wf(),
            self@.len() == prev@.len() + 1,
            forall|i: int| 0 <= i < prev@.len() ==> #[trigger] self@[i] == prev@[i],
            self@[prev@.len() as int] == self.child(kind)@[prev.child(kind)@.len() as int],
    {
        assert forall|k: GeometryKind|
            {
                &&& (#[trigger] self.child(k)).wf()
                &&& self.child(k).kind() == k
                &&& self.child(k).dim() == self.dim
                &&& self.child(k).coord_type() == self.coord_type
            } by {
            if k != kind {
                assert(prev.child(k).wf());
            }
        }
        assert forall|i: int| 0 <= i < self.offsets@.len() implies #[trigger] self.offsets@[i]
            < self.child(self.type_ids@[i])@.len() by {
            if i < prev.offsets@.len() {
                assert(self.type_ids@[i] == prev.type_ids@[i]);
                assert(prev.offsets@[i] < prev.child(prev.type_ids@[i])@.len());
            }
        }
        assert(self.offsets@[prev@.len() as int] == prev.child(kind)@.len());
        assert forall|i: int| 0 <= i < prev@.len() implies #[trigger] self@[i] == prev@[i] by {
            assert(self.type_ids@[i] == prev.type_ids@[i]);
            assert(self.offsets@[i] == prev.offsets@[i]);
            assert(prev.offsets@[i] < prev.child(prev.type_ids@[i])@.len());
        }
    }

    /// Appends a geometry; with `prefer_multi` a single-part geometry is
    /// stored as the multi-part kind of its base.
    pub fn push_geometry(&mut self, g: &Geometry, prefer_multi: bool)
        requires
            old(self).wf(),
            g@.wf(),
            g.dim == old(self).dim(),
        ensures
            final(self).wf(),
            final(self)@ == old(self)@.push(
                Some(
                    if prefer_multi {
                        retag(g@, g.kind.multi())
                    } else {
                        g@
                    },
                ),
            ),
            final(self).dim() == old(self).dim(),
            final(self).coord_type() == old(self).coord_type(),
            final(self).crs() == old(self).crs(),
    {
        let kind = if prefer_multi {
            g.kind.multi_exec()
        } else {
            g.kind
        };
        let ghost g2 = retag(g@, kind);
        assert(g2.wf());
        assert(self.child(kind).wf() && self.child(kind).kind() == kind);
        match kind {
            GeometryKind::Point => {
                self.offsets.push(self.points.len());
                self.points.push_geometry(g);
            },
            GeometryKind::LineString => {
                self.offsets.push(self.line_strings.len());
                self.line_strings.push_geometry(g);
            },
            GeometryKind::Polygon => {
                self.offsets.push(self.polygons.len());
                self.polygons.push_geometry(g);
            },
            GeometryKind::MultiPoint => {
                self.offsets.push(self.multi_points.len());
                self.multi_points.push_geometry(g);
            },
            GeometryKind::MultiLineString => {
                self.offsets.push(self.multi_line_strings.len());
                self.multi_line_strings.push_geometry(g);
            },
            GeometryKind::MultiPolygon => {
                self.offsets.push(self.multi_polygons.len());
                self.multi_polygons.push_geometry(g);
            },
        }
        self.type_ids.push(kind);
        proof {
            self.lemma_frame(*old(self), kind);
            assert(self@ =~= old(self)@.push(Some(g2)));
        }
    }

    /// Appends a null slot.
    pub fn push_null(&mut self)
        requires
            old(self).wf(),
        ensures
            final(self).wf(),
            final(self)@ == old(self)@.push(None),
            final(self).dim() == old(self).dim(),
            final(self).coord_type() == old(self).coord_type(),
            final(self).crs() == old(self).crs(),
    {
        assert(self.child(GeometryKind::Point).wf());
        self.offsets.push(self.points.len());
        self.points.push_null();
        self.type_ids.push(GeometryKind::Point);
        proof {
            self.lemma_frame(*old(self), GeometryKind::Point);
            assert(self@ =~= old(self)@.push(None));
        }
    }
}

/// Some slot holds a geometry.
pub open spec fn has_valid(v: Seq<Option<GeomModel>>) -> bool {
    exists|i: int| 0 <= i < v.len() && #[trigger] v[i] is Some
}

/// Every geometry has base (single-part kind) `b`.
pub open spec fn all_base(v: Seq<Option<GeomModel>>, b: GeometryKind) -> bool {
    forall|i: int| 0 <= i < v.len() ==> (#[trigger] v[i] matches Some(g) ==> g.kind.single() == b)
}

/// Every geometry has exactly one part.
pub open spec fn all_single_part(v: Seq<Option<GeomModel>>) -> bool {
    forall|i: int| 0 <= i < v.len() ==> (#[trigger] v[i] matches Some(g) ==> g.parts.len() == 1)
}

/// Every geometry is of a multi-part kind.
pub open spec fn all_multi(v: Seq<Option<GeomModel>>) -> bool {
    forall|i: int| 0 <= i < v.len() ==> (#[trigger] v[i] matches Some(g) ==> g.kind.is_multi())
}

/// The concrete kind that a column narrows to, if any. All geometries must
/// share one base kind. If each has a single part, the column narrows to the
/// single-part kind. Otherwise it narrows to the multi-part kind when all are
/// multi-part already, or when `prefer_multi` allows single-part ones to be
/// widened. A column without geometries does not narrow.
pub open spec fn narrow_target(v: Seq<Option<GeomModel>>, prefer_multi: bool) -> Option<
    GeometryKind,
> {
    if has_valid(v) {
        let i = choose|i: int| 0 <= i < v.len() && #[trigger] v[i] is Some;
        let b = v[i]->0.kind.single();
        if !all_base(v, b) {
            None
        } else if all_single_part(v) {
            Some(b)
        } else if prefer_multi || all_multi(v) {
            Some(b.multi())
        } else {
            None
        }
    } else {
        None
    }
}

/// Every geometry re-tagged as `kind`.
pub open spec fn retag_all(v: Seq<Option<GeomModel>>, kind: GeometryKind) -> Seq<Option<GeomModel>> {
    Seq::new(
        v.len(),
        |i: int|
            match v[i] {
                Some(g) => Some(retag(g, kind)),
                None => None,
            },
    )
}

impl MixedGeometryArray {
    fn child_ref(&self, k: GeometryKind) -> (r: &GeometryArray)
        ensures
            *r == self.child(k),
    {
        match k {
            GeometryKind::Point => &self.points,
            GeometryKind::LineString => &self.line_strings,
            GeometryKind::Polygon => &self.polygons,
            GeometryKind::MultiPoint => &self.multi_points,
            GeometryKind::MultiLineString => &self.multi_line_strings,
            GeometryKind::MultiPolygon => &self.multi_polygons,
        }
    }

    /// Whether slot `i` holds a geometry.
    pub fn is_valid(&self, i: usize) -> (r: bool)
        requires
            self.wf(),
            i < self@.len(),
        ensures
            r == self@[i as int] is Some,
    {
        let c = self.child_ref(self.type_ids[i]);
        assert(c.wf());
        c.is_valid(self.offsets[i])
    }

    /// The kind tag of slot `i`.
    pub fn kind_at(&self, i: usize) -> (r: GeometryKind)
        requires
            self.wf(),
            i < self@.len(),
        ensures
            self@[i as int] matches Some(g) ==> r == g.kind,
    {
        let k = self.type_ids[i];
        proof {
            let c = self.child(k);
            assert(c.wf() && c.kind() == k);
            c.lemma_view_wf();
            assert(self@[i as int] == c@[self.offsets@[i as int] as int]);
        }
        k
    }

    /// Number of parts of slot `i`.
    pub fn num_parts(&self, i: usize) -> (r: usize)
        requires
            self.wf(),
            i < self@.len(),
        ensures
            self@[i as int] matches Some(g) ==> r == g.parts.len(),
    {
        let c = self.child_ref(self.type_ids[i]);
        assert(c.wf());
        c.num_parts(self.offsets[i])
    }

    /// The geometry of slot `i`, or `None` where the slot is null.
    pub fn value(&self, i: usize) -> (r: Option<Geometry>)
        requires
            self.wf(),
            i < self@.len(),
        ensures
            r matches Some(g) ==> self@[i as int] == Some(g@),
            r is None ==> self@[i as int] is None,
    {
        let c = self.child_ref(self.type_ids[i]);
        assert(c.wf());
        c.value(self.offsets[i])
    }

    /// Whether some slot holds a point.
    pub fn has_points(&self) -> (r: bool)
        requires
            self.wf(),
        ensures
            r == exists|i: int|
                0 <= i < self@.len() && (#[trigger] self@[i] matches Some(g) && g.kind
                    == GeometryKind::Point),
    {
        let n = self.len();
        let mut i: usize = 0;
        while i < n
            invariant
                self.wf(),
                n == self@.len(),
                i <= n,
                forall|j: int|
                    0 <= j < i ==> !(#[trigger] self@[j] matches Some(g) && g.kind
                        == GeometryKind::Point),
            decreases n - i,
        {
            if self.is_valid(i) && self.kind_at(i) == GeometryKind::Point {
                return true;
            }
            i = i + 1;
        }
        false
    }

    /// The kind that the array narrows to.
    pub fn narrow_kind(&self, prefer_multi: bool) -> (r: Option<GeometryKind>)
        requires
            self.wf(),
        ensures
            r == narrow_target(self@, prefer_multi),
    {
        let n = self.len();
        let mut first: usize = 0;
        while first < n && !self.is_valid(first)
            invariant
                self.wf(),
                n == self@.len(),
                first <= n,
                forall|j: int| 0 <= j < first ==> #[trigger] self@[j] is None,
            decreases n - first,
        {
            first = first + 1;
        }
        if first == n {
            return None;
        }
        let b = self.kind_at(first).single_exec();
        let mut same_base = true;
        let mut single_part = true;
        let mut multi = true;
        let ghost mut bad: int = 0;
        let mut i: usize = 0;
        while i < n
            invariant
                self.wf(),
                n == self@.len(),
                i <= n,
                first < n,
                self@[first as int] matches Some(g) && g.kind.single() == b,
                same_base <==> all_base(self@.subrange(0, i as int), b),
                !same_base ==> 0 <= bad < n && (self@[bad] matches Some(g) && g.kind.single() != b),
                single_part <==> all_single_part(self@.subrange(0, i as int)),
                multi <==> all_multi(self@.subrange(0, i as int)),
            decreases n - i,
        {
            let ghost pre = self@.subrange(0, i as int);
            let ghost post = self@.subrange(0, i + 1);
            assert(post =~= pre.push(self@[i as int]));
            if self.is_valid(i) {
                let k = self.kind_at(i);
                if k.single_exec() != b {
                    same_base = false;
                    proof {
                        bad = i as int;
                    }
                }
                if self.num_parts(i) != 1 {
                    single_part = false;
                }
                if !k.is_multi_exec() {
                    multi = false;
                }
            }
            proof {
                assert(all_base(post, b) <==> (all_base(pre, b) && (self@[i as int] matches Some(g)
                    ==> g.kind.single() == b))) by {
                    if all_base(pre, b) && (self@[i as int] matches Some(g) ==> g.kind.single()
                        == b) {
                        assert forall|j: int| 0 <= j < post.len() implies (#[trigger] post[j] matches Some(g)
                            ==> g.kind.single() == b) by {
                            if j < pre.len() {
                                assert(post[j] == pre[j]);
                            }
                        }
                    }
                    if all_base(post, b) {
                        assert(post[i as int] == self@[i as int]);
                        assert forall|j: int| 0 <= j < pre.len() implies (#[trigger] pre[j] matches Some(g)
                            ==> g.kind.single() == b) by {
                            assert(post[j] == pre[j]);
                        }
                    }
                }
                assert(all_single_part(post) <==> (all_single_part(pre) && (self@[i as int] matches Some(g)
                    ==> g.parts.len() == 1))) by {
                    if all_single_part(pre) && (self@[i as int] matches Some(g) ==> g.parts.len() == 1) {
                        assert forall|j: int| 0 <= j < post.len() implies (#[trigger] post[j] matches Some(g)
                            ==> g.parts.len() == 1) by {
                            if j < pre.len() {
                                assert(post[j] == pre[j]);
                            }
                        }
                    }
                    if all_single_part(post) {
                        assert(post[i as int] == self@[i as int]);
                        assert forall|j: int| 0 <= j < pre.len() implies (#[trigger] pre[j] matches Some(g)
                            ==> g.parts.len() == 1) by {
                            assert(post[j] == pre[j]);
                        }
                    }
                }
                assert(all_multi(post) <==> (all_multi(pre) && (self@[i as int] matches Some(g)
                    ==> g.kind.is_multi()))) by {
                    if all_multi(pre) && (self@[i as int] matches Some(g) ==> g.kind.is_multi()) {
                        assert forall|j: int| 0 <= j < post.len() implies (#[trigger] post[j] matches Some(g)
                            ==> g.kind.is_multi()) by {
                            if j < pre.len() {
                                assert(post[j] == pre[j]);
                            }
                        }
                    }
                    if all_multi(post) {
                        assert(post[i as int] == self@[i as int]);
                        assert forall|j: int| 0 <= j < pre.len() implies (#[trigger] pre[j] matches Some(g)
                            ==> g.kind.is_multi()) by {
                            assert(post[j] == pre[j]);
                        }
                    }
                }
            }
            i = i + 1;
        }
        let ghost v = self@;
        assert(v.subrange(0, n as int) =~= v);
        assert(has_valid(v)) by {
            assert(v[first as int] is Some);
        }
        let ghost c = choose|i: int| 0 <= i < v.len() && #[trigger] v[i] is Some;
        let ghost bc = v[c]->0.kind.single();
        proof {
            if same_base {
                assert(bc == b);
            } else {
                assert(!all_base(v, bc)) by {
                    if bc == b {
                        assert(v[bad] matches Some(g) && g.kind.single() != bc);
                    } else {
                        assert(v[first as int] matches Some(g) && g.kind.single() != bc);
                    }
                }
            }
        }
        if !same_base {
            None
        } else if single_part {
            Some(b)
        } else if prefer_multi || multi {
            Some(b.multi_exec())
        } else {
            None
        }
    }
}

} // verus!
