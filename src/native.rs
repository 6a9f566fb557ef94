use vstd::prelude::*;

use crate::array::GeometryArray;
use crate::metadata::ArrayMetadata;
use crate::geometry::{retag, Dimension, GeomModel, Geometry, GeometryKind};
use crate::collection::{first_members, single_members, GeometryCollectionArray};
use crate::coord::CoordType;
use crate::mixed::{all_single_part, has_valid, narrow_target, retag_all, MixedGeometryArray};

verus! {

/// A geometry column of one concrete kind, of mixed kinds, or of geometry
/// collections.
#[derive(Debug, Clone)]
pub enum NativeArray {
    Geometry(GeometryArray),
    Mixed(MixedGeometryArray),
    Collection(GeometryCollectionArray),
}

/// What a column is: its concrete kind (`None` for a mixed or collection
/// column) and its slots. A collection column has its members in `members`,
/// and the first member of each slot in `slots`.
pub struct NativeModel {
    pub kind: Option<GeometryKind>,
    pub slots: Seq<Option<GeomModel>>,
    pub members: Option<Seq<Option<Seq<GeomModel>>>>,
}

/// Narrowing a column of single geometries: a concrete column is left as it
/// is; a mixed column narrows to its target kind, re-tagging every geometry,
/// or stays mixed.
pub open spec fn narrow_model(x: NativeModel, prefer_multi: bool) -> NativeModel {
    match x.kind {
        Some(_) => x,
        None => match narrow_target(x.slots, prefer_multi) {
            Some(t) => NativeModel { kind: Some(t), slots: retag_all(x.slots, t), members: None },
            None => x,
        },
    }
}

/// Downcasting: a collection column whose slots each hold at most one
/// member becomes the mixed column of those members, narrowed; any other
/// collection column stays as it is; other columns are narrowed.
pub open spec fn downcast_model(x: NativeModel, prefer_multi: bool) -> NativeModel {
    match x.members {
        Some(ms) => if single_members(ms) {
            narrow_model(
                NativeModel { kind: None, slots: first_members(ms), members: None },
                prefer_multi,
            )
        } else {
            x
        },
        None => narrow_model(x, prefer_multi),
    }
}

/// Upcasting: the same slots, as a mixed column.
pub open spec fn upcast_model(x: NativeModel) -> NativeModel {
    NativeModel { kind: None, slots: x.slots, members: None }
}

impl NativeArray {
    pub open spec fn wf(&self) -> bool {
        match self {
            NativeArray::Geometry(a) => a.wf(),
            NativeArray::Mixed(m) => m.wf(),
            NativeArray::Collection(c) => c.wf(),
        }
    }

    pub open spec fn model(&self) -> NativeModel {
        match self {
            NativeArray::Geometry(a) => NativeModel { kind: Some(a.kind()), slots: a@, members: None },
            NativeArray::Mixed(m) => NativeModel { kind: None, slots: m@, members: None },
            NativeArray::Collection(c) => NativeModel {
                kind: None,
                slots: first_members(c@),
                members: Some(c@),
            },
        }
    }

    pub open spec fn is_collection(&self) -> bool {
        self is Collection
    }

    pub open spec fn dim(&self) -> Dimension {
        match self {
            NativeArray::Geometry(a) => a.dim(),
            NativeArray::Mixed(m) => m.dim(),
            NativeArray::Collection(c) => c.dim(),
        }
    }

    pub open spec fn coord_type(&self) -> CoordType {
        match self {
            NativeArray::Geometry(a) => a.coord_type(),
            NativeArray::Mixed(m) => m.coord_type(),
            NativeArray::Collection(c) => c.coord_type(),
        }
    }

    /// The coordinate reference system carried by the column.
    pub open spec fn crs(&self) -> Option<Seq<char>> {
        match self {
            NativeArray::Geometry(a) => a.crs(),
            NativeArray::Mixed(m) => m.crs(),
            NativeArray::Collection(c) => c.crs(),
        }
    }

    pub fn metadata(&self) -> (r: &ArrayMetadata)
        ensures
            r@ == self.crs(),
    {
        match self {
            NativeArray::Geometry(a) => a.metadata(),
            NativeArray::Mixed(m) => m.metadata(),
            NativeArray::Collection(c) => c.metadata(),
        }
    }

    /// Number of slots.
    pub fn len(&self) -> (r: usize)
        ensures
            r == self.model().slots.len(),
    {
        match self {
            NativeArray::Geometry(a) => a.len(),
            NativeArray::Mixed(m) => m.len(),
            NativeArray::Collection(c) => c.len(),
        }
    }

    /// The concrete kind, or `None` for a mixed or collection column.
    pub fn kind(&self) -> (r: Option<GeometryKind>)
        ensures
            r == self.model().kind,
    {
        match self {
            NativeArray::Geometry(a) => Some(a.kind_exec()),
            NativeArray::Mixed(_) => None,
            NativeArray::Collection(_) => None,
        }
    }

    /// The geometry of slot `i` of a column of single geometries, or `None`
    /// where the slot is null.
    pub fn value(&self, i: usize) -> (r: Option<Geometry>)
        requires
            self.wf(),
            !self.is_collection(),
            i < self.model().slots.len(),
        ensures
            r matches Some(g) ==> self.model().slots[i as int] == Some(g@),
            r is None ==> self.model().slots[i as int] is None,
    {
        match self {
            NativeArray::Geometry(a) => a.value(i),
            NativeArray::Mixed(m) => m.value(i),
            NativeArray::Collection(_) => None,
        }
    }

    /// Narrows a mixed or collection column as `downcast_model` says; a
    /// concrete column is returned unchanged.
    pub fn downcast(self, prefer_multi: bool) -> (r: NativeArray)
        requires
            self.wf(),
        ensures
            r.wf(),
            r.model() == downcast_model(self.model(), prefer_multi),
            r.dim() == self.dim(),
            r.crs() == self.crs(),
            self.model().kind is Some ==> r == self,
    {
        match self {
            NativeArray::Geometry(a) => NativeArray::Geometry(a),
            NativeArray::Mixed(m) => m.downcast(prefer_multi),
            NativeArray::Collection(c) => {
                let ghost before = NativeArray::Collection(c);
                match c.downcast(prefer_multi) {
                    crate::collection::CollectionCast::Collection(c2) => NativeArray::Collection(c2),
                    crate::collection::CollectionCast::Native(a) => a,
                }
            },
        }
    }

    /// The same column as a mixed column.
    pub fn upcast(self) -> (r: MixedGeometryArray)
        requires
            self.wf(),
            !self.is_collection(),
        ensures
            r.wf(),
            r@ == self.model().slots,
            r.dim() == self.dim(),
            r.crs() == self.crs(),
    {
        match self {
            NativeArray::Geometry(a) => MixedGeometryArray::from_array(&a),
            NativeArray::Mixed(m) => m,
            NativeArray::Collection(_) => MixedGeometryArray::new(Dimension::XY, CoordType::Interleaved),
        }
    }
}

impl MixedGeometryArray {
    /// Wraps a concrete column as a mixed one, slot for slot.
    pub fn from_array(a: &GeometryArray) -> (r: MixedGeometryArray)
        requires
            a.wf(),
        ensures
            r.wf(),
            r@ == a@,
            r.dim() == a.dim(),
            r.coord_type() == a.coord_type(),
            r.crs() == a.crs(),
    {
        let n = a.len();
        let mut m = MixedGeometryArray::new(a.dim_exec(), a.coord_type_exec());
        proof {
            a.lemma_view_wf();
        }
        let mut i: usize = 0;
        while i < n
            invariant
                a.wf(),
                n == a@.len(),
                i <= n,
                m.wf(),
                m.dim() == a.dim(),
                m.coord_type() == a.coord_type(),
                m@ == a@.subrange(0, i as int),
                forall|j: int|
                    0 <= j < a@.len() ==> (#[trigger] a@[j] matches Some(g) ==> g.wf() && g.kind
                        == a.kind() && g.dim == a.dim()),
            decreases n - i,
        {
            match a.value(i) {
                Some(g) => m.push_geometry(&g, false),
                None => m.push_null(),
            }
            assert(a@.subrange(0, i + 1) =~= a@.subrange(0, i as int).push(a@[i as int]));
            i = i + 1;
        }
        assert(a@.subrange(0, n as int) =~= a@);
        m.with_metadata(a.metadata().duplicate())
    }

    /// Narrows to the concrete kind given by `narrow_target`, or stays mixed.
    pub fn downcast(self, prefer_multi: bool) -> (r: NativeArray)
        requires
            self.wf(),
        ensures
            r.wf(),
            r.model() == narrow_model(NativeModel { kind: None, slots: self@, members: None }, prefer_multi),
            r.dim() == self.dim(),
            r.crs() == self.crs(),
    {
        match self.narrow_kind(prefer_multi) {
            None => NativeArray::Mixed(self),
            Some(t) => {
                let ghost v = self@;
                proof {
                    self.lemma_view_wf();
                    lemma_retag_target(v, prefer_multi);
                }
                let n = self.len();
                let mut a = GeometryArray::new(t, self.dim_exec(), self.coord_type_exec());
                let mut i: usize = 0;
                while i < n
                    invariant
                        self.wf(),
                        v == self@,
                        n == v.len(),
                        i <= n,
                        a.wf(),
                        a.kind() == t,
                        a.dim() == self.dim(),
                        a@ == retag_all(v, t).subrange(0, i as int),
                        forall|j: int|
                            0 <= j < v.len() ==> (#[trigger] v[j] matches Some(g) ==> retag(
                                g,
                                t,
                            ).wf() && g.dim == self.dim()),
                    decreases n - i,
                {
                    match self.value(i) {
                        Some(g) => a.push_geometry(&g),
                        None => a.push_null(),
                    }
                    assert(retag_all(v, t).subrange(0, i + 1) =~= retag_all(v, t).subrange(
                        0,
                        i as int,
                    ).push(retag_all(v, t)[i as int]));
                    i = i + 1;
                }
                assert(retag_all(v, t).subrange(0, n as int) =~= retag_all(v, t));
                NativeArray::Geometry(a.with_metadata(self.metadata().duplicate()))
            },
        }
    }
}

/// Re-tagging to the narrow target keeps every geometry well formed.
proof fn lemma_retag_target(v: Seq<Option<GeomModel>>, prefer_multi: bool)
    requires
        narrow_target(v, prefer_multi) is Some,
        forall|j: int| 0 <= j < v.len() ==> (#[trigger] v[j] matches Some(g) ==> g.wf()),
    ensures
        forall|j: int|
            0 <= j < v.len() ==> (#[trigger] v[j] matches Some(g) ==> retag(
                g,
                narrow_target(v, prefer_multi)->0,
            ).wf()),
{
    let t = narrow_target(v, prefer_multi)->0;
    assert forall|j: int| 0 <= j < v.len() implies (#[trigger] v[j] matches Some(g) ==> retag(
        g,
        t,
    ).wf()) by {
        if let Some(g) = v[j] {
            assert(g.kind.single() == t.single());
            assert(g.kind.rings_free() == t.rings_free());
            assert(g.kind.coords_free() == t.coords_free());
            assert(!t.parts_free() ==> g.parts.len() == 1);
        }
    }
}

/// Downcasting is idempotent, and a column of single geometries that was
/// downcast and then upcast again downcasts to the same column.
pub proof fn lemma_downcast_idempotent(x: NativeModel, prefer_multi: bool)
    ensures
        downcast_model(downcast_model(x, prefer_multi), prefer_multi) == downcast_model(
            x,
            prefer_multi,
        ),
        downcast_model(upcast_model(downcast_model(x, prefer_multi)), prefer_multi)
            == downcast_model(upcast_model(x), prefer_multi) || x.kind is Some || x.members is Some,
{
    match x.members {
        Some(ms) => {
            if single_members(ms) {
                let y = NativeModel { kind: None, slots: first_members(ms), members: None };
                lemma_narrow_idempotent(y, prefer_multi);
            }
        },
        None => {
            lemma_narrow_idempotent(x, prefer_multi);
        },
    }
}

/// Narrowing is idempotent, also after an upcast.
proof fn lemma_narrow_idempotent(x: NativeModel, prefer_multi: bool)
    ensures
        narrow_model(narrow_model(x, prefer_multi), prefer_multi) == narrow_model(
            x,
            prefer_multi,
        ),
        narrow_model(upcast_model(narrow_model(x, prefer_multi)), prefer_multi)
            == narrow_model(upcast_model(x), prefer_multi) || x.kind is Some,
{
    if x.kind is None {
        if let Some(t) = narrow_target(x.slots, prefer_multi) {
            let v = x.slots;
            let w = retag_all(v, t);
            assert(has_valid(w)) by {
                let i = choose|i: int| 0 <= i < v.len() && #[trigger] v[i] is Some;
                assert(w[i] is Some);
            }
            let c = choose|i: int| 0 <= i < w.len() && #[trigger] w[i] is Some;
            assert(w[c]->0.kind == t);
            assert(t.single().single() == t.single() && t.multi().single() == t.single());
            let i0 = choose|i: int| 0 <= i < v.len() && #[trigger] v[i] is Some;
            let b = v[i0]->0.kind.single();
            assert forall|i: int| 0 <= i < w.len() implies (#[trigger] w[i] matches Some(g)
                ==> g.kind.single() == t.single()) by {}
            assert(all_single_part(w) == all_single_part(v)) by {
                if all_single_part(v) {
                    assert forall|i: int| 0 <= i < w.len() implies (#[trigger] w[i] matches Some(g)
                        ==> g.parts.len() == 1) by {
                        assert(v[i] is Some ==> v[i]->0.parts.len() == 1);
                    }
                }
                if all_single_part(w) {
                    assert forall|i: int| 0 <= i < v.len() implies (#[trigger] v[i] matches Some(g)
                        ==> g.parts.len() == 1) by {
                        assert(w[i] is Some ==> w[i]->0.parts.len() == 1);
                    }
                }
            }
            assert(retag_all(w, t) =~= w);
        }
    }
}

/// A mixed column whose geometries all have one kind downcasts to a column of
/// that kind with the same slots, provided a multi-part kind is not narrowed
/// to its single-part base.
pub proof fn lemma_downcast_uniform(
    v: Seq<Option<GeomModel>>,
    kind: GeometryKind,
    prefer_multi: bool,
)
    requires
        has_valid(v),
        forall|i: int|
            0 <= i < v.len() ==> (#[trigger] v[i] matches Some(g) ==> g.wf() && g.kind == kind),
        kind.is_multi() ==> !all_single_part(v),
    ensures
        downcast_model(NativeModel { kind: None, slots: v, members: None }, prefer_multi) == (NativeModel {
            kind: Some(kind),
            slots: v,
            members: None,
        }),
{
    let i0 = choose|i: int| 0 <= i < v.len() && #[trigger] v[i] is Some;
    assert(v[i0]->0.kind == kind);
    assert(all_single_part(v) ==> !kind.is_multi());
    assert(kind.single().multi() == kind || !kind.is_multi());
    assert(!kind.is_multi() ==> all_single_part(v)) by {
        if !kind.is_multi() {
            assert forall|i: int| 0 <= i < v.len() implies (#[trigger] v[i] matches Some(g)
                ==> g.parts.len() == 1) by {}
        }
    }
    assert(kind.is_multi() ==> {
        forall|i: int| 0 <= i < v.len() ==> (#[trigger] v[i] matches Some(g) ==> g.kind.is_multi())
    });
    assert(retag_all(v, kind) =~= v);
}

} // verus!
