use vstd::prelude::*;

use vstd::bytes::*;
use vstd::slice::slice_subrange;

use crate::coord::CoordType;
use crate::error::GeoArrowError;
use crate::levels::{flat, lemma_flat_push};
use crate::wkb::{
    lemma_first_byte, lemma_type_code_bytes, at, lemma_at_split, lemma_flat_cons, count_bytes, parse_geometry, parse_wkb, span, type_code, wkb_of,
    write_geometry,
};
use crate::geometry::{retag, Dimension, GeomModel, Geometry};
use crate::levels::{lemma_level_bounds, lemma_runs_push, level_push, level_wf, runs};
use crate::metadata::ArrayMetadata;
use crate::codec::stored;
use crate::mixed::MixedGeometryArray;
use crate::native::{narrow_model, NativeArray, NativeModel};
use crate::wkb_array::WKBArray;
use crate::wkt::{text_views, wkb_of_wkt, wkt_to_wkb};

verus! {

/// The members held by a column of members that are never null.
pub open spec fn member_models(v: Seq<Option<GeomModel>>) -> Seq<GeomModel> {
    v.map_values(|o: Option<GeomModel>| o->0)
}

/// A column whose slots each hold a collection of geometries of any
/// concrete kind: the members of all slots in one mixed array, and offsets
/// that cut them into slots.
#[derive(Debug, Clone)]
pub struct GeometryCollectionArray {
    members: MixedGeometryArray,
    geom_offsets: Vec<usize>,
    validity: Vec<bool>,
    metadata: ArrayMetadata,
}

impl GeometryCollectionArray {
    pub closed spec fn offsets(&self) -> Seq<int> {
        self.geom_offsets@.map_values(|x: usize| x as int)
    }

    /// The members of every slot, in order.
    pub closed spec fn slots(&self) -> Seq<Seq<GeomModel>> {
        runs(Some(self.offsets()), member_models(self.members@))
    }

    pub closed spec fn dim(&self) -> Dimension {
        self.members.dim()
    }

    pub closed spec fn coord_type(&self) -> CoordType {
        self.members.coord_type()
    }

    pub closed spec fn crs(&self) -> Option<Seq<char>> {
        self.metadata@
    }

    /// Members are never null, offsets cut them into one run per slot, and a
    /// null slot holds no members.
    pub closed spec fn wf(&self) -> bool {
        &&& self.members.wf()
        &&& forall|j: int| 0 <= j < self.members@.len() ==> #[trigger] self.members@[j] is Some
        &&& level_wf(Some(self.offsets()), self.members@.len() as int)
        &&& self.validity@.len() == self.slots().len()
        &&& forall|i: int|
            0 <= i < self.validity@.len() && !self.validity@[i] ==> #[trigger] self.slots()[i].len()
                == 0
    }
}

impl View for GeometryCollectionArray {
    type V = Seq<Option<Seq<GeomModel>>>;

    closed spec fn view(&self) -> Seq<Option<Seq<GeomModel>>> {
        Seq::new(
            self.validity@.len(),
            |i: int|
                if self.validity@[i] {
                    Some(self.slots()[i])
                } else {
                    None
                },
        )
    }
}

impl GeometryCollectionArray {
    /// An empty array.
    pub fn new(dim: Dimension, coord_type: CoordType) -> (r: GeometryCollectionArray)
        ensures
            r.wf(),
            r@.len() == 0,
            r.dim() == dim,
            r.coord_type() == coord_type,
    {
        let r = GeometryCollectionArray {
            members: MixedGeometryArray::new(dim, coord_type),
            geom_offsets: vec![0usize],
            validity: Vec::new(),
            metadata: ArrayMetadata::new(),
        };
        assert(r.offsets() =~= seq![0int]);
        assert(r.slots().len() == 0);
        assert(r@ =~= Seq::empty());
        r
    }

    /// The same array carrying `metadata`.
    pub fn with_metadata(self, metadata: ArrayMetadata) -> (r: GeometryCollectionArray)
        ensures
            r@ == self@,
            self.wf() ==> r.wf(),
            r.dim() == self.dim(),
            r.coord_type() == self.coord_type(),
            r.crs() == metadata@,
    {
        GeometryCollectionArray { metadata, ..self }
    }

    pub fn metadata(&self) -> (r: &ArrayMetadata)
        ensures
            r@ == self.crs(),
    {
        &self.metadata
    }

    /// Number of slots.
    pub fn len(&self) -> (r: usize)
        ensures
            r == self@.len(),
    {
        self.validity.len()
    }

    /// Appends a collection; with `prefer_multi` each single-part member is
    /// stored as the multi-part kind of its base.
    pub fn push_collection(&mut self, members: &Vec<Geometry>, prefer_multi: bool)
        requires
            old(self).wf(),
            members@.len() <= u32::MAX,
            forall|j: int|
                0 <= j < members@.len() ==> (#[trigger] members@[j])@.wf() && members@[j].dim
                    == old(self).dim(),
        ensures
            final(self).wf(),
            final(self).dim() == old(self).dim(),
            final(self).coord_type() == old(self).coord_type(),
            final(self).crs() == old(self).crs(),
            final(self)@ == old(self)@.push(
                Some(
                    Seq::new(
                        members@.len(),
                        |j: int|
                            if prefer_multi {
                                retag(members@[j]@, members@[j].kind.multi())
                            } else {
                                members@[j]@
                            },
                    ),
                ),
            ),
    {
        let ghost m0 = member_models(self.members@);
        let ghost added = Seq::new(
            members@.len(),
            |j: int|
                if prefer_multi {
                    retag(members@[j]@, members@[j].kind.multi())
                } else {
                    members@[j]@
                },
        );
        let mut j: usize = 0;
        while j < members.len()
            invariant
                j <= members@.len(),
                self.members.wf(),
                self.members.dim() == old(self).dim(),
                self.members.coord_type() == old(self).members.coord_type(),
                self.members.crs() == old(self).members.crs(),
                forall|k: int| 0 <= k < self.members@.len() ==> #[trigger] self.members@[k] is Some,
                member_models(self.members@) == m0 + added.subrange(0, j as int),
                m0 == member_models(old(self).members@),
                added == Seq::new(
                    members@.len(),
                    |j: int|
                        if prefer_multi {
                            retag(members@[j]@, members@[j].kind.multi())
                        } else {
                            members@[j]@
                        },
                ),
                self.geom_offsets == old(self).geom_offsets,
                self.validity == old(self).validity,
                self.metadata == old(self).metadata,
                forall|k: int|
                    0 <= k < members@.len() ==> (#[trigger] members@[k])@.wf() && members@[k].dim
                        == old(self).dim(),
            decreases members@.len() - j,
        {
            let ghost before = self.members@;
            self.members.push_geometry(&members[j], prefer_multi);
            proof {
                assert(self.members@ == before.push(Some(added[j as int])));
                assert(member_models(self.members@) =~= member_models(before).push(added[j as int]));
                assert(m0 + added.subrange(0, j + 1) =~= (m0 + added.subrange(0, j as int)).push(
                    added[j as int],
                ));
            }
            j = j + 1;
        }
        assert(added.subrange(0, added.len() as int) =~= added);
        let n = self.members.len();
        let ghost s0 = self.offsets();
        self.geom_offsets.push(n);
        self.validity.push(true);
        proof {
            assert(self.offsets() =~= s0.push(n as int));
            assert(level_push(Some(s0), (m0.len() + added.len()) as int) == Some(self.offsets()));
            lemma_runs_push(Some(s0), m0, added);
            assert(self.slots() == old(self).slots().push(added));
            assert forall|i: int| 0 <= i < self.validity@.len() && !self.validity@[i] implies #[trigger] self.slots()[i].len()
                == 0 by {
                assert(self.validity@[i] == old(self).validity@[i]);
                assert(self.slots()[i] == old(self).slots()[i]);
            }
            assert(self@ =~= old(self)@.push(Some(added)));
        }
    }

    /// Appends a null slot, which holds no members.
    pub fn push_null(&mut self)
        requires
            old(self).wf(),
        ensures
            final(self).wf(),
            final(self).dim() == old(self).dim(),
            final(self).coord_type() == old(self).coord_type(),
            final(self).crs() == old(self).crs(),
            final(self)@ == old(self)@.push(None),
    {
        let n = self.members.len();
        let ghost s0 = self.offsets();
        let ghost m0 = member_models(self.members@);
        self.geom_offsets.push(n);
        self.validity.push(false);
        proof {
            assert(self.offsets() =~= s0.push(n as int));
            assert(m0 + Seq::<GeomModel>::empty() =~= m0);
            lemma_runs_push(Some(s0), m0, Seq::<GeomModel>::empty());
            assert(self.slots() == old(self).slots().push(Seq::<GeomModel>::empty()));
            assert forall|i: int| 0 <= i < self.validity@.len() && !self.validity@[i] implies #[trigger] self.slots()[i].len()
                == 0 by {
                if i < old(self).validity@.len() {
                    assert(self.validity@[i] == old(self).validity@[i]);
                    assert(self.slots()[i] == old(self).slots()[i]);
                }
            }
            assert(self@ =~= old(self)@.push(None));
        }
    }

    /// The members of slot `i`, or `None` where the slot is null.
    pub fn value(&self, i: usize) -> (r: Option<Vec<Geometry>>)
        requires
            self.wf(),
            i < self@.len(),
        ensures
            r is None <==> self@[i as int] is None,
            r matches Some(ms) ==> self@[i as int] == Some(
                Seq::new(ms@.len(), |j: int| ms@[j]@),
            ),
    {
        if !self.validity[i] {
            return None;
        }
        let ghost o = Some(self.offsets());
        proof {
            lemma_level_bounds(o, self.members@.len() as int, i as int);
        }
        let count = self.geom_offsets.len();
        let lo = self.geom_offsets[i];
        let hi = self.geom_offsets[i + 1];
        assert(lo as int == self.offsets()[i as int] && hi as int == self.offsets()[i + 1]);
        let mut out: Vec<Geometry> = Vec::new();
        let mut k = lo;
        while k < hi
            invariant
                self.wf(),
                lo <= k <= hi <= self.members@.len(),
                i < self@.len(),
                lo as int == self.offsets()[i as int],
                hi as int == self.offsets()[i + 1],
                out@.len() == k - lo,
                forall|j: int|
                    0 <= j < out@.len() ==> (#[trigger] out@[j])@ == member_models(self.members@)[lo
                        + j],
            decreases hi - k,
        {
            match self.members.value(k) {
                Some(g) => {
                    out.push(g);
                },
                None => {
                    assert(self.members@[k as int] is Some);
                    assert(false);
                    return None;
                },
            }
            k = k + 1;
        }
        assert(self.slots()[i as int] =~= Seq::new(out@.len(), |j: int| out@[j]@));
        Some(out)
    }
}

/// The header of a geometry collection: byte order, then type code 7
/// (1007 with `z`).
pub open spec fn collection_header(dim: Dimension) -> Seq<u8> {
    seq![1u8] + spec_u32_to_le_bytes(
        if dim == Dimension::XYZ {
            1007u32
        } else {
            7u32
        },
    )
}

/// The WKB encoding of a geometry collection with the given members.
pub open spec fn collection_wkb(dim: Dimension, members: Seq<GeomModel>) -> Seq<u8> {
    collection_header(dim) + count_bytes(members.len()) + flat(
        members.map_values(|g: GeomModel| wkb_of(g)),
    )
}

/// Members that a collection of dimension `dim` can hold.
pub open spec fn members_fit(dim: Dimension, members: Seq<GeomModel>) -> bool {
    &&& members.len() <= u32::MAX
    &&& forall|j: int| 0 <= j < members.len() ==> (#[trigger] members[j]).wf() && members[j].dim == dim
}

/// The geometries that `ms` holds.
pub open spec fn geometry_views(ms: Seq<Geometry>) -> Seq<GeomModel> {
    Seq::new(ms.len(), |j: int| ms[j]@)
}

/// Appends the WKB encoding of a collection with members `ms` to `out`.
pub fn write_collection(out: &mut Vec<u8>, dim: Dimension, ms: &Vec<Geometry>)
    requires
        members_fit(dim, geometry_views(ms@)),
    ensures
        final(out)@ == old(out)@ + collection_wkb(dim, geometry_views(ms@)),
{
    let ghost v = geometry_views(ms@);
    let ghost f = |g: GeomModel| wkb_of(g);
    out.push(1u8);
    let code: u32 = match dim {
        Dimension::XY => 7,
        Dimension::XYZ => 1007,
    };
    let mut b = u32_to_le_bytes(code);
    out.append(&mut b);
    let mut c = u32_to_le_bytes(ms.len() as u32);
    out.append(&mut c);
    let ghost start = out@;
    let mut j: usize = 0;
    while j < ms.len()
        invariant
            v == geometry_views(ms@),
            f == (|g: GeomModel| wkb_of(g)),
            members_fit(dim, v),
            j <= ms@.len(),
            out@ == start + flat(v.subrange(0, j as int).map_values(f)),
        decreases ms@.len() - j,
    {
        assert(v[j as int] == ms@[j as int]@);
        assert(ms@[j as int]@.wf());
        let ghost before = v.subrange(0, j as int);
        write_geometry(out, &ms[j]);
        proof {
            assert(v.subrange(0, j + 1) =~= before.push(v[j as int]));
            assert(before.push(v[j as int]).map_values(f) =~= before.map_values(f).push(f(v[j as int])));
            lemma_flat_push(before.map_values(f), f(v[j as int]));
        }
        j = j + 1;
    }
    assert(v.subrange(0, v.len() as int) =~= v);
    assert(final(out)@ =~= old(out)@ + collection_wkb(dim, v));
}

/// Parses one slot of a collection column: a geometry collection, or a
/// single geometry taken as a collection of one member. Members must have
/// dimension `dim` (`IncorrectType` otherwise).
pub fn parse_collection(b: &[u8], dim: Dimension) -> (r: Result<Vec<Geometry>, GeoArrowError>)
    ensures
        r matches Ok(ms) ==> {
            &&& members_fit(dim, geometry_views(ms@))
            &&& (b@ == collection_wkb(dim, geometry_views(ms@)) || (ms@.len() == 1 && b@ == wkb_of(
                ms@[0]@,
            )))
        },
        r matches Err(e) ==> e is FormatError || e is NotYetImplemented || e is IncorrectType,
        forall|gs: Seq<GeomModel>|
            members_fit(dim, gs) && #[trigger] collection_wkb(dim, gs) == b@ ==> (r matches Ok(ms)
                && geometry_views(ms@) == gs),
        forall|g: GeomModel|
            g.wf() && g.dim == dim && #[trigger] wkb_of(g) == b@ ==> (r matches Ok(ms)
                && geometry_views(ms@) == seq![g]),
{
    proof {
        lemma_auto_spec_u32_to_from_le_bytes();
        assert forall|g: GeomModel| #[trigger] wkb_of(g) == b@ implies b@.len() >= 5 && b@.subrange(
            1,
            5,
        ) == spec_u32_to_le_bytes(type_code(g.kind, g.dim)) && b@[0] == 1 by {
            lemma_type_code_bytes(g);
            lemma_first_byte(g);
        }
        assert forall|gs: Seq<GeomModel>| #[trigger] collection_wkb(dim, gs) == b@ implies {
            &&& b@.len() >= 9
            &&& b@[0] == 1
            &&& b@.subrange(1, 5) == spec_u32_to_le_bytes(if dim == Dimension::XYZ { 1007u32 } else { 7u32 })
            &&& b@.subrange(5, 9) == count_bytes(gs.len())
            &&& at(b@, 9, flat(gs.map_values(|g: GeomModel| wkb_of(g))))
        } by {
            let h = collection_header(dim);
            let c = count_bytes(gs.len());
            let x = flat(gs.map_values(|g: GeomModel| wkb_of(g)));
            assert(b@ =~= h + c + x);
            assert(at(b@, 0, (h + c) + x)) by {
                assert(b@.subrange(0, b@.len() as int) =~= b@);
            }
            lemma_at_split(b@, 0, h + c, x);
            lemma_at_split(b@, 0, h, c);
            assert((h + c + x)[0] == 1);
            assert(b@.subrange(1, 5) =~= (h + c + x).subrange(1, 5));
            assert((h + c + x).subrange(1, 5) =~= spec_u32_to_le_bytes(if dim == Dimension::XYZ { 1007u32 } else { 7u32 }));
        }
    }
    let code: u32 = match dim {
        Dimension::XY => 7,
        Dimension::XYZ => 1007,
    };
    if b.len() >= 9 && b[0] == 1 {
        let found = u32_from_le_bytes(slice_subrange(b, 1, 5));
        if (found == 7 || found == 1007) && found != code {
            return Err(GeoArrowError::IncorrectType);
        }
    }
    if b.len() < 9 || b[0] != 1 || u32_from_le_bytes(slice_subrange(b, 1, 5)) != code {
        proof {
            assert forall|gs: Seq<GeomModel>|
                members_fit(dim, gs) && #[trigger] collection_wkb(dim, gs) == b@ implies false by {
                assert(spec_u32_from_le_bytes(spec_u32_to_le_bytes(code)) == code);
            }
        }
        let g = parse_wkb(b)?;
        if g.dim != dim {
            return Err(GeoArrowError::IncorrectType);
        }
        let ms = vec![g];
        assert(geometry_views(ms@) =~= seq![g@]);
        return Ok(ms);
    }
    proof {
        assert forall|g: GeomModel| g.wf() && g.dim == dim && #[trigger] wkb_of(g) == b@ implies false by {
            assert(spec_u32_from_le_bytes(b@.subrange(1, 5)) == code);
            assert(spec_u32_from_le_bytes(spec_u32_to_le_bytes(type_code(g.kind, g.dim)))
                == type_code(g.kind, g.dim));
        }
    }
    let ghost f = |g: GeomModel| wkb_of(g);
    let n = u32_from_le_bytes(slice_subrange(b, 5, 9));
    proof {
        lemma_auto_spec_u32_to_from_le_bytes();
        assert(span(b@, 0, 9) =~= collection_header(dim) + count_bytes(n as nat)) by {
            assert(span(b@, 0, 1) =~= seq![1u8]);
            assert(span(b@, 1, 5) == spec_u32_to_le_bytes(code));
            assert(span(b@, 5, 9) == spec_u32_to_le_bytes(n));
            assert(span(b@, 0, 9) =~= span(b@, 0, 1) + span(b@, 1, 5) + span(b@, 5, 9));
        }
    }
    let mut ms: Vec<Geometry> = Vec::new();
    proof {
        assert forall|gs: Seq<GeomModel>|
            members_fit(dim, gs) && #[trigger] collection_wkb(dim, gs) == b@ implies {
            &&& gs.len() == n
            &&& geometry_views(ms@) == gs.subrange(0, 0)
            &&& at(b@, 9, flat(gs.subrange(0, gs.len() as int).map_values(f)))
        } by {
            assert(b@.subrange(5, 9) == count_bytes(gs.len()));
            assert(gs.subrange(0, gs.len() as int) =~= gs);
            assert(geometry_views(ms@) =~= gs.subrange(0, 0));
        }
    }
    let mut cur: usize = 9;
    let mut i: u32 = 0;
    while i < n
        invariant
            f == (|g: GeomModel| wkb_of(g)),
            9 <= cur <= b@.len(),
            ms@.len() == i <= n,
            span(b@, 0, 9) == collection_header(dim) + count_bytes(n as nat),
            span(b@, 9, cur as int) == flat(geometry_views(ms@).map_values(f)),
            forall|j: int|
                0 <= j < ms@.len() ==> (#[trigger] ms@[j])@.wf() && ms@[j].dim == dim,
            n == spec_u32_from_le_bytes(b@.subrange(5, 9)),
            forall|g: GeomModel| g.wf() && g.dim == dim && #[trigger] wkb_of(g) == b@ ==> false,
            forall|gs: Seq<GeomModel>|
                members_fit(dim, gs) && #[trigger] collection_wkb(dim, gs) == b@ ==> {
                    &&& gs.len() == n
                    &&& geometry_views(ms@) == gs.subrange(0, i as int)
                    &&& at(b@, cur as int, flat(gs.subrange(i as int, gs.len() as int).map_values(f)))
                },
        decreases n - i,
    {
        proof {
            lemma_auto_spec_u32_to_from_le_bytes();
            assert forall|gs: Seq<GeomModel>|
                members_fit(dim, gs) && #[trigger] collection_wkb(dim, gs) == b@ implies at(
                b@,
                cur as int,
                wkb_of(gs[i as int]),
            ) && gs[i as int].wf() && gs[i as int].dim == dim by {
                let m = gs.subrange(i as int, gs.len() as int).map_values(f);
                lemma_flat_cons(m);
                assert(m.subrange(1, m.len() as int) =~= gs.subrange(i + 1, gs.len() as int).map_values(f));
                lemma_at_split(b@, cur as int, wkb_of(gs[i as int]), flat(gs.subrange(i + 1, gs.len() as int).map_values(f)));
            }
        }
        let (g, np) = match parse_geometry(b, cur) {
            Ok(x) => x,
            Err(e) => {
                proof {
                    assert forall|gs: Seq<GeomModel>|
                        members_fit(dim, gs) && #[trigger] collection_wkb(dim, gs) == b@ implies false by {
                        assert(at(b@, cur as int, wkb_of(gs[i as int])) && gs[i as int].wf());
                    }
                }
                return Err(e);
            },
        };
        if g.dim != dim {
            proof {
                assert forall|gs: Seq<GeomModel>|
                    members_fit(dim, gs) && #[trigger] collection_wkb(dim, gs) == b@ implies false by {
                    assert(at(b@, cur as int, wkb_of(gs[i as int])) && gs[i as int].wf());
                }
            }
            return Err(GeoArrowError::IncorrectType);
        }
        let ghost v0 = geometry_views(ms@);
        ms.push(g);
        proof {
            assert(geometry_views(ms@) =~= v0.push(g@));
            assert(v0.push(g@).map_values(f) =~= v0.map_values(f).push(f(g@)));
            lemma_flat_push(v0.map_values(f), f(g@));
            assert(span(b@, 9, np as int) =~= span(b@, 9, cur as int) + span(b@, cur as int, np as int));
            assert forall|gs: Seq<GeomModel>|
                members_fit(dim, gs) && #[trigger] collection_wkb(dim, gs) == b@ implies {
                &&& geometry_views(ms@) == gs.subrange(0, i + 1)
                &&& at(b@, np as int, flat(gs.subrange(i + 1, gs.len() as int).map_values(f)))
            } by {
                assert(at(b@, cur as int, wkb_of(gs[i as int])) && gs[i as int].wf());
                assert(g@ == gs[i as int]);
                assert(gs.subrange(0, i + 1) =~= gs.subrange(0, i as int).push(gs[i as int]));
                let m = gs.subrange(i as int, gs.len() as int).map_values(f);
                lemma_flat_cons(m);
                assert(m.subrange(1, m.len() as int) =~= gs.subrange(i + 1, gs.len() as int).map_values(f));
                lemma_at_split(b@, cur as int, wkb_of(gs[i as int]), flat(gs.subrange(i + 1, gs.len() as int).map_values(f)));
            }
        }
        cur = np;
        i = i + 1;
    }
    if cur != b.len() {
        proof {
            assert forall|gs: Seq<GeomModel>|
                members_fit(dim, gs) && #[trigger] collection_wkb(dim, gs) == b@ implies false by {
                assert(gs.subrange(0, n as int) =~= gs);
                assert(geometry_views(ms@) == gs);
                assert(span(b@, 9, cur as int).len() == flat(gs.map_values(f)).len());
                assert(b@.len() == collection_wkb(dim, gs).len());
                assert(collection_wkb(dim, gs).len() == 9 + flat(gs.map_values(f)).len());
            }
        }
        return Err(GeoArrowError::FormatError);
    }
    proof {
        assert forall|gs: Seq<GeomModel>|
            members_fit(dim, gs) && #[trigger] collection_wkb(dim, gs) == b@ implies geometry_views(ms@) == gs by {
            assert(gs.subrange(0, n as int) =~= gs);
        }
    }
    proof {
        assert(b@ =~= span(b@, 0, 9) + span(b@, 9, cur as int));
        assert forall|j: int| 0 <= j < geometry_views(ms@).len() implies (#[trigger] geometry_views(
            ms@,
        )[j]).wf() && geometry_views(ms@)[j].dim == dim by {
            assert(geometry_views(ms@)[j] == ms@[j]@);
        }
    }
    Ok(ms)
}

/// `slots` holds, for each slot of `wkb`, null where it is null, and else the
/// members that the slot's bytes encode (as a collection, or as a single
/// geometry), each stored as `stored` says.
pub open spec fn collection_decoded(
    wkb: Seq<Option<Seq<u8>>>,
    slots: Seq<Option<Seq<GeomModel>>>,
    dim: Dimension,
    prefer_multi: bool,
) -> bool {
    &&& slots.len() == wkb.len()
    &&& forall|i: int|
        0 <= i < wkb.len() ==> match #[trigger] wkb[i] {
            None => slots[i] is None,
            Some(b) => exists|gs: Seq<GeomModel>|
                members_fit(dim, gs) && (b == collection_wkb(dim, gs) || (gs.len() == 1 && b
                    == wkb_of(gs[0]))) && slots[i] == Some(
                    Seq::new(gs.len(), |j: int| stored(gs[j], prefer_multi)),
                ),
        }
}

/// `b` encodes a collection, or a single geometry, whose members fit `dim`.
pub open spec fn collection_decodes(b: Seq<u8>, dim: Dimension) -> bool {
    exists|gs: Seq<GeomModel>|
        members_fit(dim, gs) && (b == collection_wkb(dim, gs) || (gs.len() == 1 && b == wkb_of(
            gs[0],
        )))
}

/// Every text that is not null is read by geozero into bytes that encode a
/// collection, or a single geometry, of dimension `dim`.
pub open spec fn wkt_collections_readable(texts: Seq<Option<Seq<char>>>, dim: Dimension) -> bool {
    forall|i: int|
        0 <= i < texts.len() ==> (#[trigger] texts[i] matches Some(t) ==> (wkb_of_wkt(t, dim) matches Some(
            b,
        ) && collection_decodes(b, dim)))
}

/// Every non-null slot of `wkb` encodes a collection, or a single
/// geometry, whose members fit dimension `dim`.
pub open spec fn collection_decodable(wkb: Seq<Option<Seq<u8>>>, dim: Dimension) -> bool {
    forall|i: int|
        0 <= i < wkb.len() ==> (#[trigger] wkb[i] matches Some(b) ==> exists|gs: Seq<GeomModel>|
            members_fit(dim, gs) && (b == collection_wkb(dim, gs) || (gs.len() == 1 && b == wkb_of(
                gs[0],
            ))))
}

/// Converts WKB values into a collection column of dimension `dim` that
/// carries the column's metadata. A value that is a single geometry becomes a
/// collection of one member.
pub fn from_wkb_collection(
    arr: &WKBArray,
    coord_type: CoordType,
    dim: Dimension,
    prefer_multi: bool,
) -> (r: Result<GeometryCollectionArray, GeoArrowError>)
    requires
        arr.wf(),
    ensures
        r matches Ok(c) ==> c.wf() && c.dim() == dim && c.coord_type() == coord_type && c.crs()
            == arr.crs() && collection_decoded(
            arr@,
            c@,
            dim,
            prefer_multi,
        ),
        r matches Err(e) ==> e is FormatError || e is NotYetImplemented || e is IncorrectType,
        r is Err <==> !collection_decodable(arr@, dim),
{
    let ghost crs = arr.crs();
    let mut c = GeometryCollectionArray::new(dim, coord_type).with_metadata(
        arr.metadata().duplicate(),
    );
    let mut i: usize = 0;
    while i < arr.len()
        invariant
            arr.wf(),
            i <= arr@.len(),
            c.wf(),
            c.dim() == dim,
            c.coord_type() == coord_type,
            c.crs() == crs,
            crs == arr.crs(),
            collection_decoded(arr@.subrange(0, i as int), c@, dim, prefer_multi),
        decreases arr@.len() - i,
    {
        let ghost before = c@;
        match arr.value(i) {
            None => c.push_null(),
            Some(b) => {
                let ms = match parse_collection(b, dim) {
                    Ok(ms) => ms,
                    Err(e) => {
                        proof {
                            assert(arr@[i as int] == Some(b@));
                            assert forall|gs: Seq<GeomModel>| members_fit(dim, gs) implies !(b@
                                == collection_wkb(dim, gs) || (gs.len() == 1 && b@ == wkb_of(
                                gs[0],
                            ))) by {
                                if gs.len() == 1 && b@ == wkb_of(gs[0]) {
                                    assert(gs[0].wf() && gs[0].dim == dim);
                                }
                            }
                        }
                        return Err(e);
                    },
                };
                proof {
                    assert forall|j: int| 0 <= j < ms@.len() implies (#[trigger] ms@[j])@.wf()
                        && ms@[j].dim == dim by {
                        assert(geometry_views(ms@)[j] == ms@[j]@);
                    }
                }
                c.push_collection(&ms, prefer_multi);
                proof {
                    let gs = geometry_views(ms@);
                    assert(c@.last() == Some(Seq::new(gs.len(), |j: int| stored(gs[j], prefer_multi)))) by {
                        assert(Seq::new(gs.len(), |j: int| stored(gs[j], prefer_multi)) =~= Seq::new(
                            ms@.len(),
                            |j: int|
                                if prefer_multi {
                                    retag(ms@[j]@, ms@[j].kind.multi())
                                } else {
                                    ms@[j]@
                                },
                        ));
                    }
                }
            },
        }
        proof {
            let pre = arr@.subrange(0, i as int);
            let post = arr@.subrange(0, i + 1);
            assert forall|j: int| 0 <= j < post.len() implies match #[trigger] post[j] {
                None => c@[j] is None,
                Some(b) => exists|gs: Seq<GeomModel>|
                    members_fit(dim, gs) && (b == collection_wkb(dim, gs) || (gs.len() == 1 && b
                        == wkb_of(gs[0]))) && c@[j] == Some(
                        Seq::new(gs.len(), |k: int| stored(gs[k], prefer_multi)),
                    ),
            } by {
                if j < i {
                    assert(post[j] == pre[j]);
                    assert(c@[j] == before[j]);
                } else {
                    assert(post[j] == arr@[i as int]);
                }
            }
        }
        i = i + 1;
    }
    assert(arr@.subrange(0, arr@.len() as int) =~= arr@);
    assert(collection_decodable(arr@, dim)) by {
        assert forall|j: int| 0 <= j < arr@.len() implies (#[trigger] arr@[j] matches Some(b)
            ==> exists|gs: Seq<GeomModel>|
            members_fit(dim, gs) && (b == collection_wkb(dim, gs) || (gs.len() == 1 && b == wkb_of(
                gs[0],
            )))) by {
            assert(arr@.subrange(0, arr@.len() as int)[j] == arr@[j]);
        }
    }
    Ok(c)
}

/// Total number of bytes that encoding the collections of `slots` takes.
pub open spec fn collections_len(dim: Dimension, slots: Seq<Option<Seq<GeomModel>>>) -> int
    decreases slots.len(),
{
    if slots.len() == 0 {
        0
    } else {
        collections_len(dim, slots.drop_last()) + match slots.last() {
            Some(ms) => collection_wkb(dim, ms).len() as int,
            None => 0,
        }
    }
}

proof fn lemma_collections_len_prefix(dim: Dimension, slots: Seq<Option<Seq<GeomModel>>>, i: int)
    requires
        0 <= i <= slots.len(),
    ensures
        0 <= collections_len(dim, slots.subrange(0, i)) <= collections_len(dim, slots),
    decreases slots.len() - i,
{
    if i < slots.len() {
        lemma_collections_len_prefix(dim, slots, i + 1);
        assert(slots.subrange(0, i + 1).drop_last() =~= slots.subrange(0, i));
        lemma_collections_len_nonneg(dim, slots.subrange(0, i));
    } else {
        assert(slots.subrange(0, i) =~= slots);
        lemma_collections_len_nonneg(dim, slots);
    }
}

proof fn lemma_collections_len_nonneg(dim: Dimension, slots: Seq<Option<Seq<GeomModel>>>)
    ensures
        collections_len(dim, slots) >= 0,
    decreases slots.len(),
{
    if slots.len() > 0 {
        lemma_collections_len_nonneg(dim, slots.drop_last());
    }
}

/// `w` holds the encoding of each collection of `slots`, null where null.
pub open spec fn collections_encoded(
    dim: Dimension,
    slots: Seq<Option<Seq<GeomModel>>>,
    w: Seq<Option<Seq<u8>>>,
) -> bool {
    &&& w.len() == slots.len()
    &&& forall|i: int|
        0 <= i < slots.len() ==> #[trigger] w[i] == match slots[i] {
            Some(ms) => Some(collection_wkb(dim, ms)),
            None => None,
        }
}

/// Encodes every slot of a collection column as a WKB geometry collection,
/// with 64-bit (`large`) or 32-bit offsets. Fails with `Overflow` exactly
/// when the encoded bytes exceed what the offsets can address.
pub fn to_wkb_collection(arr: &GeometryCollectionArray, large: bool) -> (r: Result<
    WKBArray,
    GeoArrowError,
>)
    requires
        arr.wf(),
    ensures
        r is Ok <==> collections_len(arr.dim(), arr@) <= if large {
            i64::MAX as int
        } else {
            i32::MAX as int
        },
        r matches Ok(w) ==> {
            &&& w.wf()
            &&& w.is_large() == large
            &&& w.crs() == arr.crs()
            &&& w.num_value_bytes() == collections_len(arr.dim(), arr@)
            &&& w.nulls_empty()
            &&& collections_encoded(arr.dim(), arr@, w@)
        },
        r matches Err(e) ==> e == GeoArrowError::Overflow,
{
    let n = arr.len();
    let ghost slots = arr@;
    let ghost dim = arr.dim();
    let mut out = WKBArray::empty(true);
    assert(slots.subrange(0, 0).len() == 0);
    let mut i: usize = 0;
    while i < n
        invariant
            arr.wf(),
            slots == arr@,
            dim == arr.dim(),
            n == arr@.len(),
            i <= n,
            out.wf(),
            out.is_large(),
            out.nulls_empty(),
            out@.len() == i,
            out.num_value_bytes() == collections_len(dim, slots.subrange(0, i as int)),
            forall|j: int|
                0 <= j < i ==> #[trigger] out@[j] == match arr@[j] {
                    Some(ms) => Some(collection_wkb(arr.dim(), ms)),
                    None => None,
                },
        decreases n - i,
    {
        assert(slots.subrange(0, i + 1).drop_last() =~= slots.subrange(0, i as int));
        assert(slots.subrange(0, i + 1).last() == slots[i as int]);
        proof {
            lemma_collections_len_prefix(dim, slots, i + 1);
        }
        match arr.value(i) {
            Some(ms) => {
                proof {
                    arr.lemma_members_fit(i as int);
                    assert(geometry_views(ms@) =~= Seq::new(ms@.len(), |j: int| ms@[j]@));
                }
                let mut bytes: Vec<u8> = Vec::new();
                write_collection(&mut bytes, arr.dim_exec(), &ms);
                assert(bytes@ =~= collection_wkb(arr.dim(), geometry_views(ms@)));
                let used = out.buffer_lengths().buffer_capacity;
                if used as u128 + bytes.len() as u128 > i64::MAX as u128 {
                    return Err(GeoArrowError::Overflow);
                }
                out.push(Some(bytes.as_slice()));
            },
            None => out.push(None),
        }
        i = i + 1;
    }
    proof {
        out.lemma_total_bound();
    }
    assert(slots.subrange(0, n as int) =~= slots);
    let out = out.with_metadata(arr.metadata().duplicate());
    if large {
        Ok(out)
    } else {
        out.to_small()
    }
}

impl GeometryCollectionArray {
    pub fn dim_exec(&self) -> (r: Dimension)
        ensures
            r == self.dim(),
    {
        self.members.dim_exec()
    }

    /// The members of a slot fit a collection of the array's dimension.
    pub proof fn lemma_members_fit(&self, i: int)
        requires
            self.wf(),
            0 <= i < self@.len(),
        ensures
            self@[i] matches Some(ms) ==> members_fit(self.dim(), ms),
    {
        let o = Some(self.offsets());
        lemma_level_bounds(o, self.members@.len() as int, i);
        self.members.lemma_view_wf();
        let ms = self.slots()[i];
        assert forall|j: int| 0 <= j < ms.len() implies (#[trigger] ms[j]).wf() && ms[j].dim
            == self.dim() by {
            let k = self.offsets()[i] + j;
            assert(ms[j] == member_models(self.members@)[k]);
            assert(self.members@[k] is Some);
        }
    }
}

/// Every non-null slot holds exactly one member.
pub open spec fn single_members(v: Seq<Option<Seq<GeomModel>>>) -> bool {
    forall|i: int| 0 <= i < v.len() ==> (#[trigger] v[i] matches Some(ms) ==> ms.len() == 1)
}

/// The only member of each non-null slot.
pub open spec fn first_members(v: Seq<Option<Seq<GeomModel>>>) -> Seq<Option<GeomModel>> {
    Seq::new(
        v.len(),
        |i: int|
            match v[i] {
                Some(ms) => Some(ms[0]),
                None => None,
            },
    )
}

/// A downcast collection column: still a collection, or narrowed.
pub enum CollectionCast {
    Collection(GeometryCollectionArray),
    Native(NativeArray),
}

impl GeometryCollectionArray {
    /// Number of members of slot `i`.
    pub fn num_members(&self, i: usize) -> (r: usize)
        requires
            self.wf(),
            i < self@.len(),
        ensures
            r == self.slots()[i as int].len(),
            self@[i as int] matches Some(ms) ==> r == ms.len(),
    {
        proof {
            lemma_level_bounds(Some(self.offsets()), self.members@.len() as int, i as int);
        }
        let count = self.geom_offsets.len();
        let lo = self.geom_offsets[i];
        let hi = self.geom_offsets[i + 1];
        assert(lo as int == self.offsets()[i as int] && hi as int == self.offsets()[i + 1]);
        hi - lo
    }

    /// Narrows a column whose slots each hold at most one member: it becomes
    /// the mixed column of those members, downcast as such. Any other column
    /// stays a collection column.
    pub fn downcast(self, prefer_multi: bool) -> (r: CollectionCast)
        requires
            self.wf(),
        ensures
            !single_members(self@) ==> r == CollectionCast::Collection(self),
            single_members(self@) ==> (r matches CollectionCast::Native(a) && a.wf() && a.model()
                == narrow_model(
                NativeModel { kind: None, slots: first_members(self@), members: None },
                prefer_multi,
            ) && a.crs() == self.crs() && a.dim() == self.dim()),
    {
        let n = self.len();
        let mut i: usize = 0;
        while i < n
            invariant
                self.wf(),
                n == self@.len(),
                i <= n,
                forall|j: int| 0 <= j < i ==> (#[trigger] self@[j] matches Some(ms) ==> ms.len() == 1),
            decreases n - i,
        {
            if self.validity[i] && self.num_members(i) != 1 {
                assert(!single_members(self@)) by {
                    assert(self@[i as int] matches Some(ms) && ms.len() != 1);
                }
                return CollectionCast::Collection(self);
            }
            i = i + 1;
        }
        let ghost firsts = first_members(self@);
        let mut m = MixedGeometryArray::new(self.dim_exec(), self.members.coord_type_exec());
        let mut i: usize = 0;
        while i < n
            invariant
                self.wf(),
                single_members(self@),
                n == self@.len(),
                firsts == first_members(self@),
                i <= n,
                m.wf(),
                m.dim() == self.dim(),
                m@ == firsts.subrange(0, i as int),
            decreases n - i,
        {
            match self.value(i) {
                Some(ms) => {
                    proof {
                        self.lemma_members_fit(i as int);
                    }
                    assert(ms@.len() == 1);
                    assert(ms@[0]@ == firsts[i as int]->0);
                    m.push_geometry(&ms[0], false);
                },
                None => m.push_null(),
            }
            assert(firsts.subrange(0, i + 1) =~= firsts.subrange(0, i as int).push(firsts[i as int]));
            i = i + 1;
        }
        assert(firsts.subrange(0, n as int) =~= firsts);
        let m = m.with_metadata(self.metadata.duplicate());
        CollectionCast::Native(m.downcast(prefer_multi))
    }
}

/// Decoding a column of collections and encoding it again gives back the
/// same bytes, slot for slot.
pub proof fn lemma_collection_round_trip(
    wkb: Seq<Option<Seq<u8>>>,
    slots: Seq<Option<Seq<GeomModel>>>,
    dim: Dimension,
    out: Seq<Option<Seq<u8>>>,
)
    requires
        collection_decoded(wkb, slots, dim, false),
        forall|i: int|
            0 <= i < wkb.len() ==> (#[trigger] wkb[i] matches Some(b) ==> exists|gs: Seq<GeomModel>|
                members_fit(dim, gs) && b == collection_wkb(dim, gs)),
        out.len() == slots.len(),
        forall|i: int|
            0 <= i < slots.len() ==> #[trigger] out[i] == match slots[i] {
                Some(ms) => Some(collection_wkb(dim, ms)),
                None => None,
            },
    ensures
        out == wkb,
{
    lemma_auto_spec_u32_to_from_le_bytes();
    assert forall|i: int| 0 <= i < wkb.len() implies #[trigger] out[i] == wkb[i] by {
        if let Some(b) = wkb[i] {
            let gs = choose|gs: Seq<GeomModel>|
                members_fit(dim, gs) && (b == collection_wkb(dim, gs) || (gs.len() == 1 && b
                    == wkb_of(gs[0]))) && slots[i] == Some(
                    Seq::new(gs.len(), |j: int| stored(gs[j], false)),
                );
            assert(Seq::new(gs.len(), |j: int| stored(gs[j], false)) =~= gs);
            if b != collection_wkb(dim, gs) {
                let hs = choose|hs: Seq<GeomModel>| members_fit(dim, hs) && b == collection_wkb(dim, hs);
                let code: u32 = if dim == Dimension::XYZ { 1007 } else { 7 };
                lemma_type_code_bytes(gs[0]);
                let c = collection_wkb(dim, hs);
                assert(c.subrange(1, 5) =~= spec_u32_to_le_bytes(code));
                assert(spec_u32_from_le_bytes(spec_u32_to_le_bytes(code)) == code);
                assert(spec_u32_from_le_bytes(spec_u32_to_le_bytes(type_code(gs[0].kind, gs[0].dim)))
                    == type_code(gs[0].kind, gs[0].dim));
            }
        }
    }
    assert(out =~= wkb);
}

/// `slots` holds, for each text of `texts`, null where it is null and else the
/// members that geozero's WKB of the text encodes (as a collection, or as a
/// single geometry), each stored as `stored` says.
pub open spec fn wkt_collection_decoded(
    texts: Seq<Option<Seq<char>>>,
    slots: Seq<Option<Seq<GeomModel>>>,
    dim: Dimension,
    prefer_multi: bool,
) -> bool {
    &&& slots.len() == texts.len()
    &&& forall|i: int|
        0 <= i < texts.len() ==> match #[trigger] texts[i] {
            None => slots[i] is None,
            Some(t) => exists|gs: Seq<GeomModel>|
                members_fit(dim, gs) && (wkb_of_wkt(t, dim) == Some(collection_wkb(dim, gs)) || (gs.len()
                    == 1 && wkb_of_wkt(t, dim) == Some(wkb_of(gs[0])))) && slots[i] == Some(
                    Seq::new(gs.len(), |j: int| stored(gs[j], prefer_multi)),
                ),
        }
}

/// Parses WKT texts (null where `None`) into a collection column of
/// dimension `dim` that carries `metadata`; a text that is not a collection
/// becomes a collection of one member. Any text that does not parse fails the
/// whole conversion with `FormatError`.
pub fn from_wkt_collection(
    texts: &Vec<Option<String>>,
    coord_type: CoordType,
    dim: Dimension,
    metadata: ArrayMetadata,
    prefer_multi: bool,
) -> (r: Result<GeometryCollectionArray, GeoArrowError>)
    ensures
        r matches Ok(c) ==> c.wf() && c.dim() == dim && c.coord_type() == coord_type && c.crs()
            == metadata@
            && wkt_collection_decoded(text_views(texts@), c@, dim, prefer_multi),
        r is Ok <==> wkt_collections_readable(text_views(texts@), dim),
        r matches Err(e) ==> e is FormatError || e is NotYetImplemented || e is IncorrectType,
{
    let ghost tv = text_views(texts@);
    let ghost crs = metadata@;
    let mut c = GeometryCollectionArray::new(dim, coord_type).with_metadata(metadata);
    let mut i: usize = 0;
    while i < texts.len()
        invariant
            tv == text_views(texts@),
            i <= texts@.len(),
            c.wf(),
            c.dim() == dim,
            c.coord_type() == coord_type,
            c.crs() == crs,
            wkt_collection_decoded(tv.subrange(0, i as int), c@, dim, prefer_multi),
            wkt_collections_readable(tv.subrange(0, i as int), dim),
        decreases texts@.len() - i,
    {
        let ghost before = c@;
        match &texts[i] {
            None => c.push_null(),
            Some(s) => {
                assert(tv[i as int] == Some(s@));
                let bytes = match wkt_to_wkb(s.as_str(), dim) {
                    Ok(b) => b,
                    Err(_) => {
                        assert(!wkt_collections_readable(tv, dim));
                        return Err(GeoArrowError::FormatError);
                    },
                };
                let ms = match parse_collection(bytes.as_slice(), dim) {
                    Ok(ms) => ms,
                    Err(e) => {
                        proof {
                            assert(!collection_decodes(bytes@, dim)) by {
                                assert forall|gs: Seq<GeomModel>| members_fit(dim, gs) implies !(
                                bytes@ == collection_wkb(dim, gs) || (gs.len() == 1 && bytes@
                                    == wkb_of(gs[0]))) by {
                                    if gs.len() == 1 && bytes@ == wkb_of(gs[0]) {
                                        assert(gs[0].wf() && gs[0].dim == dim);
                                    }
                                }
                            }
                            assert(!wkt_collections_readable(tv, dim));
                        }
                        return Err(e);
                    },
                };
                proof {
                    assert forall|j: int| 0 <= j < ms@.len() implies (#[trigger] ms@[j])@.wf()
                        && ms@[j].dim == dim by {
                        assert(geometry_views(ms@)[j] == ms@[j]@);
                    }
                }
                c.push_collection(&ms, prefer_multi);
                proof {
                    let gs = geometry_views(ms@);
                    assert(collection_decodes(bytes@, dim));
                    assert(Seq::new(gs.len(), |j: int| stored(gs[j], prefer_multi)) =~= Seq::new(
                        ms@.len(),
                        |j: int|
                            if prefer_multi {
                                retag(ms@[j]@, ms@[j].kind.multi())
                            } else {
                                ms@[j]@
                            },
                    ));
                }
            },
        }
        proof {
            let pre = tv.subrange(0, i as int);
            let post = tv.subrange(0, i + 1);
            assert forall|j: int| 0 <= j < post.len() implies match #[trigger] post[j] {
                None => c@[j] is None,
                Some(t) => exists|gs: Seq<GeomModel>|
                    members_fit(dim, gs) && (wkb_of_wkt(t, dim) == Some(collection_wkb(dim, gs)) || (
                    gs.len() == 1 && wkb_of_wkt(t, dim) == Some(wkb_of(gs[0])))) && c@[j] == Some(
                        Seq::new(gs.len(), |k: int| stored(gs[k], prefer_multi)),
                    ),
            } by {
                if j < i {
                    assert(post[j] == pre[j]);
                    assert(c@[j] == before[j]);
                } else {
                    assert(post[j] == tv[i as int]);
                }
            }
            assert forall|j: int| 0 <= j < post.len() implies (#[trigger] post[j] matches Some(t)
                ==> (wkb_of_wkt(t, dim) matches Some(b) && collection_decodes(b, dim))) by {
                if j < i {
                    assert(post[j] == pre[j]);
                } else {
                    assert(post[j] == tv[i as int]);
                }
            }
        }
        i = i + 1;
    }
    assert(tv.subrange(0, texts@.len() as int) =~= tv);
    Ok(c)
}

} // verus!
