use vstd::prelude::*;

use crate::codec::{
    converted, encoded, from_wkb, native_encoded_len, offset_limit, to_wkb, wkb_blocked, wkb_fails,
    NativeType,
};
use crate::collection::collections_encoded;
use crate::error::GeoArrowError;
use crate::geometry::GeometryKind;
use crate::native::{downcast_model, upcast_model, NativeArray};
use crate::coord::CoordType;
use crate::geometry::Dimension;
use crate::metadata::ArrayMetadata;
use crate::mixed::MixedGeometryArray;
use crate::wkb_array::WKBArray;
use crate::wkt::{from_wkt, text_views, wkt_all_readable, wkt_decoded};

verus! {

/// Every chunk narrows to `t`.
pub open spec fn all_narrow_to(chunks: Seq<NativeArray>, prefer_multi: bool, t: GeometryKind) -> bool {
    forall|i: int|
        0 <= i < chunks.len() ==> downcast_model(#[trigger] chunks[i].model(), prefer_multi).kind
            == Some(t)
}

/// Every chunk narrows to the same concrete kind.
pub open spec fn chunks_agree(chunks: Seq<NativeArray>, prefer_multi: bool) -> bool {
    exists|t: GeometryKind| #[trigger] all_narrow_to(chunks, prefer_multi, t)
}

impl NativeArray {
    /// The kind that downcasting would give, `None` for a column that stays
    /// mixed.
    pub fn downcast_kind(&self, prefer_multi: bool) -> (r: Option<GeometryKind>)
        requires
            self.wf(),
            !self.is_collection(),
        ensures
            r == downcast_model(self.model(), prefer_multi).kind,
    {
        match self {
            NativeArray::Geometry(a) => Some(a.kind_exec()),
            NativeArray::Mixed(m) => m.narrow_kind(prefer_multi),
            NativeArray::Collection(_) => None,
        }
    }
}

/// Converts each chunk of a chunked WKB column, keeping chunk order; the
/// first chunk that fails fails the whole conversion.
pub fn from_wkb_chunked(chunks: &Vec<WKBArray>, target: NativeType, prefer_multi: bool) -> (r:
    Result<Vec<NativeArray>, GeoArrowError>)
    requires
        forall|i: int| 0 <= i < chunks@.len() ==> (#[trigger] chunks@[i]).wf(),
    ensures
        r matches Ok(out) ==> {
            &&& out@.len() == chunks@.len()
            &&& forall|i: int|
                0 <= i < chunks@.len() ==> converted(
                    chunks@[i]@,
                    chunks@[i].crs(),
                    #[trigger] out@[i],
                    target,
                    prefer_multi,
                )
        },
        r is Err ==> exists|i: int| 0 <= i < chunks@.len() && wkb_fails(#[trigger] chunks@[i]@, target),
        (exists|i: int| 0 <= i < chunks@.len() && wkb_blocked(#[trigger] chunks@[i]@, target)) ==> r is Err,
        r matches Err(e) ==> e is FormatError || e is NotYetImplemented || e is IncorrectType
            || e is General,
{
    let mut out: Vec<NativeArray> = Vec::new();
    let mut i: usize = 0;
    while i < chunks.len()
        invariant
            forall|i: int| 0 <= i < chunks@.len() ==> (#[trigger] chunks@[i]).wf(),
            i <= chunks@.len(),
            out@.len() == i,
            forall|j: int|
                0 <= j < i ==> converted(
                    chunks@[j]@,
                    chunks@[j].crs(),
                    #[trigger] out@[j],
                    target,
                    prefer_multi,
                ),
            forall|j: int| 0 <= j < i ==> !wkb_blocked(#[trigger] chunks@[j]@, target),
        decreases chunks@.len() - i,
    {
        let a = match from_wkb(&chunks[i], target, prefer_multi) {
            Ok(a) => a,
            Err(e) => {
                assert(wkb_fails(chunks@[i as int]@, target));
                return Err(e);
            },
        };
        out.push(a);
        i = i + 1;
    }
    Ok(out)
}

/// Encodes each chunk as WKB, keeping chunk order. Fails with `Overflow`
/// exactly when some chunk's encoded bytes exceed what the offsets can
/// address.
pub fn to_wkb_chunked(chunks: &Vec<NativeArray>, large: bool) -> (r: Result<
    Vec<WKBArray>,
    GeoArrowError,
>)
    requires
        forall|i: int| 0 <= i < chunks@.len() ==> (#[trigger] chunks@[i]).wf(),
    ensures
        r is Ok <==> forall|i: int|
            0 <= i < chunks@.len() ==> native_encoded_len(#[trigger] chunks@[i]) <= offset_limit(large),
        r matches Ok(out) ==> {
            &&& out@.len() == chunks@.len()
            &&& forall|i: int|
                0 <= i < chunks@.len() ==> {
                    &&& (#[trigger] out@[i]).wf()
                    &&& out@[i].is_large() == large
                    &&& out@[i].crs() == chunks@[i].crs()
                    &&& out@[i].num_value_bytes() == native_encoded_len(chunks@[i])
                    &&& (!chunks@[i].is_collection() ==> encoded(chunks@[i].model().slots, out@[i]@))
                    &&& (chunks@[i] matches NativeArray::Collection(c) ==> collections_encoded(
                        c.dim(),
                        c@,
                        out@[i]@,
                    ))
                }
        },
        r matches Err(e) ==> e == GeoArrowError::Overflow,
{
    let mut out: Vec<WKBArray> = Vec::new();
    let mut i: usize = 0;
    while i < chunks.len()
        invariant
            forall|i: int| 0 <= i < chunks@.len() ==> (#[trigger] chunks@[i]).wf(),
            i <= chunks@.len(),
            out@.len() == i,
            forall|j: int|
                0 <= j < i ==> {
                    &&& (#[trigger] out@[j]).wf()
                    &&& out@[j].is_large() == large
                    &&& out@[j].crs() == chunks@[j].crs()
                    &&& out@[j].num_value_bytes() == native_encoded_len(chunks@[j])
                    &&& (!chunks@[j].is_collection() ==> encoded(chunks@[j].model().slots, out@[j]@))
                    &&& (chunks@[j] matches NativeArray::Collection(c) ==> collections_encoded(
                        c.dim(),
                        c@,
                        out@[j]@,
                    ))
                },
            forall|j: int| 0 <= j < i ==> native_encoded_len(#[trigger] chunks@[j]) <= offset_limit(large),
        decreases chunks@.len() - i,
    {
        let w = match to_wkb(&chunks[i], large) {
            Ok(w) => w,
            Err(e) => {
                assert(!(native_encoded_len(chunks@[i as int]) <= offset_limit(large)));
                return Err(e);
            },
        };
        out.push(w);
        i = i + 1;
    }
    Ok(out)
}

/// Downcasts a chunked column: when every chunk narrows to the same concrete
/// kind, each chunk is downcast; otherwise every chunk is widened to a mixed
/// column. Chunk order is kept.
pub fn downcast_chunked(chunks: Vec<NativeArray>, prefer_multi: bool) -> (r: Vec<NativeArray>)
    requires
        forall|i: int| 0 <= i < chunks@.len() ==> (#[trigger] chunks@[i]).wf() && !chunks@[i].is_collection(),
    ensures
        r@.len() == chunks@.len(),
        forall|i: int|
            0 <= i < chunks@.len() ==> {
                &&& (#[trigger] r@[i]).wf()
                &&& r@[i].model() == if chunks_agree(chunks@, prefer_multi) {
                    downcast_model(chunks@[i].model(), prefer_multi)
                } else {
                    upcast_model(chunks@[i].model())
                }
            },
{
    let n = chunks.len();
    let ghost orig = chunks@;
    let mut agree = true;
    let mut target: Option<GeometryKind> = None;
    let mut i: usize = 0;
    while i < n
        invariant
            n == orig.len(),
            chunks@ == orig,
            forall|i: int| 0 <= i < orig.len() ==> (#[trigger] orig[i]).wf() && !orig[i].is_collection(),
            i <= n,
            agree ==> forall|j: int|
                0 <= j < i ==> downcast_model(#[trigger] orig[j].model(), prefer_multi).kind
                    == target && target is Some,
            !agree ==> !chunks_agree(orig, prefer_multi),
            i > 0 && agree ==> target is Some,
        decreases n - i,
    {
        let k = chunks[i].downcast_kind(prefer_multi);
        if agree {
            match k {
                None => {
                    agree = false;
                    assert(!chunks_agree(orig, prefer_multi)) by {
                        if chunks_agree(orig, prefer_multi) {
                            let t = choose|t: GeometryKind| #[trigger] all_narrow_to(orig, prefer_multi, t);
                            assert(downcast_model(orig[i as int].model(), prefer_multi).kind == Some(t));
                        }
                    }
                },
                Some(t) => {
                    if i == 0 {
                        target = Some(t);
                    } else if target != Some(t) {
                        agree = false;
                        assert(!chunks_agree(orig, prefer_multi)) by {
                            if chunks_agree(orig, prefer_multi) {
                                let u = choose|u: GeometryKind| #[trigger] all_narrow_to(orig, prefer_multi, u);
                                assert(downcast_model(orig[i as int].model(), prefer_multi).kind
                                    == Some(u));
                                assert(downcast_model(orig[0].model(), prefer_multi).kind
                                    == Some(u));
                            }
                        }
                    }
                },
            }
        }
        i = i + 1;
    }
    proof {
        if agree && n > 0 {
            let t = target->0;
            assert(all_narrow_to(orig, prefer_multi, t));
        }
    }
    let ghost agreed = chunks_agree(orig, prefer_multi);
    assert(n > 0 ==> (agree == agreed));
    let mut chunks = chunks;
    let mut out: Vec<NativeArray> = Vec::new();
    let mut j: usize = 0;
    while j < n
        invariant
            n == orig.len(),
            forall|i: int| 0 <= i < orig.len() ==> (#[trigger] orig[i]).wf() && !orig[i].is_collection(),
            j <= n,
            chunks@ == orig.subrange(j as int, n as int),
            out@.len() == j,
            n > 0 ==> (agree == agreed),
            agreed == chunks_agree(orig, prefer_multi),
            forall|i: int|
                0 <= i < j ==> {
                    &&& (#[trigger] out@[i]).wf()
                    &&& out@[i].model() == if agreed {
                        downcast_model(orig[i].model(), prefer_multi)
                    } else {
                        upcast_model(orig[i].model())
                    }
                },
        decreases n - j,
    {
        let c = chunks.remove(0);
        assert(c == orig[j as int]);
        assert(chunks@ =~= orig.subrange(j + 1, n as int));
        if agree {
            out.push(c.downcast(prefer_multi));
        } else {
            out.push(NativeArray::Mixed(c.upcast()));
        }
        j = j + 1;
    }
    out
}

/// Parses each chunk of a chunked WKT column into a mixed array carrying
/// `metadata`, keeping chunk order; the first chunk that fails fails the
/// whole conversion.
pub fn from_wkt_chunked(
    chunks: &Vec<Vec<Option<String>>>,
    coord_type: CoordType,
    dim: Dimension,
    metadata: &ArrayMetadata,
    prefer_multi: bool,
) -> (r: Result<Vec<MixedGeometryArray>, GeoArrowError>)
    ensures
        r matches Ok(out) ==> {
            &&& out@.len() == chunks@.len()
            &&& forall|i: int|
                0 <= i < chunks@.len() ==> {
                    &&& (#[trigger] out@[i]).wf()
                    &&& out@[i].dim() == dim
                    &&& out@[i].crs() == metadata@
                    &&& wkt_decoded(text_views(chunks@[i]@), out@[i]@, dim, prefer_multi)
                }
        },
        r is Ok <==> forall|i: int|
            0 <= i < chunks@.len() ==> wkt_all_readable(text_views(#[trigger] chunks@[i]@), dim),
        r matches Err(e) ==> e is FormatError || e is NotYetImplemented || e is IncorrectType,
{
    let mut out: Vec<MixedGeometryArray> = Vec::new();
    let mut i: usize = 0;
    while i < chunks.len()
        invariant
            i <= chunks@.len(),
            out@.len() == i,
            forall|j: int|
                0 <= j < i ==> {
                    &&& (#[trigger] out@[j]).wf()
                    &&& out@[j].dim() == dim
                    &&& out@[j].crs() == metadata@
                    &&& wkt_decoded(text_views(chunks@[j]@), out@[j]@, dim, prefer_multi)
                },
            forall|j: int| 0 <= j < i ==> wkt_all_readable(text_views(#[trigger] chunks@[j]@), dim),
        decreases chunks@.len() - i,
    {
        let m = match from_wkt(&chunks[i], coord_type, dim, metadata.duplicate(), prefer_multi) {
            Ok(m) => m,
            Err(e) => {
                assert(!wkt_all_readable(text_views(chunks@[i as int]@), dim));
                return Err(e);
            },
        };
        out.push(m);
        i = i + 1;
    }
    Ok(out)
}

} // verus!
