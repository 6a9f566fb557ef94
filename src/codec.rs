use vstd::prelude::*;

use crate::array::{
    contents, coords_needed, measure, option_views, parts_needed, rings_needed, GeometryArray,
};
use crate::collection::{
    collection_decodable, collection_decoded, collections_encoded, collections_len,
    from_wkb_collection,
    to_wkb_collection,
};
use vstd::bytes::*;
use crate::coord::CoordType;
use crate::error::GeoArrowError;
use crate::geometry::{retag, Dimension, GeomModel, Geometry, GeometryKind};
use crate::mixed::MixedGeometryArray;
use crate::native::NativeArray;
use crate::wkb::{
    lemma_type_code_bytes, parse_wkb, type_code, unsupported_wkb, wkb_any, wkb_of, write_geometry,
};
use crate::wkb_array::WKBArray;

verus! {

/// The target of a conversion into native arrays.
#[derive(Debug, Clone, Copy, PartialEq, Eq, Structural)]
pub enum NativeType {
    Point(CoordType, Dimension),
    LineString(CoordType, Dimension),
    Polygon(CoordType, Dimension),
    MultiPoint(CoordType, Dimension),
    MultiLineString(CoordType, Dimension),
    MultiPolygon(CoordType, Dimension),
    Mixed(CoordType, Dimension),
    GeometryCollection(CoordType, Dimension),
    Rect(Dimension),
}

impl NativeType {
    /// The concrete kind of a homogeneous target.
    pub open spec fn concrete(self) -> Option<GeometryKind> {
        match self {
            NativeType::Point(..) => Some(GeometryKind::Point),
            NativeType::LineString(..) => Some(GeometryKind::LineString),
            NativeType::Polygon(..) => Some(GeometryKind::Polygon),
            NativeType::MultiPoint(..) => Some(GeometryKind::MultiPoint),
            NativeType::MultiLineString(..) => Some(GeometryKind::MultiLineString),
            NativeType::MultiPolygon(..) => Some(GeometryKind::MultiPolygon),
            _ => None,
        }
    }

    pub open spec fn coord_type(self) -> CoordType {
        match self {
            NativeType::Point(c, _) => c,
            NativeType::LineString(c, _) => c,
            NativeType::Polygon(c, _) => c,
            NativeType::MultiPoint(c, _) => c,
            NativeType::MultiLineString(c, _) => c,
            NativeType::MultiPolygon(c, _) => c,
            NativeType::Mixed(c, _) => c,
            NativeType::GeometryCollection(c, _) => c,
            NativeType::Rect(_) => CoordType::Interleaved,
        }
    }

    pub open spec fn dim(self) -> Dimension {
        match self {
            NativeType::Point(_, d) => d,
            NativeType::LineString(_, d) => d,
            NativeType::Polygon(_, d) => d,
            NativeType::MultiPoint(_, d) => d,
            NativeType::MultiLineString(_, d) => d,
            NativeType::MultiPolygon(_, d) => d,
            NativeType::Mixed(_, d) => d,
            NativeType::GeometryCollection(_, d) => d,
            NativeType::Rect(d) => d,
        }
    }
}

/// How a decoded geometry is stored: as decoded, or with `prefer_multi` as
/// the multi-part kind of its base.
pub open spec fn stored(g: GeomModel, prefer_multi: bool) -> GeomModel {
    if prefer_multi {
        retag(g, g.kind.multi())
    } else {
        g
    }
}

/// A geometry of kind `kind` fits a column of kind `target` (any kind fits
/// a mixed column, `None`): the same kind, or the single-part kind of which
/// `target` is the multi-part one.
pub open spec fn kind_fits(kind: GeometryKind, target: Option<GeometryKind>) -> bool {
    match target {
        Some(k) => kind == k || (k.is_multi() && kind == k.single()),
        None => true,
    }
}

/// How a decoded geometry is stored in a column of kind `target`: re-tagged
/// as `target`, or for a mixed column as `stored` says.
pub open spec fn stored_as(g: GeomModel, target: Option<GeometryKind>, prefer_multi: bool) -> GeomModel {
    match target {
        Some(k) => retag(g, k),
        None => stored(g, prefer_multi),
    }
}

/// `slots` holds, for each slot of `wkb`, null where it is null, and else a
/// well-formed geometry of dimension `dim` whose encoding is the slot's bytes,
/// stored as `stored_as` says.
pub open spec fn decoded(
    wkb: Seq<Option<Seq<u8>>>,
    slots: Seq<Option<GeomModel>>,
    dim: Dimension,
    target: Option<GeometryKind>,
    prefer_multi: bool,
) -> bool {
    &&& slots.len() == wkb.len()
    &&& forall|i: int|
        0 <= i < wkb.len() ==> match #[trigger] wkb[i] {
            None => slots[i] is None,
            Some(b) => exists|g: GeomModel|
                g.wf() && g.dim == dim && wkb_of(g) == b && kind_fits(g.kind, target) && slots[i]
                    == Some(stored_as(g, target, prefer_multi)),
        }
}

/// Every non-null slot of `wkb` is the encoding of a well-formed geometry of
/// dimension `dim` whose kind fits `kind`.
pub open spec fn decodable(
    wkb: Seq<Option<Seq<u8>>>,
    kind: Option<GeometryKind>,
    dim: Dimension,
) -> bool {
    forall|i: int|
        0 <= i < wkb.len() ==> (#[trigger] wkb[i] matches Some(b) ==> exists|g: GeomModel|
            g.wf() && g.dim == dim && wkb_of(g) == b && kind_fits(g.kind, kind))
}

/// Which error a slot of `wkb` gives: `FormatError` for bytes that encode no
/// geometry and have no unsupported header, `NotYetImplemented` for an
/// unsupported header, and `IncorrectType` for a geometry of the wrong
/// dimension or of a kind that does not fit.
pub open spec fn slot_error(
    wkb: Seq<Option<Seq<u8>>>,
    e: GeoArrowError,
    kind: Option<GeometryKind>,
    dim: Dimension,
) -> bool {
    exists|i: int|
        0 <= i < wkb.len() && (#[trigger] wkb[i] matches Some(b) && match e {
            GeoArrowError::FormatError => !unsupported_wkb(b) && !wkb_any(b),
            GeoArrowError::NotYetImplemented => unsupported_wkb(b),
            GeoArrowError::IncorrectType => exists|g: GeomModel|
                g.wf() && wkb_of(g) == b && (g.dim != dim || !kind_fits(g.kind, kind)),
            _ => false,
        })
}

/// `a` is what converting the WKB slots `wkb`, carrying `crs`, to `target`
/// gives: a well-formed column of the target's kind, dimension and layout,
/// carrying `crs`, whose slots the WKB decodes to.
pub open spec fn converted(
    wkb: Seq<Option<Seq<u8>>>,
    crs: Option<Seq<char>>,
    a: NativeArray,
    target: NativeType,
    prefer_multi: bool,
) -> bool {
    &&& a.wf()
    &&& a.dim() == target.dim()
    &&& a.coord_type() == target.coord_type()
    &&& a.crs() == crs
    &&& a.model().kind == target.concrete()
    &&& (target is GeometryCollection ==> (a matches NativeArray::Collection(c) && collection_decoded(
        wkb,
        c@,
        target.dim(),
        prefer_multi,
    )))
    &&& (!(target is GeometryCollection) ==> !a.is_collection() && decoded(
        wkb,
        a.model().slots,
        target.dim(),
        target.concrete(),
        prefer_multi,
    ))
}

/// Inputs on which `from_wkb` certainly fails: a rectangle target, or slots
/// that do not decode to the target.
pub open spec fn wkb_blocked(wkb: Seq<Option<Seq<u8>>>, target: NativeType) -> bool {
    ||| target is Rect
    ||| (target is GeometryCollection && !collection_decodable(wkb, target.dim()))
    ||| (!(target is GeometryCollection) && !decodable(wkb, target.concrete(), target.dim()))
}

/// The largest number of value bytes that 64-bit (`large`) or 32-bit
/// offsets can address.
pub open spec fn offset_limit(large: bool) -> int {
    if large {
        i64::MAX as int
    } else {
        i32::MAX as int
    }
}

/// Total number of bytes that encoding a column takes.
pub open spec fn native_encoded_len(arr: NativeArray) -> int {
    match arr {
        NativeArray::Collection(c) => collections_len(c.dim(), c@),
        _ => encoded_len(arr.model().slots),
    }
}

/// The inputs on which `from_wkb` fails: a rectangle target; collections
/// that do not decode; or, for other targets, slots that do not decode, or
/// counts that exceed `usize`.
pub open spec fn wkb_fails(wkb: Seq<Option<Seq<u8>>>, target: NativeType) -> bool {
    ||| target is Rect
    ||| (target is GeometryCollection && !collection_decodable(wkb, target.dim()))
    ||| (!(target is Rect) && !(target is GeometryCollection) && (!decodable(
        wkb,
        target.concrete(),
        target.dim(),
    ) || (target.concrete() matches Some(k) && exists|slots: Seq<Option<GeomModel>>|
        decoded(wkb, slots, target.dim(), Some(k), false) && (parts_needed(k, slots) > usize::MAX
            || rings_needed(k, slots) > usize::MAX || coords_needed(k, slots) > usize::MAX))))
}

/// `wkb` holds the encoding of each geometry of `slots`, null where null.
pub open spec fn encoded(slots: Seq<Option<GeomModel>>, wkb: Seq<Option<Seq<u8>>>) -> bool {
    &&& wkb.len() == slots.len()
    &&& forall|i: int|
        0 <= i < slots.len() ==> #[trigger] wkb[i] == match slots[i] {
            Some(g) => Some(wkb_of(g)),
            None => None,
        }
}

/// Total number of bytes that encoding the geometries of `slots` takes.
pub open spec fn encoded_len(slots: Seq<Option<GeomModel>>) -> int
    decreases slots.len(),
{
    if slots.len() == 0 {
        0
    } else {
        encoded_len(slots.drop_last()) + match slots.last() {
            Some(g) => wkb_of(g).len() as int,
            None => 0,
        }
    }
}

proof fn lemma_encoded_len_prefix(slots: Seq<Option<GeomModel>>, i: int)
    requires
        0 <= i <= slots.len(),
    ensures
        0 <= encoded_len(slots.subrange(0, i)) <= encoded_len(slots),
    decreases slots.len() - i,
{
    if i < slots.len() {
        lemma_encoded_len_prefix(slots, i + 1);
        assert(slots.subrange(0, i + 1).drop_last() =~= slots.subrange(0, i));
        lemma_encoded_len_nonneg(slots.subrange(0, i));
    } else {
        assert(slots.subrange(0, i) =~= slots);
        lemma_encoded_len_nonneg(slots);
    }
}

proof fn lemma_encoded_len_nonneg(slots: Seq<Option<GeomModel>>)
    ensures
        encoded_len(slots) >= 0,
    decreases slots.len(),
{
    if slots.len() > 0 {
        lemma_encoded_len_nonneg(slots.drop_last());
    }
}

/// Two well-formed geometries with the same encoding have the same kind and
/// dimension.
proof fn lemma_wkb_kind(g1: GeomModel, g2: GeomModel)
    requires
        wkb_of(g1) == wkb_of(g2),
    ensures
        g1.kind == g2.kind,
        g1.dim == g2.dim,
{
    lemma_auto_spec_u32_to_from_le_bytes();
    lemma_type_code_bytes(g1);
    lemma_type_code_bytes(g2);
    assert(spec_u32_from_le_bytes(spec_u32_to_le_bytes(type_code(g1.kind, g1.dim))) == type_code(
        g1.kind,
        g1.dim,
    ));
    assert(spec_u32_from_le_bytes(spec_u32_to_le_bytes(type_code(g2.kind, g2.dim))) == type_code(
        g2.kind,
        g2.dim,
    ));
}

/// Decoding and then encoding again gives back the same bytes, slot for slot,
/// where every value already has the kind that it is stored as.
pub proof fn lemma_wkb_round_trip(
    wkb: Seq<Option<Seq<u8>>>,
    slots: Seq<Option<GeomModel>>,
    dim: Dimension,
    target: Option<GeometryKind>,
    out: Seq<Option<Seq<u8>>>,
)
    requires
        decoded(wkb, slots, dim, target, false),
        forall|i: int|
            0 <= i < wkb.len() ==> (#[trigger] wkb[i] matches Some(b) ==> exists|g: GeomModel|
                g.wf() && wkb_of(g) == b && (target matches Some(k) ==> g.kind == k)),
        encoded(slots, out),
    ensures
        out == wkb,
{
    assert forall|i: int| 0 <= i < wkb.len() implies #[trigger] out[i] == wkb[i] by {
        if let Some(b) = wkb[i] {
            let g = choose|g: GeomModel|
                g.wf() && g.dim == dim && wkb_of(g) == b && kind_fits(g.kind, target) && slots[i]
                    == Some(stored_as(g, target, false));
            let h = choose|h: GeomModel|
                h.wf() && wkb_of(h) == b && (target matches Some(k) ==> h.kind == k);
            lemma_wkb_kind(g, h);
            assert(stored_as(g, target, false) == g);
            assert(out[i] == Some(wkb_of(g)));
        }
    }
    assert(out =~= wkb);
}

/// First pass: parses every non-null slot, checking kind and dimension, before
/// any array is allocated.
fn parse_all(arr: &WKBArray, kind: Option<GeometryKind>, dim: Dimension) -> (r: Result<
    Vec<Option<Geometry>>,
    GeoArrowError,
>)
    requires
        arr.wf(),
    ensures
        r matches Ok(gs) ==> {
            &&& gs@.len() == arr@.len()
            &&& forall|i: int|
                0 <= i < arr@.len() ==> match #[trigger] arr@[i] {
                    None => gs@[i] is None,
                    Some(b) => gs@[i] matches Some(g) && g@.wf() && g.dim == dim && wkb_of(g@) == b
                        && kind_fits(g.kind, kind),
                }
        },
        r matches Err(e) ==> slot_error(arr@, e, kind, dim),
        r is Err <==> !decodable(arr@, kind, dim),
{
    let n = arr.len();
    let mut gs: Vec<Option<Geometry>> = Vec::new();
    let mut i: usize = 0;
    while i < n
        invariant
            arr.wf(),
            n == arr@.len(),
            i <= n,
            gs@.len() == i,
            forall|j: int|
                0 <= j < i ==> match #[trigger] arr@[j] {
                    None => gs@[j] is None,
                    Some(b) => gs@[j] matches Some(g) && g@.wf() && g.dim == dim && wkb_of(g@) == b
                        && kind_fits(g.kind, kind),
                },
        decreases n - i,
    {
        match arr.value(i) {
            Some(b) => {
                let g = match parse_wkb(b) {
                    Ok(g) => g,
                    Err(e) => {
                        assert(arr@[i as int] == Some(b@));
                        assert(!decodable(arr@, kind, dim));
                        assert(slot_error(arr@, e, kind, dim));
                        return Err(e);
                    },
                };
                let fits = match kind {
                    Some(k) => g.kind == k || (k.is_multi_exec() && g.kind == k.single_exec()),
                    None => true,
                };
                if g.dim != dim || !fits {
                    assert(arr@[i as int] == Some(b@));
                    assert(!decodable(arr@, kind, dim)) by {
                        if decodable(arr@, kind, dim) {
                            let h = choose|h: GeomModel|
                                h.wf() && h.dim == dim && wkb_of(h) == b@ && kind_fits(h.kind, kind);
                            assert(h == g@);
                        }
                    }
                    assert(slot_error(arr@, GeoArrowError::IncorrectType, kind, dim));
                    return Err(GeoArrowError::IncorrectType);
                }
                gs.push(Some(g));
            },
            None => {
                gs.push(None);
            },
        }
        i = i + 1;
    }
    assert(decodable(arr@, kind, dim)) by {
        assert forall|j: int| 0 <= j < arr@.len() implies (#[trigger] arr@[j] matches Some(b)
            ==> exists|g: GeomModel| g.wf() && g.dim == dim && wkb_of(g) == b && kind_fits(g.kind, kind)) by {
            if let Some(b) = arr@[j] {
                assert(gs@[j]->0@.wf());
            }
        }
    }
    Ok(gs)
}

/// Converts ISO WKB geometries into a native array of the target type.
/// A concrete target takes geometries of its kind, and a multi-part target
/// also those of its single-part kind (`IncorrectType` for any other kind or
/// dimension); a mixed target takes any kind, stored as `prefer_multi` says;
/// a collection target takes collections and single geometries. Bytes that
/// encode no geometry fail with `FormatError`, and unsupported headers and
/// rectangle targets with `NotYetImplemented`. The result is not downcast.
#[verifier::rlimit(100)]
#[verifier::spinoff_prover]
pub fn from_wkb(arr: &WKBArray, target: NativeType, prefer_multi: bool) -> (r: Result<
    NativeArray,
    GeoArrowError,
>)
    requires
        arr.wf(),
    ensures
        target is Rect ==> r == Err::<NativeArray, GeoArrowError>(GeoArrowError::NotYetImplemented),
        r is Err ==> wkb_fails(arr@, target),
        wkb_blocked(arr@, target) ==> r is Err,
        r matches Ok(a) ==> converted(arr@, arr.crs(), a, target, prefer_multi),
        r matches Err(e) ==> e is FormatError || e is NotYetImplemented || e is IncorrectType
            || e is General,
        r matches Err(e) ==> !(target is Rect) && !(target is GeometryCollection) && !(e is General)
            ==> slot_error(arr@, e, target.concrete(), target.dim()),
{
    let (kind, ct, dim) = match target {
        NativeType::Point(ct, d) => (Some(GeometryKind::Point), ct, d),
        NativeType::LineString(ct, d) => (Some(GeometryKind::LineString), ct, d),
        NativeType::Polygon(ct, d) => (Some(GeometryKind::Polygon), ct, d),
        NativeType::MultiPoint(ct, d) => (Some(GeometryKind::MultiPoint), ct, d),
        NativeType::MultiLineString(ct, d) => (Some(GeometryKind::MultiLineString), ct, d),
        NativeType::MultiPolygon(ct, d) => (Some(GeometryKind::MultiPolygon), ct, d),
        NativeType::Mixed(ct, d) => (None, ct, d),
        NativeType::GeometryCollection(ct, d) => {
            let c = from_wkb_collection(arr, ct, d, prefer_multi)?;
            return Ok(NativeArray::Collection(c));
        },
        NativeType::Rect(_) => {
            return Err(GeoArrowError::NotYetImplemented);
        },
    };
    from_wkb_singles(arr, kind, ct, dim, prefer_multi)
}

/// Both passes for a concrete or mixed target.
fn from_wkb_singles(
    arr: &WKBArray,
    kind: Option<GeometryKind>,
    ct: CoordType,
    dim: Dimension,
    prefer_multi: bool,
) -> (r: Result<NativeArray, GeoArrowError>)
    requires
        arr.wf(),
    ensures
        r matches Ok(a) ==> {
            &&& a.wf()
            &&& a.dim() == dim
            &&& a.coord_type() == ct
            &&& a.crs() == arr.crs()
            &&& a.model().kind == kind
            &&& !a.is_collection()
            &&& decoded(arr@, a.model().slots, dim, kind, prefer_multi)
        },
        !decodable(arr@, kind, dim) ==> r is Err,
        r matches Err(e) ==> (e is General ==> (kind matches Some(k) && exists|slots: Seq<Option<GeomModel>>|
            decoded(arr@, slots, dim, Some(k), false) && (parts_needed(k, slots) > usize::MAX
                || rings_needed(k, slots) > usize::MAX || coords_needed(k, slots) > usize::MAX))),
        r matches Err(e) ==> !(e is General) ==> slot_error(arr@, e, kind, dim) && !decodable(arr@, kind, dim),
        r matches Err(e) ==> e is FormatError || e is NotYetImplemented || e is IncorrectType
            || e is General,
{
    let gs = parse_all(arr, kind, dim)?;
    let ghost v = option_views(gs@);
    assert forall|j: int| 0 <= j < gs@.len() implies (#[trigger] gs@[j] matches Some(g) ==> g@.wf()
        && g.dim == dim && kind_fits(g.kind, kind)) by {
        assert(arr@[j] == arr@[j]);
    }
    assert forall|j: int| 0 <= j < arr@.len() implies match #[trigger] arr@[j] {
        None => v[j] is None,
        Some(b) => v[j] matches Some(g) && g.wf() && g.dim == dim && wkb_of(g) == b && kind_fits(
            g.kind,
            kind,
        ),
    } by {
        assert(v[j] == match gs@[j] {
            Some(g) => Some(g@),
            None => None::<GeomModel>,
        });
    }
    match kind {
        Some(k) => {
            let a = match build_array(&gs, k, dim, ct) {
                Ok(a) => a,
                Err(e) => {
                    proof {
                        lemma_decoded(arr@, v, retag_views(v, k), dim, kind, false);
                        assert(contents(k, v) =~= contents(k, retag_views(v, k)));
                    }
                    return Err(e);
                },
            };
            proof {
                lemma_decoded(arr@, v, a@, dim, kind, false);
            }
            Ok(NativeArray::Geometry(a.with_metadata(arr.metadata().duplicate())))
        },
        None => {
            let m = build_mixed(&gs, dim, ct, prefer_multi);
            proof {
                lemma_decoded(arr@, v, m@, dim, kind, prefer_multi);
            }
            Ok(NativeArray::Mixed(m.with_metadata(arr.metadata().duplicate())))
        },
    }
}

/// Each geometry re-tagged as `k`.
pub open spec fn retag_views(v: Seq<Option<GeomModel>>, k: GeometryKind) -> Seq<Option<GeomModel>> {
    Seq::new(
        v.len(),
        |i: int|
            match v[i] {
                Some(g) => Some(retag(g, k)),
                None => None,
            },
    )
}

proof fn lemma_decoded(
    wkb: Seq<Option<Seq<u8>>>,
    v: Seq<Option<GeomModel>>,
    slots: Seq<Option<GeomModel>>,
    dim: Dimension,
    target: Option<GeometryKind>,
    prefer_multi: bool,
)
    requires
        v.len() == wkb.len(),
        slots.len() == v.len(),
        forall|j: int|
            0 <= j < wkb.len() ==> match #[trigger] wkb[j] {
                None => v[j] is None,
                Some(b) => v[j] matches Some(g) && g.wf() && g.dim == dim && wkb_of(g) == b
                    && kind_fits(g.kind, target),
            },
        forall|j: int|
            0 <= j < v.len() ==> #[trigger] slots[j] == match v[j] {
                Some(g) => Some(stored_as(g, target, prefer_multi)),
                None => None,
            },
    ensures
        decoded(wkb, slots, dim, target, prefer_multi),
{
    assert forall|j: int| 0 <= j < wkb.len() implies match #[trigger] wkb[j] {
        None => slots[j] is None,
        Some(b) => exists|g: GeomModel|
            g.wf() && g.dim == dim && wkb_of(g) == b && kind_fits(g.kind, target) && slots[j]
                == Some(stored_as(g, target, prefer_multi)),
    } by {
        assert(slots[j] == match v[j] {
            Some(g) => Some(stored_as(g, target, prefer_multi)),
            None => None,
        });
        if let Some(b) = wkb[j] {
            let g = v[j]->0;
            assert(slots[j] == Some(stored_as(g, target, prefer_multi)));
        }
    }
}

/// Second pass for a concrete kind: allocates every buffer at its measured
/// size, then fills it.
fn build_array(gs: &Vec<Option<Geometry>>, k: GeometryKind, dim: Dimension, ct: CoordType) -> (r:
    Result<GeometryArray, GeoArrowError>)
    requires
        forall|j: int|
            0 <= j < gs@.len() ==> (#[trigger] gs@[j] matches Some(g) ==> g@.wf() && g.dim == dim
                && kind_fits(g.kind, Some(k))),
    ensures
        r matches Ok(a) ==> {
            &&& a.wf()
            &&& a.kind() == k
            &&& a.dim() == dim
            &&& a.coord_type() == ct
            &&& a@ == retag_views(option_views(gs@), k)
        },
        r matches Err(e) ==> e is General && (parts_needed(k, option_views(gs@)) > usize::MAX
            || rings_needed(k, option_views(gs@)) > usize::MAX || coords_needed(
            k,
            option_views(gs@),
        ) > usize::MAX),
{
    let capacity = match measure(gs, k) {
        Ok(c) => c,
        Err(_) => {
            return Err(GeoArrowError::General);
        },
    };
    let n = gs.len();
    let ghost w = retag_views(option_views(gs@), k);
    let mut a = GeometryArray::with_capacity(k, dim, ct, &capacity);
    let mut i: usize = 0;
    while i < n
        invariant
            n == gs@.len(),
            i <= n,
            w == retag_views(option_views(gs@), k),
            forall|j: int|
                0 <= j < n ==> (#[trigger] gs@[j] matches Some(g) ==> g@.wf() && g.dim == dim
                    && kind_fits(g.kind, Some(k))),
            a.wf(),
            a.kind() == k,
            a.dim() == dim,
            a.coord_type() == ct,
            a@ == w.subrange(0, i as int),
        decreases n - i,
    {
        match &gs[i] {
            Some(g) => {
                assert(g.kind.rings_free() == k.rings_free());
                assert(g.kind.coords_free() == k.coords_free());
                assert(retag(g@, k).wf());
                a.push_geometry(g)
            },
            None => a.push_null(),
        }
        assert(w.subrange(0, i + 1) =~= w.subrange(0, i as int).push(w[i as int]));
        i = i + 1;
    }
    assert(w.subrange(0, n as int) =~= w);
    Ok(a)
}

/// Second pass for a mixed target.
fn build_mixed(gs: &Vec<Option<Geometry>>, dim: Dimension, ct: CoordType, prefer_multi: bool) -> (r:
    MixedGeometryArray)
    requires
        forall|j: int|
            0 <= j < gs@.len() ==> (#[trigger] gs@[j] matches Some(g) ==> g@.wf() && g.dim == dim),
    ensures
        r.wf(),
        r.dim() == dim,
        r.coord_type() == ct,
        r@.len() == gs@.len(),
        forall|j: int|
            0 <= j < gs@.len() ==> #[trigger] r@[j] == match option_views(gs@)[j] {
                Some(g) => Some(stored(g, prefer_multi)),
                None => None,
            },
{
    let n = gs.len();
    let mut m = MixedGeometryArray::new(dim, ct);
    let mut i: usize = 0;
    while i < n
        invariant
            n == gs@.len(),
            i <= n,
            forall|j: int|
                0 <= j < n ==> (#[trigger] gs@[j] matches Some(g) ==> g@.wf() && g.dim == dim),
            m.wf(),
            m.dim() == dim,
            m.coord_type() == ct,
            m@.len() == i,
            forall|j: int|
                0 <= j < i ==> #[trigger] m@[j] == match gs@[j] {
                    Some(g) => Some(stored(g@, prefer_multi)),
                    None => None,
                },
        decreases n - i,
    {
        match &gs[i] {
            Some(g) => m.push_geometry(g, prefer_multi),
            None => m.push_null(),
        }
        i = i + 1;
    }
    assert forall|j: int| 0 <= j < gs@.len() implies #[trigger] m@[j] == match option_views(gs@)[j] {
        Some(g) => Some(stored(g, prefer_multi)),
        None => None,
    } by {
        assert(option_views(gs@)[j] == match gs@[j] {
            Some(g) => Some(g@),
            None => None::<GeomModel>,
        });
    }
    m
}

/// Encodes every slot of a native array as ISO WKB (a collection column
/// as geometry collections), with 64-bit (`large`) or 32-bit offsets. Fails
/// with `Overflow` exactly when the encoded bytes exceed what the offsets can
/// address.
pub fn to_wkb(arr: &NativeArray, large: bool) -> (r: Result<WKBArray, GeoArrowError>)
    requires
        arr.wf(),
    ensures
        r is Ok <==> native_encoded_len(*arr) <= offset_limit(large),
        r matches Ok(w) ==> {
            &&& w.wf()
            &&& w.is_large() == large
            &&& w.crs() == arr.crs()
            &&& w.num_value_bytes() == native_encoded_len(*arr)
            &&& w.nulls_empty()
            &&& (!arr.is_collection() ==> encoded(arr.model().slots, w@))
            &&& (arr matches NativeArray::Collection(c) ==> collections_encoded(c.dim(), c@, w@))
        },
        r matches Err(e) ==> e == GeoArrowError::Overflow,
{
    match arr {
        NativeArray::Collection(c) => to_wkb_collection(c, large),
        _ => encode_singles(arr, large),
    }
}

fn encode_singles(arr: &NativeArray, large: bool) -> (r: Result<WKBArray, GeoArrowError>)
    requires
        arr.wf(),
        !arr.is_collection(),
    ensures
        r is Ok <==> encoded_len(arr.model().slots) <= offset_limit(large),
        r matches Ok(w) ==> w.wf() && w.is_large() == large && encoded(arr.model().slots, w@)
            && w.crs() == arr.crs() && w.num_value_bytes() == encoded_len(arr.model().slots)
            && w.nulls_empty(),
        r matches Err(e) ==> e == GeoArrowError::Overflow,
{
    let n = arr.len();
    let ghost slots = arr.model().slots;
    let mut out = WKBArray::empty(true);
    assert(slots.subrange(0, 0).len() == 0);
    let mut i: usize = 0;
    while i < n
        invariant
            arr.wf(),
            slots == arr.model().slots,
            n == slots.len(),
            i <= n,
            out.wf(),
            out.is_large(),
            out.nulls_empty(),
            !arr.is_collection(),
            out@.len() == i,
            out.num_value_bytes() == encoded_len(slots.subrange(0, i as int)),
            forall|j: int|
                0 <= j < i ==> #[trigger] out@[j] == match slots[j] {
                    Some(g) => Some(wkb_of(g)),
                    None => None,
                },
        decreases n - i,
    {
        let ghost pre = slots.subrange(0, i as int);
        assert(slots.subrange(0, i + 1).drop_last() =~= pre);
        proof {
            lemma_encoded_len_prefix(slots, i + 1);
        }
        match arr.value(i) {
            Some(g) => {
                proof {
                    match arr {
                        NativeArray::Geometry(a) => a.lemma_view_wf(),
                        NativeArray::Mixed(m) => m.lemma_view_wf(),
                        NativeArray::Collection(_) => {},
                    }
                    assert(slots[i as int] == Some(g@));
                }
                let mut bytes: Vec<u8> = Vec::new();
                write_geometry(&mut bytes, &g);
                assert(bytes@ =~= wkb_of(g@));
                let used = out.buffer_lengths().buffer_capacity;
                assert(slots.subrange(0, i + 1).last() == slots[i as int]);
                assert(encoded_len(slots.subrange(0, i + 1)) == used + bytes@.len());
                if used as u128 + bytes.len() as u128 > i64::MAX as u128 {
                    return Err(GeoArrowError::Overflow);
                }
                out.push(Some(bytes.as_slice()));
            },
            None => {
                assert(slots.subrange(0, i + 1).last() == slots[i as int]);
                out.push(None)
            },
        }
        i = i + 1;
    }
    proof {
        out.lemma_total_bound();
    }
    assert(slots.subrange(0, n as int) =~= slots);
    assert(encoded(slots, out@));
    let out = out.with_metadata(arr.metadata().duplicate());
    if large {
        Ok(out)
    } else {
        out.to_small()
    }
}

} // verus!
