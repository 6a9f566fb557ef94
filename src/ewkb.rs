use vstd::prelude::*;

use crate::codec::stored;
use crate::coord::CoordType;
use crate::error::GeoArrowError;
use crate::geometry::{Dimension, GeomModel};
use crate::mixed::MixedGeometryArray;
use crate::wkb::{decodes, wkb_of};
use crate::wkb_array::WKBArray;
use crate::wkt::push_wkb;

verus! {

/// The OGC WKB bytes that geozero writes for the geometry an extended WKB
/// value describes, with a `z` coordinate where `dim` is `XYZ`; `None` where
/// geozero cannot read the value.
pub uninterp spec fn wkb_of_ewkb(ewkb: Seq<u8>, dim: Dimension) -> Option<Seq<u8>>;

/// Relies on geozero's `ToWkb::to_wkb` over `geozero::wkb::Ewkb`: it reads
/// the extended WKB value and writes the geometry as OGC WKB, the result
/// depending on the bytes and the dimensions alone.
#[verifier::external_body]
fn ewkb_to_wkb(ewkb: &[u8], dim: Dimension) -> (r: Result<Vec<u8>, geozero::error::GeozeroError>)
    ensures
        r is Ok <==> wkb_of_ewkb(ewkb@, dim) is Some,
        r matches Ok(b) ==> wkb_of_ewkb(ewkb@, dim) == Some(b@),
{
    let dims = match dim {
        Dimension::XY => geozero::CoordDimensions::xy(),
        Dimension::XYZ => geozero::CoordDimensions::xyz(),
    };
    geozero::ToWkb::to_wkb(&geozero::wkb::Ewkb(ewkb), dims)
}

/// Every value that is not null is read by geozero into bytes that encode a
/// well-formed geometry of dimension `dim`.
pub open spec fn ewkb_all_readable(ewkb: Seq<Option<Seq<u8>>>, dim: Dimension) -> bool {
    forall|i: int|
        0 <= i < ewkb.len() ==> (#[trigger] ewkb[i] matches Some(e) ==> (wkb_of_ewkb(e, dim) matches Some(
            b,
        ) && decodes(b, dim)))
}

/// Value `i` is the first that is not readable, and geozero cannot read it.
pub open spec fn ewkb_first_unread(ewkb: Seq<Option<Seq<u8>>>, dim: Dimension, i: int) -> bool {
    &&& 0 <= i < ewkb.len()
    &&& ewkb[i] matches Some(e) && wkb_of_ewkb(e, dim) is None
    &&& ewkb_all_readable(ewkb.subrange(0, i), dim)
}

/// `slots` holds, for each slot of `ewkb`, null where it is null and else a
/// well-formed geometry whose encoding is `wkb_of_ewkb` of the slot's bytes,
/// stored as `stored` says.
pub open spec fn ewkb_decoded(
    ewkb: Seq<Option<Seq<u8>>>,
    slots: Seq<Option<GeomModel>>,
    dim: Dimension,
    prefer_multi: bool,
) -> bool {
    &&& slots.len() == ewkb.len()
    &&& forall|i: int|
        0 <= i < ewkb.len() ==> match #[trigger] ewkb[i] {
            None => slots[i] is None,
            Some(e) => exists|g: GeomModel|
                g.wf() && g.dim == dim && wkb_of_ewkb(e, dim) == Some(wkb_of(g)) && slots[i] == Some(
                    stored(g, prefer_multi),
                ),
        }
}

/// Parses a column of extended WKB values into a mixed array of dimension
/// `dim` that carries the column's metadata. It succeeds exactly when every
/// value is readable; a value that geozero cannot read fails the whole
/// conversion with `FormatError`.
pub fn from_ewkb(arr: &WKBArray, coord_type: CoordType, dim: Dimension, prefer_multi: bool) -> (r:
    Result<MixedGeometryArray, GeoArrowError>)
    requires
        arr.wf(),
    ensures
        r matches Ok(m) ==> m.wf() && m.dim() == dim && m.coord_type() == coord_type && m.crs()
            == arr.crs() && ewkb_decoded(arr@, m@, dim, prefer_multi),
        r is Ok <==> ewkb_all_readable(arr@, dim),
        (exists|i: int| ewkb_first_unread(arr@, dim, i)) ==> r == Err::<
            MixedGeometryArray,
            GeoArrowError,
        >(GeoArrowError::FormatError),
        r matches Err(e) ==> e is FormatError || e is NotYetImplemented || e is IncorrectType,
{
    let ghost crs = arr.crs();
    let mut m = MixedGeometryArray::new(dim, coord_type).with_metadata(arr.metadata().duplicate());
    let mut i: usize = 0;
    while i < arr.len()
        invariant
            arr.wf(),
            i <= arr@.len(),
            m.wf(),
            m.dim() == dim,
            m.coord_type() == coord_type,
            m.crs() == crs,
            crs == arr.crs(),
            ewkb_decoded(arr@.subrange(0, i as int), m@, dim, prefer_multi),
            ewkb_all_readable(arr@.subrange(0, i as int), dim),
        decreases arr@.len() - i,
    {
        let ghost before = m@;
        match arr.value(i) {
            None => {
                push_wkb(&mut m, None, prefer_multi)?;
            },
            Some(e) => {
                let bytes = match ewkb_to_wkb(e, dim) {
                    Ok(b) => b,
                    Err(_) => {
                        assert(!ewkb_all_readable(arr@, dim));
                        return Err(GeoArrowError::FormatError);
                    },
                };
                match push_wkb(&mut m, Some(bytes.as_slice()), prefer_multi) {
                    Ok(()) => {},
                    Err(err) => {
                        assert(!ewkb_all_readable(arr@, dim));
                        assert forall|k: int| !ewkb_first_unread(arr@, dim, k) by {
                            if ewkb_first_unread(arr@, dim, k) {
                                if k < i {
                                    assert(arr@.subrange(0, i as int)[k] == arr@[k]);
                                } else if k > i {
                                    assert(arr@.subrange(0, k)[i as int] == arr@[i as int]);
                                }
                            }
                        }
                        return Err(err);
                    },
                }
            },
        }
        proof {
            let pre = arr@.subrange(0, i as int);
            let post = arr@.subrange(0, i + 1);
            assert forall|j: int| 0 <= j < post.len() implies match #[trigger] post[j] {
                None => m@[j] is None,
                Some(e) => exists|g: GeomModel|
                    g.wf() && g.dim == dim && wkb_of_ewkb(e, dim) == Some(wkb_of(g)) && m@[j] == Some(
                        stored(g, prefer_multi),
                    ),
            } by {
                if j < i {
                    assert(post[j] == pre[j]);
                    assert(m@[j] == before[j]);
                } else {
                    assert(post[j] == arr@[i as int]);
                }
            }
            assert forall|j: int| 0 <= j < post.len() implies (#[trigger] post[j] matches Some(e)
                ==> (wkb_of_ewkb(e, dim) matches Some(b) && decodes(b, dim))) by {
                if j < i {
                    assert(post[j] == pre[j]);
                } else {
                    assert(post[j] == arr@[i as int]);
                }
            }
        }
        i = i + 1;
    }
    assert(arr@.subrange(0, arr@.len() as int) =~= arr@);
    Ok(m)
}

} // verus!
