use vstd::prelude::*;

use crate::coord::CoordType;
use crate::metadata::ArrayMetadata;
use crate::error::GeoArrowError;
use crate::geometry::{Dimension, GeomModel};
use crate::mixed::MixedGeometryArray;
use crate::codec::stored;
use crate::wkb::{decodes, parse_wkb, wkb_of};

verus! {

/// geozero's error type, returned by the conversions relied on below and
/// mapped to `FormatError` by their callers.
#[verifier::external_type_specification]
#[verifier::external_body]
pub struct ExGeozeroError(geozero::error::GeozeroError);

/// The OGC WKB bytes that geozero writes for the geometry a WKT text
/// describes, with a `z` coordinate where `dim` is `XYZ`; `None` where
/// geozero cannot read the text.
pub uninterp spec fn wkb_of_wkt(text: Seq<char>, dim: Dimension) -> Option<Seq<u8>>;

/// Relies on geozero's `ToWkb::to_wkb` over `geozero::wkt::Wkt`: it parses
/// the text and writes the geometry as OGC WKB, the result depending on the
/// text and the dimensions alone.
#[verifier::external_body]
pub(crate) fn wkt_to_wkb(text: &str, dim: Dimension) -> (r: Result<Vec<u8>, geozero::error::GeozeroError>)
    ensures
        r is Ok <==> wkb_of_wkt(text@, dim) is Some,
        r matches Ok(b) ==> wkb_of_wkt(text@, dim) == Some(b@),
{
    let dims = match dim {
        Dimension::XY => geozero::CoordDimensions::xy(),
        Dimension::XYZ => geozero::CoordDimensions::xyz(),
    };
    geozero::ToWkb::to_wkb(&geozero::wkt::Wkt(text), dims)
}

/// The characters of each text, null where `None`.
pub open spec fn text_views(texts: Seq<Option<String>>) -> Seq<Option<Seq<char>>> {
    texts.map_values(
        |t: Option<String>|
            match t {
                Some(s) => Some(s@),
                None => None,
            },
    )
}

/// geozero reads `text`, and what it writes encodes a well-formed geometry
/// of dimension `dim`.
pub open spec fn wkt_readable(text: Seq<char>, dim: Dimension) -> bool {
    wkb_of_wkt(text, dim) matches Some(b) && decodes(b, dim)
}

/// Every text that is not null is readable.
pub open spec fn wkt_all_readable(texts: Seq<Option<Seq<char>>>, dim: Dimension) -> bool {
    forall|i: int| 0 <= i < texts.len() ==> (#[trigger] texts[i] matches Some(t) ==> wkt_readable(t, dim))
}

/// Text `i` is the first that is not readable, and geozero cannot read it.
pub open spec fn wkt_first_unread(texts: Seq<Option<Seq<char>>>, dim: Dimension, i: int) -> bool {
    &&& 0 <= i < texts.len()
    &&& texts[i] matches Some(t) && wkb_of_wkt(t, dim) is None
    &&& wkt_all_readable(texts.subrange(0, i), dim)
}

/// `slots` holds, for each text of `texts`, null where it is null and else
/// a well-formed geometry whose encoding is `wkb_of_wkt` of the text, stored
/// as `stored` says.
pub open spec fn wkt_decoded(
    texts: Seq<Option<Seq<char>>>,
    slots: Seq<Option<GeomModel>>,
    dim: Dimension,
    prefer_multi: bool,
) -> bool {
    &&& slots.len() == texts.len()
    &&& forall|i: int|
        0 <= i < texts.len() ==> match #[trigger] texts[i] {
            None => slots[i] is None,
            Some(t) => exists|g: GeomModel|
                g.wf() && g.dim == dim && wkb_of_wkt(t, dim) == Some(wkb_of(g)) && slots[i] == Some(
                    stored(g, prefer_multi),
                ),
        }
}

/// Appends the geometry that `wkb` encodes, or a null slot for `None`.
/// Fails with `FormatError` or `NotYetImplemented` where the bytes do not
/// parse, and with `IncorrectType` where their dimension is not the array's.
pub fn push_wkb(m: &mut MixedGeometryArray, wkb: Option<&[u8]>, prefer_multi: bool) -> (r: Result<
    (),
    GeoArrowError,
>)
    requires
        old(m).wf(),
    ensures
        final(m).wf(),
        final(m).dim() == old(m).dim(),
        final(m).coord_type() == old(m).coord_type(),
        final(m).crs() == old(m).crs(),
        r is Ok ==> final(m)@.len() == old(m)@.len() + 1 && final(m)@.subrange(0, old(m)@.len() as int)
            == old(m)@,
        r is Ok ==> match wkb {
            None => final(m)@.last() is None,
            Some(b) => exists|g: GeomModel|
                g.wf() && g.dim == old(m).dim() && wkb_of(g) == b@ && final(m)@.last() == Some(
                    stored(g, prefer_multi),
                ),
        },
        r is Err ==> *final(m) == *old(m),
        r is Err <==> (wkb matches Some(b) && !decodes(b@, old(m).dim())),
        r matches Err(e) ==> e is FormatError || e is NotYetImplemented || e is IncorrectType,
{
    match wkb {
        None => {
            m.push_null();
        },
        Some(b) => {
            let g = parse_wkb(b)?;
            if g.dim != m.dim_exec() {
                return Err(GeoArrowError::IncorrectType);
            }
            m.push_geometry(&g, prefer_multi);
            assert(stored(g@, prefer_multi) == if prefer_multi {
                crate::geometry::retag(g@, g.kind.multi())
            } else {
                g@
            });
        },
    }
    assert(m@.subrange(0, old(m)@.len() as int) =~= old(m)@);
    Ok(())
}

/// Parses WKT texts (null where `None`) into a mixed array of dimension
/// `dim` that carries `metadata`. It succeeds exactly when every text is
/// readable; a text that geozero cannot read fails the whole conversion with
/// `FormatError`.
pub fn from_wkt(
    texts: &Vec<Option<String>>,
    coord_type: CoordType,
    dim: Dimension,
    metadata: ArrayMetadata,
    prefer_multi: bool,
) -> (r: Result<MixedGeometryArray, GeoArrowError>)
    ensures
        r matches Ok(m) ==> m.wf() && m.dim() == dim && m.coord_type() == coord_type
            && m.crs() == metadata@
            && wkt_decoded(
            text_views(texts@),
            m@,
            dim,
            prefer_multi,
        ),
        r is Ok <==> wkt_all_readable(text_views(texts@), dim),
        (exists|i: int| wkt_first_unread(text_views(texts@), dim, i)) ==> r == Err::<
            MixedGeometryArray,
            GeoArrowError,
        >(GeoArrowError::FormatError),
        r matches Err(e) ==> e is FormatError || e is NotYetImplemented || e is IncorrectType,
{
    let ghost tv = text_views(texts@);
    let ghost crs = metadata@;
    let mut m = MixedGeometryArray::new(dim, coord_type).with_metadata(metadata);
    let mut i: usize = 0;
    while i < texts.len()
        invariant
            m.crs() == crs,
            tv == text_views(texts@),
            i <= texts@.len(),
            m.wf(),
            m.dim() == dim,
            m.coord_type() == coord_type,
            wkt_decoded(tv.subrange(0, i as int), m@, dim, prefer_multi),
            wkt_all_readable(tv.subrange(0, i as int), dim),
        decreases texts@.len() - i,
    {
        let ghost before = m@;
        match &texts[i] {
            None => {
                push_wkb(&mut m, None, prefer_multi)?;
            },
            Some(s) => {
                assert(tv[i as int] == Some(s@));
                let bytes = match wkt_to_wkb(s.as_str(), dim) {
                    Ok(b) => b,
                    Err(_) => {
                        assert(!wkt_all_readable(tv, dim));
                        return Err(GeoArrowError::FormatError);
                    },
                };
                match push_wkb(&mut m, Some(bytes.as_slice()), prefer_multi) {
                    Ok(()) => {},
                    Err(e) => {
                        assert(!wkt_all_readable(tv, dim));
                        assert forall|k: int| !wkt_first_unread(tv, dim, k) by {
                            if wkt_first_unread(tv, dim, k) {
                                if k < i {
                                    assert(tv.subrange(0, i as int)[k] == tv[k]);
                                } else if k > i {
                                    assert(tv.subrange(0, k)[i as int] == tv[i as int]);
                                }
                            }
                        }
                        return Err(e);
                    },
                }
            },
        }
        proof {
            let pre = tv.subrange(0, i as int);
            let post = tv.subrange(0, i + 1);
            assert forall|j: int| 0 <= j < post.len() implies match #[trigger] post[j] {
                None => m@[j] is None,
                Some(t) => exists|g: GeomModel|
                    g.wf() && g.dim == dim && wkb_of_wkt(t, dim) == Some(wkb_of(g)) && m@[j] == Some(
                        stored(g, prefer_multi),
                    ),
            } by {
                if j < i {
                    assert(post[j] == pre[j]);
                    assert(m@[j] == before[j]);
                } else {
                    assert(post[j] == tv[i as int]);
                }
            }
            assert forall|j: int| 0 <= j < post.len() implies (#[trigger] post[j] matches Some(t)
                ==> wkt_readable(t, dim)) by {
                if j < i {
                    assert(post[j] == pre[j]);
                } else {
                    assert(post[j] == tv[i as int]);
                }
            }
        }
        i = i + 1;
    }
    assert(tv.subrange(0, texts@.len() as int) =~= tv);
    Ok(m)
}

} // verus!
