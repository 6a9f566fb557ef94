use vstd::bytes::*;
use vstd::prelude::*;
use vstd::slice::slice_subrange;

use crate::error::GeoArrowError;
use crate::levels::{flat, lemma_flat_concat, lemma_flat_push};
use crate::geometry::{
    part_fits, part_view, parts_view, Coord, Dimension, GeomModel, Geometry, GeometryKind, Parts,
};

verus! {

/// The ISO WKB type code of a kind in a dimension.
pub open spec fn type_code(kind: GeometryKind, dim: Dimension) -> u32 {
    if dim == Dimension::XYZ {
        (kind.code() + 1000) as u32
    } else {
        kind.code()
    }
}

/// Byte-order mark (little endian) followed by the type code.
pub open spec fn header_bytes(kind: GeometryKind, dim: Dimension) -> Seq<u8> {
    seq![1u8] + spec_u32_to_le_bytes(type_code(kind, dim))
}

pub open spec fn count_bytes(n: nat) -> Seq<u8> {
    spec_u32_to_le_bytes(n as u32)
}

pub open spec fn coord_bytes(c: Coord, dim: Dimension) -> Seq<u8> {
    spec_u64_to_le_bytes(c.x) + spec_u64_to_le_bytes(c.y) + if dim == Dimension::XYZ {
        spec_u64_to_le_bytes(c.z)
    } else {
        Seq::empty()
    }
}

pub open spec fn coords_bytes(cs: Seq<Coord>, dim: Dimension) -> Seq<u8> {
    flat(cs.map_values(|c: Coord| coord_bytes(c, dim)))
}

/// A coordinate count followed by the coordinates.
pub open spec fn ring_bytes(ring: Seq<Coord>, dim: Dimension) -> Seq<u8> {
    count_bytes(ring.len()) + coords_bytes(ring, dim)
}

/// A ring count followed by the rings.
pub open spec fn rings_bytes(rings: Seq<Seq<Coord>>, dim: Dimension) -> Seq<u8> {
    count_bytes(rings.len()) + flat(rings.map_values(|r: Seq<Coord>| ring_bytes(r, dim)))
}

/// The body of a single-part geometry of the base of `kind`, after its header.
pub open spec fn body_bytes(kind: GeometryKind, dim: Dimension, part: Seq<Seq<Coord>>) -> Seq<
    u8,
> {
    match kind.single() {
        GeometryKind::Point => coord_bytes(part[0][0], dim),
        GeometryKind::LineString => ring_bytes(part[0], dim),
        _ => rings_bytes(part, dim),
    }
}

/// One part of a multi-part geometry: a whole single-part geometry.
pub open spec fn part_bytes(kind: GeometryKind, dim: Dimension, part: Seq<Seq<Coord>>) -> Seq<
    u8,
> {
    header_bytes(kind.single(), dim) + body_bytes(kind, dim, part)
}

/// The little-endian ISO WKB encoding of a geometry.
pub open spec fn wkb_of(g: GeomModel) -> Seq<u8> {
    if g.kind.is_multi() {
        header_bytes(g.kind, g.dim) + count_bytes(g.parts.len()) + flat(
            g.parts.map_values(|p: Seq<Seq<Coord>>| part_bytes(g.kind, g.dim, p)),
        )
    } else {
        header_bytes(g.kind, g.dim) + body_bytes(g.kind, g.dim, g.parts[0])
    }
}

fn write_u32(out: &mut Vec<u8>, v: u32)
    ensures
        final(out)@ == old(out)@ + spec_u32_to_le_bytes(v),
{
    let mut b = u32_to_le_bytes(v);
    out.append(&mut b);
}

fn write_u64(out: &mut Vec<u8>, v: u64)
    ensures
        final(out)@ == old(out)@ + spec_u64_to_le_bytes(v),
{
    let mut b = u64_to_le_bytes(v);
    out.append(&mut b);
}

fn write_header(out: &mut Vec<u8>, kind: GeometryKind, dim: Dimension)
    ensures
        final(out)@ == old(out)@ + header_bytes(kind, dim),
{
    out.push(1u8);
    let code = kind.code_exec();
    let t = match dim {
        Dimension::XY => code,
        Dimension::XYZ => code + 1000,
    };
    write_u32(out, t);
    assert(final(out)@ =~= old(out)@ + header_bytes(kind, dim));
}

fn write_coord(out: &mut Vec<u8>, c: Coord, dim: Dimension)
    ensures
        final(out)@ == old(out)@ + coord_bytes(c, dim),
{
    write_u64(out, c.x);
    write_u64(out, c.y);
    match dim {
        Dimension::XY => {},
        Dimension::XYZ => write_u64(out, c.z),
    }
    assert(final(out)@ =~= old(out)@ + coord_bytes(c, dim));
}

fn write_ring(out: &mut Vec<u8>, ring: &Vec<Coord>, dim: Dimension)
    requires
        ring@.len() <= u32::MAX,
    ensures
        final(out)@ == old(out)@ + ring_bytes(ring@, dim),
{
    write_u32(out, ring.len() as u32);
    let ghost start = out@;
    let mut i: usize = 0;
    while i < ring.len()
        invariant
            i <= ring@.len(),
            out@ == start + coords_bytes(ring@.subrange(0, i as int), dim),
        decreases ring@.len() - i,
    {
        let ghost before = ring@.subrange(0, i as int);
        write_coord(out, ring[i], dim);
        proof {
            let f = |c: Coord| coord_bytes(c, dim);
            assert(ring@.subrange(0, i + 1) =~= before.push(ring@[i as int]));
            assert(before.push(ring@[i as int]).map_values(f) =~= before.map_values(f).push(
                f(ring@[i as int]),
            ));
            lemma_flat_push(before.map_values(f), f(ring@[i as int]));
        }
        i = i + 1;
    }
    assert(ring@.subrange(0, ring@.len() as int) =~= ring@);
    assert(final(out)@ =~= old(out)@ + ring_bytes(ring@, dim));
}

fn write_rings(out: &mut Vec<u8>, rings: &Vec<Vec<Coord>>, dim: Dimension)
    requires
        rings@.len() <= u32::MAX,
        forall|r: int| 0 <= r < rings@.len() ==> (#[trigger] rings@[r])@.len() <= u32::MAX,
    ensures
        final(out)@ == old(out)@ + rings_bytes(part_view(*rings), dim),
{
    let ghost pv = part_view(*rings);
    write_u32(out, rings.len() as u32);
    let ghost start = out@;
    let mut i: usize = 0;
    while i < rings.len()
        invariant
            i <= rings@.len(),
            pv == part_view(*rings),
            forall|r: int| 0 <= r < rings@.len() ==> (#[trigger] rings@[r])@.len() <= u32::MAX,
            out@ == start + flat(
                pv.subrange(0, i as int).map_values(|r: Seq<Coord>| ring_bytes(r, dim)),
            ),
        decreases rings@.len() - i,
    {
        let ghost before = pv.subrange(0, i as int);
        write_ring(out, &rings[i], dim);
        proof {
            let f = |r: Seq<Coord>| ring_bytes(r, dim);
            assert(pv[i as int] == rings@[i as int]@);
            assert(pv.subrange(0, i + 1) =~= before.push(pv[i as int]));
            assert(before.push(pv[i as int]).map_values(f) =~= before.map_values(f).push(
                f(pv[i as int]),
            ));
            lemma_flat_push(before.map_values(f), f(pv[i as int]));
        }
        i = i + 1;
    }
    assert(pv.subrange(0, pv.len() as int) =~= pv);
    assert(final(out)@ =~= old(out)@ + rings_bytes(pv, dim));
}

fn write_body(out: &mut Vec<u8>, kind: GeometryKind, dim: Dimension, part: &Vec<Vec<Coord>>)
    requires
        part_fits(kind, dim, part_view(*part)),
    ensures
        final(out)@ == old(out)@ + body_bytes(kind, dim, part_view(*part)),
{
    let ghost pv = part_view(*part);
    assert forall|r: int| 0 <= r < part@.len() implies (#[trigger] part@[r])@.len()
        <= u32::MAX by {
        assert(pv[r] == part@[r]@);
    }
    match kind.single_exec() {
        GeometryKind::Point => {
            assert(pv[0] == part@[0]@);
            write_coord(out, part[0][0], dim)
        },
        GeometryKind::LineString => write_ring(out, &part[0], dim),
        _ => write_rings(out, part, dim),
    }
}

/// Appends the WKB encoding of `g` to `out`.
pub fn write_geometry(out: &mut Vec<u8>, g: &Geometry)
    requires
        g@.wf(),
    ensures
        final(out)@ == old(out)@ + wkb_of(g@),
{
    let ghost pv = g@.parts;
    write_header(out, g.kind, g.dim);
    if g.kind.is_multi_exec() {
        write_u32(out, g.parts.len() as u32);
        let ghost start = out@;
        let single = g.kind.single_exec();
        let mut i: usize = 0;
        while i < g.parts.len()
            invariant
                i <= g.parts@.len(),
                g@.wf(),
                pv == g@.parts,
                g.kind.is_multi(),
                single == g.kind.single(),
                out@ == start + flat(
                    pv.subrange(0, i as int).map_values(
                        |p: Seq<Seq<Coord>>| part_bytes(g.kind, g.dim, p),
                    ),
                ),
            decreases g.parts@.len() - i,
        {
            let ghost before = pv.subrange(0, i as int);
            let ghost mid = out@;
            assert(pv[i as int] == part_view(g.parts@[i as int]));
            assert(part_fits(g.kind, g.dim, pv[i as int]));
            write_header(out, single, g.dim);
            write_body(out, g.kind, g.dim, &g.parts[i]);
            proof {
                let f = |p: Seq<Seq<Coord>>| part_bytes(g.kind, g.dim, p);
                assert(out@ =~= mid + f(pv[i as int]));
                assert(pv.subrange(0, i + 1) =~= before.push(pv[i as int]));
                assert(before.push(pv[i as int]).map_values(f) =~= before.map_values(f).push(
                    f(pv[i as int]),
                ));
                lemma_flat_push(before.map_values(f), f(pv[i as int]));
            }
            i = i + 1;
        }
        assert(pv.subrange(0, pv.len() as int) =~= pv);
        assert(final(out)@ =~= old(out)@ + wkb_of(g@));
    } else {
        let ghost mid = out@;
        assert(pv[0] == part_view(g.parts@[0]));
        assert(part_fits(g.kind, g.dim, pv[0]));
        write_body(out, g.kind, g.dim, &g.parts[0]);
        assert(final(out)@ =~= old(out)@ + wkb_of(g@));
    }
}

/// `b` is the encoding of a well-formed geometry of dimension `dim`.
pub open spec fn decodes(b: Seq<u8>, dim: Dimension) -> bool {
    exists|g: GeomModel| g.wf() && g.dim == dim && #[trigger] wkb_of(g) == b
}

/// `x` stands in `b` at `pos`.
pub open spec fn at(b: Seq<u8>, pos: int, x: Seq<u8>) -> bool {
    &&& 0 <= pos
    &&& pos + x.len() <= b.len()
    &&& b.subrange(pos, pos + x.len()) == x
}

pub proof fn lemma_at_split(b: Seq<u8>, pos: int, x: Seq<u8>, y: Seq<u8>)
    requires
        at(b, pos, x + y),
    ensures
        at(b, pos, x),
        at(b, pos + x.len(), y),
{
    assert(b.subrange(pos, pos + x.len()) =~= (x + y).subrange(0, x.len() as int));
    assert(b.subrange(pos + x.len(), pos + x.len() + y.len()) =~= (x + y).subrange(
        x.len() as int,
        (x.len() + y.len()) as int,
    ));
    assert((x + y).subrange(0, x.len() as int) =~= x);
    assert((x + y).subrange(x.len() as int, (x.len() + y.len()) as int) =~= y);
}

/// Bytes `[pos, np)` of `b`.
pub open spec fn span(b: Seq<u8>, pos: int, np: int) -> Seq<u8> {
    b.subrange(pos, np)
}

proof fn lemma_span_join(b: Seq<u8>, a: int, m: int, e: int)
    requires
        0 <= a <= m <= e <= b.len(),
    ensures
        span(b, a, e) == span(b, a, m) + span(b, m, e),
{
    assert(span(b, a, e) =~= span(b, a, m) + span(b, m, e));
}

fn read_u32(b: &[u8], pos: usize) -> (r: Result<(u32, usize), GeoArrowError>)
    requires
        pos <= b@.len(),
    ensures
        r matches Ok((v, np)) ==> np == pos + 4 && np <= b@.len() && span(b@, pos as int, np as int)
            == spec_u32_to_le_bytes(v) && v == spec_u32_from_le_bytes(span(b@, pos as int, np as int)),
        r is Err <==> pos + 4 > b@.len(),
        r matches Err(e) ==> e == GeoArrowError::FormatError,
{
    if b.len() - pos < 4 {
        return Err(GeoArrowError::FormatError);
    }
    let s = slice_subrange(b, pos, pos + 4);
    let v = u32_from_le_bytes(s);
    proof {
        lemma_auto_spec_u32_to_from_le_bytes();
    }
    Ok((v, pos + 4))
}

fn read_u64(b: &[u8], pos: usize) -> (r: Result<(u64, usize), GeoArrowError>)
    requires
        pos <= b@.len(),
    ensures
        r matches Ok((v, np)) ==> np == pos + 8 && np <= b@.len() && span(b@, pos as int, np as int)
            == spec_u64_to_le_bytes(v) && v == spec_u64_from_le_bytes(span(b@, pos as int, np as int)),
        r is Err <==> pos + 8 > b@.len(),
        r matches Err(e) ==> e == GeoArrowError::FormatError,
{
    if b.len() - pos < 8 {
        return Err(GeoArrowError::FormatError);
    }
    let s = slice_subrange(b, pos, pos + 8);
    let v = u64_from_le_bytes(s);
    proof {
        lemma_auto_spec_u64_to_from_le_bytes();
    }
    Ok((v, pos + 8))
}

/// Reads a header: byte order, then the type code of a supported kind.
fn parse_header(b: &[u8], pos: usize) -> (r: Result<(GeometryKind, Dimension, usize), GeoArrowError>)
    requires
        pos <= b@.len(),
    ensures
        r matches Err(e) ==> e is FormatError || e is NotYetImplemented,
        r matches Ok((k, d, np)) ==> np == pos + 5 && np <= b@.len() && span(
            b@,
            pos as int,
            np as int,
        ) == header_bytes(k, d),
        forall|k: GeometryKind, d: Dimension|
            #[trigger] at(b@, pos as int, header_bytes(k, d)) ==> r == Ok::<
                (GeometryKind, Dimension, usize),
                GeoArrowError,
            >((k, d, (pos + 5) as usize)),
{
    proof {
        lemma_auto_spec_u32_to_from_le_bytes();
        assert forall|k: GeometryKind, d: Dimension| #[trigger] at(b@, pos as int, header_bytes(k, d)) implies {
            &&& b@[pos as int] == 1
            &&& at(b@, pos + 1, spec_u32_to_le_bytes(type_code(k, d)))
        } by {
            lemma_at_split(b@, pos as int, seq![1u8], spec_u32_to_le_bytes(type_code(k, d)));
            assert(b@.subrange(pos as int, pos + 1)[0] == b@[pos as int]);
        }
    }
    if pos >= b.len() {
        return Err(GeoArrowError::FormatError);
    }
    let order = b[pos];
    if order == 0 {
        return Err(GeoArrowError::NotYetImplemented);
    }
    if order != 1 {
        return Err(GeoArrowError::FormatError);
    }
    let (code, np) = read_u32(b, pos + 1)?;
    let (base, dim) = if code >= 1000 && code < 2000 {
        (code - 1000, Dimension::XYZ)
    } else {
        (code, Dimension::XY)
    };
    let kind = match base {
        1 => GeometryKind::Point,
        2 => GeometryKind::LineString,
        3 => GeometryKind::Polygon,
        4 => GeometryKind::MultiPoint,
        5 => GeometryKind::MultiLineString,
        6 => GeometryKind::MultiPolygon,
        7 => {
            return Err(GeoArrowError::NotYetImplemented);
        },
        _ => {
            return Err(GeoArrowError::FormatError);
        },
    };
    assert(type_code(kind, dim) == code);
    assert(span(b@, pos as int, np as int) =~= seq![1u8] + span(b@, pos + 1, np as int));
    Ok((kind, dim, np))
}

fn parse_coord(b: &[u8], pos: usize, dim: Dimension) -> (r: Result<(Coord, usize), GeoArrowError>)
    requires
        pos <= b@.len(),
    ensures
        r matches Err(e) ==> e is FormatError || e is NotYetImplemented,
        r matches Ok((c, np)) ==> pos <= np <= b@.len() && span(b@, pos as int, np as int)
            == coord_bytes(c, dim) && dim.holds(c),
        forall|c: Coord|
            dim.holds(c) && #[trigger] at(b@, pos as int, coord_bytes(c, dim)) ==> r == Ok::<
                (Coord, usize),
                GeoArrowError,
            >((c, (pos + coord_bytes(c, dim).len()) as usize)),
{
    proof {
        lemma_auto_spec_u64_to_from_le_bytes();
        assert forall|c: Coord| #[trigger] at(b@, pos as int, coord_bytes(c, dim)) implies {
            &&& at(b@, pos as int, spec_u64_to_le_bytes(c.x))
            &&& at(b@, pos + 8, spec_u64_to_le_bytes(c.y))
            &&& dim == Dimension::XYZ ==> at(b@, pos + 16, spec_u64_to_le_bytes(c.z))
            &&& coord_bytes(c, dim).len() == if dim == Dimension::XYZ { 24int } else { 16int }
        } by {
            let bx = spec_u64_to_le_bytes(c.x);
            let by = spec_u64_to_le_bytes(c.y);
            let bz: Seq<u8> = if dim == Dimension::XYZ { spec_u64_to_le_bytes(c.z) } else { Seq::empty() };
            lemma_at_split(b@, pos as int, bx + by, bz);
            lemma_at_split(b@, pos as int, bx, by);
        }
    }
    let (x, pos1) = read_u64(b, pos)?;
    let (y, pos2) = read_u64(b, pos1)?;
    proof {
        lemma_span_join(b@, pos as int, pos1 as int, pos2 as int);
    }
    match dim {
        Dimension::XY => {
            let c = Coord { x, y, z: 0 };
            assert(span(b@, pos as int, pos2 as int) =~= coord_bytes(c, dim));
            Ok((c, pos2))
        },
        Dimension::XYZ => {
            let (z, pos3) = read_u64(b, pos2)?;
            proof {
                lemma_span_join(b@, pos as int, pos2 as int, pos3 as int);
            }
            let c = Coord { x, y, z };
            assert(span(b@, pos as int, pos3 as int) =~= coord_bytes(c, dim));
            Ok((c, pos3))
        },
    }
}

/// A ring that the binary encoding can hold in `dim`.
pub open spec fn ring_fits(ring: Seq<Coord>, dim: Dimension) -> bool {
    &&& ring.len() <= u32::MAX
    &&& forall|c: int| 0 <= c < ring.len() ==> dim.holds(#[trigger] ring[c])
}

/// The runs of `s`: its first one, then the rest.
pub proof fn lemma_flat_cons<T>(s: Seq<Seq<T>>)
    requires
        s.len() > 0,
    ensures
        flat(s) == s[0] + flat(s.subrange(1, s.len() as int)),
{
    let first = seq![s[0]];
    let rest = s.subrange(1, s.len() as int);
    assert(s =~= first + rest);
    lemma_flat_concat(first, rest);
    lemma_flat_push(Seq::<Seq<T>>::empty(), s[0]);
    assert(Seq::<Seq<T>>::empty().push(s[0]) =~= first);
    assert(flat(Seq::<Seq<T>>::empty()) =~= Seq::<T>::empty());
    assert(Seq::<T>::empty() + s[0] =~= s[0]);
}

/// The coordinates from `i` on: coordinate `i`, then the rest.
proof fn lemma_coords_step(rt: Seq<Coord>, i: int, dim: Dimension)
    requires
        0 <= i < rt.len(),
    ensures
        coords_bytes(rt.subrange(i, rt.len() as int), dim) == coord_bytes(rt[i], dim) + coords_bytes(
            rt.subrange(i + 1, rt.len() as int),
            dim,
        ),
{
    let f = |c: Coord| coord_bytes(c, dim);
    let m = rt.subrange(i, rt.len() as int).map_values(f);
    lemma_flat_cons(m);
    assert(m.subrange(1, m.len() as int) =~= rt.subrange(i + 1, rt.len() as int).map_values(f));
}

/// Reads a coordinate count and that many coordinates.
fn parse_ring(b: &[u8], pos: usize, dim: Dimension) -> (r: Result<(Vec<Coord>, usize), GeoArrowError>)
    requires
        pos <= b@.len(),
    ensures
        r matches Err(e) ==> e is FormatError || e is NotYetImplemented,
        r matches Ok((ring, np)) ==> {
            &&& pos <= np <= b@.len()
            &&& span(b@, pos as int, np as int) == ring_bytes(ring@, dim)
            &&& ring_fits(ring@, dim)
        },
        forall|rt: Seq<Coord>|
            ring_fits(rt, dim) && #[trigger] at(b@, pos as int, ring_bytes(rt, dim)) ==> (r matches Ok(
                (ring, np),
            ) && ring@ == rt && np == pos + ring_bytes(rt, dim).len()),
{
    proof {
        lemma_auto_spec_u32_to_from_le_bytes();
        assert forall|rt: Seq<Coord>| #[trigger] at(b@, pos as int, ring_bytes(rt, dim)) implies {
            &&& at(b@, pos as int, count_bytes(rt.len()))
            &&& at(b@, pos + 4, coords_bytes(rt, dim))
        } by {
            lemma_at_split(b@, pos as int, count_bytes(rt.len()), coords_bytes(rt, dim));
        }
    }
    let (n, pos1) = read_u32(b, pos)?;
    let mut ring: Vec<Coord> = Vec::new();
    proof {
        assert forall|rt: Seq<Coord>|
            ring_fits(rt, dim) && #[trigger] at(b@, pos as int, ring_bytes(rt, dim)) implies {
            &&& rt.len() == n
            &&& ring@ == rt.subrange(0, 0)
            &&& at(b@, pos1 as int, coords_bytes(rt.subrange(0, rt.len() as int), dim))
        } by {
            assert(span(b@, pos as int, pos1 as int) == count_bytes(rt.len()));
            assert(rt.subrange(0, rt.len() as int) =~= rt);
            assert(ring@ =~= rt.subrange(0, 0));
        }
    }
    let mut cur = pos1;
    let mut i: u32 = 0;
    while i < n
        invariant
            pos + 4 == pos1 <= cur <= b@.len(),
            ring@.len() == i <= n,
            span(b@, pos as int, pos1 as int) == spec_u32_to_le_bytes(n),
            n == spec_u32_from_le_bytes(span(b@, pos as int, pos1 as int)),
            span(b@, pos1 as int, cur as int) == coords_bytes(ring@, dim),
            forall|c: int| 0 <= c < ring@.len() ==> dim.holds(#[trigger] ring@[c]),
            forall|rt: Seq<Coord>|
                ring_fits(rt, dim) && #[trigger] at(b@, pos as int, ring_bytes(rt, dim)) ==> {
                    &&& rt.len() == n
                    &&& ring@ == rt.subrange(0, i as int)
                    &&& at(b@, cur as int, coords_bytes(rt.subrange(i as int, rt.len() as int), dim))
                },
        decreases n - i,
    {
        proof {
            assert forall|rt: Seq<Coord>|
                ring_fits(rt, dim) && #[trigger] at(b@, pos as int, ring_bytes(rt, dim)) implies at(
                b@,
                cur as int,
                coord_bytes(rt[i as int], dim),
            ) by {
                lemma_coords_step(rt, i as int, dim);
                lemma_at_split(
                    b@,
                    cur as int,
                    coord_bytes(rt[i as int], dim),
                    coords_bytes(rt.subrange(i + 1, rt.len() as int), dim),
                );
            }
        }
        let (c, np) = match parse_coord(b, cur, dim) {
            Ok(x) => x,
            Err(e) => {
                proof {
                    assert forall|rt: Seq<Coord>|
                        ring_fits(rt, dim) && #[trigger] at(b@, pos as int, ring_bytes(rt, dim)) implies false by {
                        assert(dim.holds(rt[i as int]));
                        assert(at(b@, cur as int, coord_bytes(rt[i as int], dim)));
                    }
                }
                return Err(e);
            },
        };
        proof {
            let f = |c: Coord| coord_bytes(c, dim);
            lemma_span_join(b@, pos1 as int, cur as int, np as int);
            assert(ring@.push(c).map_values(f) =~= ring@.map_values(f).push(f(c)));
            lemma_flat_push(ring@.map_values(f), f(c));
            assert forall|rt: Seq<Coord>|
                ring_fits(rt, dim) && #[trigger] at(b@, pos as int, ring_bytes(rt, dim)) implies {
                &&& ring@.push(c) == rt.subrange(0, i + 1)
                &&& at(b@, np as int, coords_bytes(rt.subrange(i + 1, rt.len() as int), dim))
            } by {
                assert(dim.holds(rt[i as int]));
                assert(at(b@, cur as int, coord_bytes(rt[i as int], dim)));
                assert(c == rt[i as int]);
                assert(rt.subrange(0, i + 1) =~= rt.subrange(0, i as int).push(rt[i as int]));
                lemma_coords_step(rt, i as int, dim);
                lemma_at_split(
                    b@,
                    cur as int,
                    coord_bytes(rt[i as int], dim),
                    coords_bytes(rt.subrange(i + 1, rt.len() as int), dim),
                );
            }
        }
        ring.push(c);
        cur = np;
        i = i + 1;
    }
    proof {
        lemma_span_join(b@, pos as int, pos1 as int, cur as int);
        assert forall|rt: Seq<Coord>|
            ring_fits(rt, dim) && #[trigger] at(b@, pos as int, ring_bytes(rt, dim)) implies (ring@
            == rt && cur == pos + ring_bytes(rt, dim).len()) by {
            assert(rt.subrange(0, n as int) =~= rt);
            assert(rt.subrange(n as int, rt.len() as int) =~= Seq::<Coord>::empty());
            assert(ring@.map_values(|c: Coord| coord_bytes(c, dim)) =~= rt.map_values(
                |c: Coord| coord_bytes(c, dim),
            ));
        }
    }
    Ok((ring, cur))
}

/// The rings from `i` on: ring `i`, then the rest.
proof fn lemma_rings_step(pt: Seq<Seq<Coord>>, i: int, dim: Dimension)
    requires
        0 <= i < pt.len(),
    ensures
        flat(pt.subrange(i, pt.len() as int).map_values(|r: Seq<Coord>| ring_bytes(r, dim)))
            == ring_bytes(pt[i], dim) + flat(
            pt.subrange(i + 1, pt.len() as int).map_values(|r: Seq<Coord>| ring_bytes(r, dim)),
        ),
{
    let f = |r: Seq<Coord>| ring_bytes(r, dim);
    let m = pt.subrange(i, pt.len() as int).map_values(f);
    lemma_flat_cons(m);
    assert(m.subrange(1, m.len() as int) =~= pt.subrange(i + 1, pt.len() as int).map_values(f));
}

/// Reads a ring count and that many rings.
fn parse_rings(b: &[u8], pos: usize, dim: Dimension) -> (r: Result<
    (Vec<Vec<Coord>>, usize),
    GeoArrowError,
>)
    requires
        pos <= b@.len(),
    ensures
        r matches Err(e) ==> e is FormatError || e is NotYetImplemented,
        r matches Ok((rings, np)) ==> {
            &&& pos <= np <= b@.len()
            &&& span(b@, pos as int, np as int) == rings_bytes(part_view(rings), dim)
            &&& part_fits(GeometryKind::Polygon, dim, part_view(rings))
        },
        forall|pt: Seq<Seq<Coord>>|
            part_fits(GeometryKind::Polygon, dim, pt) && #[trigger] at(
                b@,
                pos as int,
                rings_bytes(pt, dim),
            ) ==> (r matches Ok((rings, np)) && part_view(rings) == pt && np == pos + rings_bytes(
                pt,
                dim,
            ).len()),
{
    let ghost f = |r: Seq<Coord>| ring_bytes(r, dim);
    proof {
        lemma_auto_spec_u32_to_from_le_bytes();
        assert forall|pt: Seq<Seq<Coord>>| #[trigger] at(b@, pos as int, rings_bytes(pt, dim)) implies {
            &&& at(b@, pos as int, count_bytes(pt.len()))
            &&& at(b@, pos + 4, flat(pt.map_values(f)))
        } by {
            lemma_at_split(b@, pos as int, count_bytes(pt.len()), flat(pt.map_values(f)));
        }
    }
    let (n, pos1) = read_u32(b, pos)?;
    let mut rings: Vec<Vec<Coord>> = Vec::new();
    proof {
        assert forall|pt: Seq<Seq<Coord>>|
            part_fits(GeometryKind::Polygon, dim, pt) && #[trigger] at(
                b@,
                pos as int,
                rings_bytes(pt, dim),
            ) implies {
            &&& pt.len() == n
            &&& part_view(rings) == pt.subrange(0, 0)
            &&& at(b@, pos1 as int, flat(pt.subrange(0, pt.len() as int).map_values(f)))
        } by {
            assert(span(b@, pos as int, pos1 as int) == count_bytes(pt.len()));
            assert(pt.subrange(0, pt.len() as int) =~= pt);
            assert(part_view(rings) =~= pt.subrange(0, 0));
        }
    }
    let mut cur = pos1;
    let mut i: u32 = 0;
    while i < n
        invariant
            f == (|r: Seq<Coord>| ring_bytes(r, dim)),
            pos + 4 == pos1 <= cur <= b@.len(),
            rings@.len() == i <= n,
            span(b@, pos as int, pos1 as int) == spec_u32_to_le_bytes(n),
            span(b@, pos1 as int, cur as int) == flat(part_view(rings).map_values(f)),
            part_fits(GeometryKind::Polygon, dim, part_view(rings)),
            forall|pt: Seq<Seq<Coord>>|
                part_fits(GeometryKind::Polygon, dim, pt) && #[trigger] at(
                    b@,
                    pos as int,
                    rings_bytes(pt, dim),
                ) ==> {
                    &&& pt.len() == n
                    &&& part_view(rings) == pt.subrange(0, i as int)
                    &&& at(b@, cur as int, flat(pt.subrange(i as int, pt.len() as int).map_values(f)))
                },
        decreases n - i,
    {
        proof {
            assert forall|pt: Seq<Seq<Coord>>|
                part_fits(GeometryKind::Polygon, dim, pt) && #[trigger] at(
                    b@,
                    pos as int,
                    rings_bytes(pt, dim),
                ) implies at(b@, cur as int, ring_bytes(pt[i as int], dim)) by {
                lemma_rings_step(pt, i as int, dim);
                lemma_at_split(
                    b@,
                    cur as int,
                    ring_bytes(pt[i as int], dim),
                    flat(pt.subrange(i + 1, pt.len() as int).map_values(f)),
                );
            }
        }
        let (ring, np) = match parse_ring(b, cur, dim) {
            Ok(x) => x,
            Err(e) => {
                proof {
                    assert forall|pt: Seq<Seq<Coord>>|
                        part_fits(GeometryKind::Polygon, dim, pt) && #[trigger] at(
                            b@,
                            pos as int,
                            rings_bytes(pt, dim),
                        ) implies false by {
                        assert(ring_fits(pt[i as int], dim));
                        assert(at(b@, cur as int, ring_bytes(pt[i as int], dim)));
                    }
                }
                return Err(e);
            },
        };
        let ghost pv = part_view(rings);
        let ghost rv = ring@;
        rings.push(ring);
        proof {
            lemma_span_join(b@, pos1 as int, cur as int, np as int);
            assert(part_view(rings) =~= pv.push(rv));
            assert(pv.push(rv).map_values(f) =~= pv.map_values(f).push(f(rv)));
            lemma_flat_push(pv.map_values(f), f(rv));
            let npv = pv.push(rv);
            assert forall|r: int| 0 <= r < npv.len() implies {
                &&& (#[trigger] npv[r]).len() <= u32::MAX
                &&& forall|c: int| 0 <= c < npv[r].len() ==> dim.holds(#[trigger] npv[r][c])
            } by {
                if r < pv.len() {
                    assert(npv[r] == pv[r]);
                }
            }
            assert forall|pt: Seq<Seq<Coord>>|
                part_fits(GeometryKind::Polygon, dim, pt) && #[trigger] at(
                    b@,
                    pos as int,
                    rings_bytes(pt, dim),
                ) implies {
                &&& part_view(rings) == pt.subrange(0, i + 1)
                &&& at(b@, np as int, flat(pt.subrange(i + 1, pt.len() as int).map_values(f)))
            } by {
                assert(ring_fits(pt[i as int], dim));
                assert(at(b@, cur as int, ring_bytes(pt[i as int], dim)));
                assert(rv == pt[i as int]);
                assert(pt.subrange(0, i + 1) =~= pt.subrange(0, i as int).push(pt[i as int]));
                lemma_rings_step(pt, i as int, dim);
                lemma_at_split(
                    b@,
                    cur as int,
                    ring_bytes(pt[i as int], dim),
                    flat(pt.subrange(i + 1, pt.len() as int).map_values(f)),
                );
            }
        }
        cur = np;
        i = i + 1;
    }
    proof {
        lemma_span_join(b@, pos as int, pos1 as int, cur as int);
        assert forall|pt: Seq<Seq<Coord>>|
            part_fits(GeometryKind::Polygon, dim, pt) && #[trigger] at(
                b@,
                pos as int,
                rings_bytes(pt, dim),
            ) implies (part_view(rings) == pt && cur == pos + rings_bytes(pt, dim).len()) by {
            assert(pt.subrange(0, n as int) =~= pt);
            assert(pt.subrange(n as int, pt.len() as int) =~= Seq::<Seq<Coord>>::empty());
            assert(part_view(rings).map_values(f) =~= pt.map_values(f));
        }
    }
    Ok((rings, cur))
}

/// Reads the body of a single-part geometry of the base of `kind`.
fn parse_body(b: &[u8], pos: usize, kind: GeometryKind, dim: Dimension) -> (r: Result<
    (Vec<Vec<Coord>>, usize),
    GeoArrowError,
>)
    requires
        pos <= b@.len(),
    ensures
        r matches Err(e) ==> e is FormatError || e is NotYetImplemented,
        r matches Ok((part, np)) ==> {
            &&& pos <= np <= b@.len()
            &&& span(b@, pos as int, np as int) == body_bytes(kind, dim, part_view(part))
            &&& part_fits(kind, dim, part_view(part))
        },
        forall|pt: Seq<Seq<Coord>>|
            part_fits(kind, dim, pt) && #[trigger] at(b@, pos as int, body_bytes(kind, dim, pt)) ==> (
            r matches Ok((part, np)) && part_view(part) == pt && np == pos + body_bytes(
                kind,
                dim,
                pt,
            ).len()),
{
    match kind.single_exec() {
        GeometryKind::Point => {
            let r = parse_coord(b, pos, dim);
            proof {
                assert forall|pt: Seq<Seq<Coord>>|
                    part_fits(kind, dim, pt) && #[trigger] at(b@, pos as int, body_bytes(kind, dim, pt))
                    implies r == Ok::<(Coord, usize), GeoArrowError>(
                    (pt[0][0], (pos + coord_bytes(pt[0][0], dim).len()) as usize),
                ) by {
                    assert(dim.holds(pt[0][0]));
                    assert(at(b@, pos as int, coord_bytes(pt[0][0], dim)));
                }
            }
            let (c, np) = r?;
            let part = vec![vec![c]];
            assert(part_view(part)[0] == part@[0]@);
            assert(part_view(part)[0][0] == c);
            assert forall|pt: Seq<Seq<Coord>>|
                part_fits(kind, dim, pt) && #[trigger] at(b@, pos as int, body_bytes(kind, dim, pt))
                implies part_view(part) == pt by {
                assert(part_view(part) =~~= pt);
            }
            Ok((part, np))
        },
        GeometryKind::LineString => {
            let r = parse_ring(b, pos, dim);
            proof {
                assert forall|pt: Seq<Seq<Coord>>|
                    part_fits(kind, dim, pt) && #[trigger] at(b@, pos as int, body_bytes(kind, dim, pt))
                    implies at(b@, pos as int, ring_bytes(pt[0], dim)) && ring_fits(pt[0], dim) by {}
            }
            let (ring, np) = r?;
            let part = vec![ring];
            assert(part_view(part)[0] == part@[0]@);
            assert forall|pt: Seq<Seq<Coord>>|
                part_fits(kind, dim, pt) && #[trigger] at(b@, pos as int, body_bytes(kind, dim, pt))
                implies part_view(part) == pt by {
                assert(at(b@, pos as int, ring_bytes(pt[0], dim)) && ring_fits(pt[0], dim));
                assert(part_view(part) =~= pt);
            }
            Ok((part, np))
        },
        _ => {
            assert forall|pt: Seq<Seq<Coord>>| part_fits(kind, dim, pt) implies part_fits(
                GeometryKind::Polygon,
                dim,
                pt,
            ) by {}
            parse_rings(b, pos, dim)
        },
    }
}

/// The parts from `i` on: part `i`, then the rest.
proof fn lemma_parts_step(kind: GeometryKind, dim: Dimension, ps: Parts, i: int)
    requires
        0 <= i < ps.len(),
    ensures
        flat(ps.subrange(i, ps.len() as int).map_values(|p: Seq<Seq<Coord>>| part_bytes(kind, dim, p)))
            == part_bytes(kind, dim, ps[i]) + flat(
            ps.subrange(i + 1, ps.len() as int).map_values(
                |p: Seq<Seq<Coord>>| part_bytes(kind, dim, p),
            ),
        ),
{
    let f = |p: Seq<Seq<Coord>>| part_bytes(kind, dim, p);
    let m = ps.subrange(i, ps.len() as int).map_values(f);
    lemma_flat_cons(m);
    assert(m.subrange(1, m.len() as int) =~= ps.subrange(i + 1, ps.len() as int).map_values(f));
}

/// Reads one whole geometry starting at `pos`.
pub fn parse_geometry(b: &[u8], pos: usize) -> (r: Result<(Geometry, usize), GeoArrowError>)
    requires
        pos <= b@.len(),
    ensures
        r matches Err(e) ==> e is FormatError || e is NotYetImplemented,
        r matches Ok((g, np)) ==> {
            &&& pos <= np <= b@.len()
            &&& span(b@, pos as int, np as int) == wkb_of(g@)
            &&& g@.wf()
        },
        forall|gm: GeomModel|
            gm.wf() && #[trigger] at(b@, pos as int, wkb_of(gm)) ==> (r matches Ok((g, np)) && g@
                == gm && np == pos + wkb_of(gm).len()),
{
    proof {
        lemma_auto_spec_u32_to_from_le_bytes();
        assert forall|gm: GeomModel| gm.wf() && #[trigger] at(b@, pos as int, wkb_of(gm)) implies at(
            b@,
            pos as int,
            header_bytes(gm.kind, gm.dim),
        ) by {
            let h = header_bytes(gm.kind, gm.dim);
            if gm.kind.is_multi() {
                let c = count_bytes(gm.parts.len());
                let x = flat(gm.parts.map_values(|p: Seq<Seq<Coord>>| part_bytes(gm.kind, gm.dim, p)));
                lemma_at_split(b@, pos as int, h + c, x);
                lemma_at_split(b@, pos as int, h, c);
            } else {
                lemma_at_split(b@, pos as int, h, body_bytes(gm.kind, gm.dim, gm.parts[0]));
            }
        }
    }
    let (kind, dim, pos1) = parse_header(b, pos)?;
    if kind.is_multi_exec() {
        let single = kind.single_exec();
        let ghost f = |p: Seq<Seq<Coord>>| part_bytes(kind, dim, p);
        proof {
            assert forall|gm: GeomModel| gm.wf() && #[trigger] at(b@, pos as int, wkb_of(gm)) implies {
                &&& gm.kind == kind && gm.dim == dim
                &&& at(b@, pos1 as int, count_bytes(gm.parts.len()))
                &&& at(b@, pos1 + 4, flat(gm.parts.map_values(f)))
            } by {
                assert(at(b@, pos as int, header_bytes(gm.kind, gm.dim)));
                let h = header_bytes(gm.kind, gm.dim);
                let c = count_bytes(gm.parts.len());
                let x = flat(gm.parts.map_values(f));
                lemma_at_split(b@, pos as int, h + c, x);
                lemma_at_split(b@, pos as int, h, c);
            }
        }
        let (n, pos2) = read_u32(b, pos1)?;
        let mut parts: Vec<Vec<Vec<Coord>>> = Vec::new();
        proof {
            assert forall|gm: GeomModel| gm.wf() && #[trigger] at(b@, pos as int, wkb_of(gm)) implies {
                &&& gm.parts.len() == n
                &&& parts_view(parts) == gm.parts.subrange(0, 0)
                &&& at(b@, pos2 as int, flat(gm.parts.subrange(0, gm.parts.len() as int).map_values(f)))
            } by {
                assert(span(b@, pos1 as int, pos2 as int) == count_bytes(gm.parts.len()));
                assert(gm.parts.subrange(0, gm.parts.len() as int) =~= gm.parts);
                assert(parts_view(parts) =~= gm.parts.subrange(0, 0));
            }
        }
        let mut cur = pos2;
        let mut i: u32 = 0;
        while i < n
            invariant
                f == (|p: Seq<Seq<Coord>>| part_bytes(kind, dim, p)),
                pos + 5 == pos1,
                pos1 + 4 == pos2 <= cur <= b@.len(),
                parts@.len() == i <= n,
                single == kind.single(),
                kind.is_multi(),
                span(b@, pos as int, pos1 as int) == header_bytes(kind, dim),
                span(b@, pos1 as int, pos2 as int) == spec_u32_to_le_bytes(n),
                span(b@, pos2 as int, cur as int) == flat(parts_view(parts).map_values(f)),
                forall|p: int|
                    0 <= p < parts@.len() ==> part_fits(kind, dim, #[trigger] parts_view(parts)[p]),
                forall|gm: GeomModel|
                    gm.wf() && #[trigger] at(b@, pos as int, wkb_of(gm)) ==> {
                        &&& gm.kind == kind && gm.dim == dim
                        &&& gm.parts.len() == n
                        &&& parts_view(parts) == gm.parts.subrange(0, i as int)
                        &&& at(
                            b@,
                            cur as int,
                            flat(gm.parts.subrange(i as int, gm.parts.len() as int).map_values(f)),
                        )
                    },
            decreases n - i,
        {
            proof {
                assert forall|gm: GeomModel| gm.wf() && #[trigger] at(b@, pos as int, wkb_of(gm)) implies {
                    &&& at(b@, cur as int, header_bytes(single, dim))
                    &&& at(b@, cur + 5, body_bytes(kind, dim, gm.parts[i as int]))
                    &&& part_fits(kind, dim, gm.parts[i as int])
                } by {
                    let ps = gm.parts;
                    assert(ps.len() == n);
                    assert(at(b@, cur as int, flat(ps.subrange(i as int, ps.len() as int).map_values(f))));
                    lemma_parts_step(kind, dim, ps, i as int);
                    assert(at(b@, cur as int, part_bytes(kind, dim, ps[i as int]) + flat(ps.subrange(i + 1, ps.len() as int).map_values(f))));
                    lemma_at_split(
                        b@,
                        cur as int,
                        part_bytes(kind, dim, ps[i as int]),
                        flat(ps.subrange(i + 1, ps.len() as int).map_values(f)),
                    );
                    lemma_at_split(
                        b@,
                        cur as int,
                        header_bytes(single, dim),
                        body_bytes(kind, dim, ps[i as int]),
                    );
                    assert(part_fits(kind, dim, ps[i as int]));
                    lemma_auto_spec_u32_to_from_le_bytes();
                    assert(header_bytes(single, dim).len() == 5);
                }
            }
            let (k2, d2, pos3) = match parse_header(b, cur) {
                Ok(x) => x,
                Err(e) => {
                    proof {
                        assert forall|gm: GeomModel|
                            gm.wf() && #[trigger] at(b@, pos as int, wkb_of(gm)) implies false by {
                            assert(at(b@, cur as int, header_bytes(single, dim)));
                        }
                    }
                    return Err(e);
                },
            };
            if k2 != single || d2 != dim {
                proof {
                    assert forall|gm: GeomModel|
                        gm.wf() && #[trigger] at(b@, pos as int, wkb_of(gm)) implies false by {
                        assert(at(b@, cur as int, header_bytes(single, dim)));
                    }
                }
                return Err(GeoArrowError::FormatError);
            }
            let (part, np) = match parse_body(b, pos3, kind, dim) {
                Ok(x) => x,
                Err(e) => {
                    proof {
                        assert forall|gm: GeomModel|
                            gm.wf() && #[trigger] at(b@, pos as int, wkb_of(gm)) implies false by {
                            assert(at(b@, cur as int, header_bytes(single, dim)));
                            assert(at(b@, cur + 5, body_bytes(kind, dim, gm.parts[i as int])));
                            assert(part_fits(kind, dim, gm.parts[i as int]));
                        }
                    }
                    return Err(e);
                },
            };
            let ghost pv = parts_view(parts);
            let ghost qv = part_view(part);
            parts.push(part);
            proof {
                lemma_span_join(b@, cur as int, pos3 as int, np as int);
                lemma_span_join(b@, pos2 as int, cur as int, np as int);
                assert(parts_view(parts) =~= pv.push(qv));
                assert(pv.push(qv).map_values(f) =~= pv.map_values(f).push(f(qv)));
                lemma_flat_push(pv.map_values(f), f(qv));
                let npv = pv.push(qv);
                assert forall|p: int| 0 <= p < npv.len() implies part_fits(
                    kind,
                    dim,
                    #[trigger] npv[p],
                ) by {
                    if p < pv.len() {
                        assert(npv[p] == pv[p]);
                    }
                }
                assert forall|gm: GeomModel| gm.wf() && #[trigger] at(b@, pos as int, wkb_of(gm)) implies {
                    &&& parts_view(parts) == gm.parts.subrange(0, i + 1)
                    &&& at(
                        b@,
                        np as int,
                        flat(gm.parts.subrange(i + 1, gm.parts.len() as int).map_values(f)),
                    )
                } by {
                    let ps = gm.parts;
                    assert(at(b@, cur as int, header_bytes(single, dim)));
                    assert(at(b@, cur + 5, body_bytes(kind, dim, ps[i as int])));
                    assert(part_fits(kind, dim, ps[i as int]));
                    assert(qv == ps[i as int]);
                    assert(ps.subrange(0, i + 1) =~= ps.subrange(0, i as int).push(ps[i as int]));
                    lemma_parts_step(kind, dim, ps, i as int);
                    lemma_at_split(
                        b@,
                        cur as int,
                        part_bytes(kind, dim, ps[i as int]),
                        flat(ps.subrange(i + 1, ps.len() as int).map_values(f)),
                    );
                }
            }
            cur = np;
            i = i + 1;
        }
        let g = Geometry { kind, dim, parts };
        proof {
            lemma_span_join(b@, pos as int, pos1 as int, pos2 as int);
            lemma_span_join(b@, pos as int, pos2 as int, cur as int);
            assert(span(b@, pos as int, cur as int) =~= wkb_of(g@));
            assert forall|gm: GeomModel| gm.wf() && #[trigger] at(b@, pos as int, wkb_of(gm)) implies (
            g@ == gm && cur == pos + wkb_of(gm).len()) by {
                assert(gm.parts.subrange(0, n as int) =~= gm.parts);
                assert(g@ == gm);
            }
        }
        Ok((g, cur))
    } else {
        proof {
            assert forall|gm: GeomModel| gm.wf() && #[trigger] at(b@, pos as int, wkb_of(gm)) implies {
                &&& gm.kind == kind && gm.dim == dim
                &&& at(b@, pos1 as int, body_bytes(kind, dim, gm.parts[0]))
                &&& part_fits(kind, dim, gm.parts[0])
            } by {
                assert(at(b@, pos as int, header_bytes(gm.kind, gm.dim)));
                lemma_at_split(
                    b@,
                    pos as int,
                    header_bytes(gm.kind, gm.dim),
                    body_bytes(gm.kind, gm.dim, gm.parts[0]),
                );
            }
        }
        let (part, np) = match parse_body(b, pos1, kind, dim) {
            Ok(x) => x,
            Err(e) => {
                proof {
                    assert forall|gm: GeomModel|
                        gm.wf() && #[trigger] at(b@, pos as int, wkb_of(gm)) implies false by {
                        assert(at(b@, pos1 as int, body_bytes(kind, dim, gm.parts[0])));
                        assert(part_fits(kind, dim, gm.parts[0]));
                    }
                }
                return Err(e);
            },
        };
        let parts = vec![part];
        let g = Geometry { kind, dim, parts };
        proof {
            assert(parts_view(parts)[0] == part_view(part));
            lemma_span_join(b@, pos as int, pos1 as int, np as int);
            assert forall|gm: GeomModel| gm.wf() && #[trigger] at(b@, pos as int, wkb_of(gm)) implies (
            g@ == gm && np == pos + wkb_of(gm).len()) by {
                assert(at(b@, pos1 as int, body_bytes(kind, dim, gm.parts[0])));
                assert(part_fits(kind, dim, gm.parts[0]));
                assert(parts_view(parts) =~= gm.parts);
            }
        }
        Ok((g, np))
    }
}

/// A header that is well formed but not supported: big-endian byte order,
/// or a geometry collection's type code.
pub open spec fn unsupported_wkb(b: Seq<u8>) -> bool {
    &&& b.len() >= 5
    &&& (b[0] == 0 || (b[0] == 1 && (spec_u32_from_le_bytes(b.subrange(1, 5)) == 7
        || spec_u32_from_le_bytes(b.subrange(1, 5)) == 1007)))
}

/// `b` is the encoding of a well-formed geometry of any dimension.
pub open spec fn wkb_any(b: Seq<u8>) -> bool {
    exists|g: GeomModel| g.wf() && #[trigger] wkb_of(g) == b
}

/// A geometry's encoding starts with the little-endian byte-order mark.
pub proof fn lemma_first_byte(g: GeomModel)
    ensures
        wkb_of(g).len() >= 1,
        wkb_of(g)[0] == 1,
{
    lemma_type_code_bytes(g);
    let h = header_bytes(g.kind, g.dim);
    let rest = if g.kind.is_multi() {
        count_bytes(g.parts.len()) + flat(
            g.parts.map_values(|p: Seq<Seq<Coord>>| part_bytes(g.kind, g.dim, p)),
        )
    } else {
        body_bytes(g.kind, g.dim, g.parts[0])
    };
    assert(wkb_of(g) =~= h + rest);
}

/// Bytes one to four of a geometry's encoding hold its type code.
pub proof fn lemma_type_code_bytes(g: GeomModel)
    ensures
        wkb_of(g).len() >= 5,
        wkb_of(g).subrange(1, 5) == spec_u32_to_le_bytes(type_code(g.kind, g.dim)),
{
    lemma_auto_spec_u32_to_from_le_bytes();
    let h = header_bytes(g.kind, g.dim);
    let rest = if g.kind.is_multi() {
        count_bytes(g.parts.len()) + flat(
            g.parts.map_values(|p: Seq<Seq<Coord>>| part_bytes(g.kind, g.dim, p)),
        )
    } else {
        body_bytes(g.kind, g.dim, g.parts[0])
    };
    assert(wkb_of(g) =~= h + rest);
    assert((h + rest).subrange(1, 5) =~= spec_u32_to_le_bytes(type_code(g.kind, g.dim)));
}

/// Parses a whole WKB value. Fails with `NotYetImplemented` where the
/// header is well formed but unsupported, and with `FormatError` for any
/// other bytes that do not encode a geometry (trailing bytes included).
pub fn parse_wkb(b: &[u8]) -> (r: Result<Geometry, GeoArrowError>)
    ensures
        r matches Err(e) ==> e is FormatError || e is NotYetImplemented,
        r matches Err(e) ==> (e is NotYetImplemented <==> unsupported_wkb(b@)),
        r matches Ok(g) ==> g@.wf() && wkb_of(g@) == b@,
        r is Err <==> !wkb_any(b@),
        forall|gm: GeomModel| gm.wf() && #[trigger] wkb_of(gm) == b@ ==> (r matches Ok(g) && g@ == gm),
{
    proof {
        lemma_auto_spec_u32_to_from_le_bytes();
        assert forall|gm: GeomModel| gm.wf() && #[trigger] wkb_of(gm) == b@ implies !unsupported_wkb(b@) by {
            lemma_first_byte(gm);
            lemma_type_code_bytes(gm);
            assert(spec_u32_from_le_bytes(spec_u32_to_le_bytes(type_code(gm.kind, gm.dim)))
                == type_code(gm.kind, gm.dim));
        }
    }
    if b.len() >= 5 && (b[0] == 0 || (b[0] == 1 && {
        let code = u32_from_le_bytes(slice_subrange(b, 1, 5));
        code == 7 || code == 1007
    })) {
        return Err(GeoArrowError::NotYetImplemented);
    }
    assert forall|gm: GeomModel| gm.wf() && #[trigger] wkb_of(gm) == b@ implies at(b@, 0, wkb_of(gm)) by {
        assert(b@.subrange(0, b@.len() as int) =~= b@);
    }
    let (g, np) = match parse_geometry(b, 0) {
        Ok(x) => x,
        Err(_) => {
            return Err(GeoArrowError::FormatError);
        },
    };
    if np != b.len() {
        return Err(GeoArrowError::FormatError);
    }
    assert(span(b@, 0, np as int) =~= b@);
    Ok(g)
}

} // verus!
