use geoarrow::array::{measure, GeometryArray};
use geoarrow::chunked::{downcast_chunked, from_wkb_chunked, from_wkt_chunked, to_wkb_chunked};
use geoarrow::codec::{from_wkb, to_wkb, NativeType};
use geoarrow::collection::{
    from_wkb_collection, from_wkt_collection, parse_collection, to_wkb_collection, write_collection,
    CollectionCast,
};
use geoarrow::coord::{CoordBuffer, CoordType};
use geoarrow::error::GeoArrowError;
use geoarrow::metadata::ArrayMetadata;
use geoarrow::geometry::{Coord, Dimension, Geometry, GeometryKind};
use geoarrow::mixed::MixedGeometryArray;
use geoarrow::native::NativeArray;
use geoarrow::offsets::OffsetBuffer;
use geoarrow::wkb::{parse_wkb, write_geometry};
use geoarrow::wkb_array::WKBArray;
use geoarrow::ewkb::from_ewkb;
use geoarrow::wkt::from_wkt;

fn c2(x: f64, y: f64) -> Coord {
    Coord { x: x.to_bits(), y: y.to_bits(), z: 0 }
}

fn point(x: f64, y: f64) -> Geometry {
    Geometry { kind: GeometryKind::Point, dim: Dimension::XY, parts: vec![vec![vec![c2(x, y)]]] }
}

fn line(coords: &[(f64, f64)]) -> Geometry {
    Geometry {
        kind: GeometryKind::LineString,
        dim: Dimension::XY,
        parts: vec![vec![coords.iter().map(|&(x, y)| c2(x, y)).collect()]],
    }
}

fn texts(items: &[Option<&str>]) -> Vec<Option<String>> {
    items.iter().map(|t| t.map(|s| s.to_string())).collect()
}

fn wkb_column(values: &[Option<Vec<u8>>]) -> WKBArray {
    let mut bytes = Vec::new();
    let mut offsets = vec![0i32];
    let mut validity = Vec::new();
    for v in values {
        if let Some(b) = v {
            bytes.extend_from_slice(b);
        }
        offsets.push(bytes.len() as i32);
        validity.push(v.is_some());
    }
    let offsets = OffsetBuffer::try_new_small(offsets).unwrap();
    WKBArray::new(bytes, offsets, validity).unwrap()
}

fn encode(g: &Geometry) -> Vec<u8> {
    let mut out = Vec::new();
    write_geometry(&mut out, g);
    out
}

#[test]
fn scenario_point_wkt_downcasts_to_point() {
    let arr = from_wkt(&texts(&[Some("POINT (30 10)")]), CoordType::Interleaved, Dimension::XY, ArrayMetadata::new(), false)
        .unwrap();
    let down = NativeArray::Mixed(arr).downcast(false);
    assert_eq!(down.kind(), Some(GeometryKind::Point));
    assert_eq!(down.len(), 1);
    let g = down.value(0).unwrap();
    assert_eq!(f64::from_bits(g.parts[0][0][0].x), 30.0);
    assert_eq!(f64::from_bits(g.parts[0][0][0].y), 10.0);
}

#[test]
fn scenario_nulls_survive_wkb_round_trip() {
    let arr = from_wkt(
        &texts(&[Some("POINT (30 10)"), None, Some("POINT (1 2)")]),
        CoordType::Interleaved,
        Dimension::XY,
        ArrayMetadata::new(),
        false,
    )
    .unwrap();
    let wkb = to_wkb(&NativeArray::Mixed(arr), false).unwrap();
    let back = from_wkb(&wkb, NativeType::Mixed(CoordType::Separated, Dimension::XY), false).unwrap();
    assert_eq!(back.len(), 3);
    let validity: Vec<bool> = (0..3).map(|i| back.value(i).is_some()).collect();
    assert_eq!(validity, vec![true, false, true]);
    assert_eq!(back.value(0).unwrap(), point(30.0, 10.0));
    assert_eq!(back.value(2).unwrap(), point(1.0, 2.0));
}

#[test]
fn scenario_all_points_downcast_mixed_kinds_do_not() {
    let mut m = MixedGeometryArray::new(Dimension::XY, CoordType::Interleaved);
    m.push_geometry(&point(0.0, 0.0), false);
    m.push_geometry(&point(1.0, 1.0), false);
    m.push_geometry(&point(2.0, 2.0), false);
    let down = NativeArray::Mixed(m).downcast(true);
    assert_eq!(down.kind(), Some(GeometryKind::Point));
    assert_eq!(down.len(), 3);

    let mut m = MixedGeometryArray::new(Dimension::XY, CoordType::Interleaved);
    m.push_geometry(&point(0.0, 0.0), false);
    m.push_geometry(&line(&[(0.0, 0.0), (1.0, 1.0)]), false);
    let down = NativeArray::Mixed(m).downcast(true);
    assert_eq!(down.kind(), None);
    assert_eq!(down.len(), 2);
}

#[test]
fn downcast_twice_is_downcast_once() {
    let mut m = MixedGeometryArray::new(Dimension::XY, CoordType::Interleaved);
    m.push_geometry(&line(&[(0.0, 0.0), (1.0, 1.0)]), true);
    m.push_null();
    m.push_geometry(&line(&[(2.0, 2.0), (3.0, 3.0)]), false);
    let once = NativeArray::Mixed(m).downcast(false);
    assert_eq!(once.kind(), Some(GeometryKind::LineString));
    let first: Vec<Option<Geometry>> = (0..once.len()).map(|i| once.value(i)).collect();
    let twice = once.downcast(false);
    assert_eq!(twice.kind(), Some(GeometryKind::LineString));
    let second: Vec<Option<Geometry>> = (0..twice.len()).map(|i| twice.value(i)).collect();
    assert_eq!(first, second);
    assert_eq!(second[1], None);
}

#[test]
fn prefer_multi_widens_mixed_single_and_multi() {
    let multi = Geometry {
        kind: GeometryKind::MultiPoint,
        dim: Dimension::XY,
        parts: vec![vec![vec![c2(0.0, 0.0)]], vec![vec![c2(1.0, 1.0)]]],
    };
    let build = || {
        let mut m = MixedGeometryArray::new(Dimension::XY, CoordType::Interleaved);
        m.push_geometry(&point(5.0, 5.0), false);
        m.push_geometry(&multi, false);
        m
    };
    assert_eq!(NativeArray::Mixed(build()).downcast(false).kind(), None);
    let wide = NativeArray::Mixed(build()).downcast(true);
    assert_eq!(wide.kind(), Some(GeometryKind::MultiPoint));
    assert_eq!(wide.value(0).unwrap().kind, GeometryKind::MultiPoint);
    assert_eq!(wide.value(1).unwrap(), multi);
}

#[test]
fn upcast_keeps_every_slot() {
    let mut a = GeometryArray::new(GeometryKind::LineString, Dimension::XY, CoordType::Separated);
    a.push_geometry(&line(&[(0.0, 1.0), (2.0, 3.0), (4.0, 5.0)]));
    a.push_null();
    let m = NativeArray::Geometry(a.clone()).upcast();
    assert_eq!(m.len(), 2);
    assert_eq!(m.value(0), a.value(0));
    assert_eq!(m.value(1), None);
}

#[test]
fn wkb_bytes_round_trip_exactly() {
    let polygon = Geometry {
        kind: GeometryKind::MultiPolygon,
        dim: Dimension::XYZ,
        parts: vec![
            vec![vec![
                Coord { x: 1, y: 2, z: 3 },
                Coord { x: 4, y: 5, z: 6 },
                Coord { x: 1, y: 2, z: 3 },
            ]],
            vec![],
        ],
    };
    let values = vec![Some(encode(&polygon)), None, Some(encode(&polygon))];
    let column = wkb_column(&values);
    let native =
        from_wkb(&column, NativeType::MultiPolygon(CoordType::Interleaved, Dimension::XYZ), false)
            .unwrap();
    let back = to_wkb(&native, false).unwrap();
    for i in 0..values.len() {
        assert_eq!(back.value(i).map(|b| b.to_vec()), values[i]);
    }
}

#[test]
fn wkb_point_encoding_is_iso_little_endian() {
    let bytes = encode(&point(10.0, -20.0));
    assert_eq!(
        bytes,
        vec![1, 1, 0, 0, 0, 0, 0, 0, 0, 0, 0, 36, 64, 0, 0, 0, 0, 0, 0, 52, 192]
    );
    let z = Geometry {
        kind: GeometryKind::Point,
        dim: Dimension::XYZ,
        parts: vec![vec![vec![Coord { x: 0, y: 0, z: 0 }]]],
    };
    assert_eq!(&encode(&z)[0..5], &[1, 0xE9, 0x03, 0, 0]);
    assert_eq!(parse_wkb(&bytes).unwrap(), point(10.0, -20.0));
}

#[test]
fn wkt_goes_through_its_binary_encoding() {
    let arr = from_wkt(
        &texts(&[Some("LINESTRING (30 10, 10 30, 40 40)")]),
        CoordType::Interleaved,
        Dimension::XY,
        ArrayMetadata::new(),
        false,
    )
    .unwrap();
    assert_eq!(arr.value(0).unwrap(), line(&[(30.0, 10.0), (10.0, 30.0), (40.0, 40.0)]));
}

#[test]
fn wkt_prefer_multi_stores_multi_kinds() {
    let arr = from_wkt(&texts(&[Some("POINT (1 2)")]), CoordType::Interleaved, Dimension::XY, ArrayMetadata::new(), true)
        .unwrap();
    assert_eq!(arr.value(0).unwrap().kind, GeometryKind::MultiPoint);
}

#[test]
fn malformed_wkt_is_a_format_error() {
    let r = from_wkt(&texts(&[Some("POINT (1")]), CoordType::Interleaved, Dimension::XY, ArrayMetadata::new(), false);
    assert!(matches!(r, Err(GeoArrowError::FormatError)));
}

#[test]
fn incorrect_kind_is_refused() {
    let column = wkb_column(&[Some(encode(&point(1.0, 2.0)))]);
    let r = from_wkb(&column, NativeType::LineString(CoordType::Interleaved, Dimension::XY), false);
    assert!(matches!(r, Err(GeoArrowError::IncorrectType)));
    let r = from_wkb(&column, NativeType::Point(CoordType::Interleaved, Dimension::XYZ), false);
    assert!(matches!(r, Err(GeoArrowError::IncorrectType)));
}

#[test]
fn unsupported_targets_and_bytes() {
    let column = wkb_column(&[Some(encode(&point(1.0, 2.0)))]);
    let r = from_wkb(&column, NativeType::Rect(Dimension::XY), false);
    assert!(matches!(r, Err(GeoArrowError::NotYetImplemented)));
    let r = from_wkb(
        &column,
        NativeType::GeometryCollection(CoordType::Interleaved, Dimension::XY),
        false,
    )
    .unwrap();
    match &r {
        NativeArray::Collection(c) => assert_eq!(c.value(0).unwrap(), vec![point(1.0, 2.0)]),
        _ => panic!("expected a collection column"),
    }
    assert_eq!(r.kind(), None);
    let bad = wkb_column(&[Some(vec![1, 2, 0])]);
    let r = from_wkb(&bad, NativeType::GeometryCollection(CoordType::Interleaved, Dimension::XY), false);
    assert!(matches!(r, Err(GeoArrowError::FormatError)));
    let collection = vec![1u8, 7, 0, 0, 0, 0, 0, 0, 0];
    assert_eq!(parse_wkb(&collection), Err(GeoArrowError::NotYetImplemented));
    let big_endian = vec![0u8, 0, 0, 0, 1];
    assert_eq!(parse_wkb(&big_endian), Err(GeoArrowError::NotYetImplemented));
}

#[test]
fn malformed_wkb_is_a_format_error() {
    let mut bytes = encode(&point(1.0, 2.0));
    bytes.pop();
    assert_eq!(parse_wkb(&bytes), Err(GeoArrowError::FormatError));
    let mut trailing = encode(&point(1.0, 2.0));
    trailing.push(0);
    assert_eq!(parse_wkb(&trailing), Err(GeoArrowError::FormatError));
    let column = wkb_column(&[Some(vec![1, 99, 0, 0, 0])]);
    let r = from_wkb(&column, NativeType::Mixed(CoordType::Interleaved, Dimension::XY), false);
    assert!(matches!(r, Err(GeoArrowError::FormatError)));
}

#[test]
fn offsets_must_start_at_zero_and_not_decrease() {
    assert!(OffsetBuffer::try_new_small(vec![0, 2, 2, 5]).is_ok());
    assert_eq!(OffsetBuffer::try_new_small(vec![1, 2]), Err(GeoArrowError::FormatError));
    assert_eq!(OffsetBuffer::try_new_large(vec![0, 3, 2]), Err(GeoArrowError::FormatError));
    assert_eq!(OffsetBuffer::try_new_large(vec![]), Err(GeoArrowError::FormatError));
    let b = OffsetBuffer::try_new_small(vec![0, 2, 2, 5]).unwrap();
    assert_eq!(b.start_end(0), (0, 2));
    assert_eq!(b.start_end(1), (2, 2));
    assert_eq!(b.start_end(2), (2, 5));
}

#[test]
fn offset_width_conversion() {
    let large = OffsetBuffer::try_new_large(vec![0, 7, 2147483647]).unwrap();
    let small = large.to_small().unwrap();
    assert_eq!(small, OffsetBuffer::Small(vec![0, 7, 2147483647]));
    assert_eq!(small.to_large(), large);
    let too_big = OffsetBuffer::try_new_large(vec![0, 2147483648]).unwrap();
    assert_eq!(too_big.to_small(), Err(GeoArrowError::Overflow));
}

#[test]
fn wkb_array_width_and_slice() {
    let values = vec![Some(vec![1u8, 2, 3]), None, Some(vec![4u8])];
    let column = wkb_column(&values);
    let large = column.to_large();
    let small = large.to_small().unwrap();
    for i in 0..3 {
        assert_eq!(small.value(i), column.value(i));
    }
    let part = column.slice(1, 2);
    assert!(matches!(part.offsets(), OffsetBuffer::Small(_)));
    assert!(matches!(large.slice(0, 1).offsets(), OffsetBuffer::Large(_)));
    assert_eq!(part.len(), 2);
    assert_eq!(part.value(0), None);
    assert_eq!(part.value(1), Some(&[4u8][..]));
    let lengths = column.buffer_lengths();
    assert_eq!(lengths.buffer_capacity, 4);
    assert_eq!(lengths.offsets_capacity, 3);
    assert_eq!(column.num_bytes(), Some(1 + 4 * 4 + 4));
    assert!(WKBArray::new(vec![1], OffsetBuffer::Small(vec![0, 2]), vec![true]).is_err());
}

#[test]
fn coord_layouts_convert_both_ways() {
    let mut buf = CoordBuffer::new(CoordType::Interleaved, Dimension::XYZ);
    buf.push(Coord { x: 1, y: 2, z: 3 });
    buf.push(Coord { x: 4, y: 5, z: 6 });
    let sep = buf.to_coord_type(CoordType::Separated);
    assert_eq!(sep.len(), 2);
    assert_eq!(sep.get(1), Coord { x: 4, y: 5, z: 6 });
    let back = sep.to_coord_type(CoordType::Interleaved);
    match back {
        CoordBuffer::Interleaved { values, .. } => assert_eq!(values, vec![1, 2, 3, 4, 5, 6]),
        CoordBuffer::Separated { .. } => panic!("expected interleaved"),
    }
}

#[test]
fn polygon_array_keeps_rings() {
    let square = Geometry {
        kind: GeometryKind::Polygon,
        dim: Dimension::XY,
        parts: vec![vec![
            vec![c2(0.0, 0.0), c2(1.0, 0.0), c2(1.0, 1.0), c2(0.0, 0.0)],
            vec![c2(0.2, 0.2), c2(0.3, 0.2), c2(0.2, 0.2)],
        ]],
    };
    let mut a = GeometryArray::new(GeometryKind::Polygon, Dimension::XY, CoordType::Interleaved);
    a.push_null();
    a.push_geometry(&square);
    assert_eq!(a.len(), 2);
    assert!(!a.is_valid(0));
    assert_eq!(a.value(1).unwrap(), square);
    assert_eq!(a.num_parts(1), 1);
}

#[test]
fn crs_travels_through_conversions() {
    let md = ArrayMetadata { crs: Some("EPSG:4326".to_string()) };
    let arr = from_wkt(&texts(&[Some("POINT (1 2)")]), CoordType::Interleaved, Dimension::XY, md, false)
        .unwrap();
    assert_eq!(arr.metadata().crs.as_deref(), Some("EPSG:4326"));
    let native = NativeArray::Mixed(arr);
    let wkb = to_wkb(&native, true).unwrap();
    assert_eq!(wkb.metadata().crs.as_deref(), Some("EPSG:4326"));
    assert_eq!(wkb.slice(0, 1).metadata().crs.as_deref(), Some("EPSG:4326"));
    let back = from_wkb(&wkb, NativeType::Mixed(CoordType::Interleaved, Dimension::XY), false).unwrap();
    let down = back.downcast(false);
    assert_eq!(down.kind(), Some(GeometryKind::Point));
    assert_eq!(down.metadata().crs.as_deref(), Some("EPSG:4326"));
    let up = down.upcast();
    assert_eq!(up.metadata().crs.as_deref(), Some("EPSG:4326"));
}

#[test]
fn chunks_downcast_only_when_they_agree() {
    let points = |xs: &[f64]| {
        let mut m = MixedGeometryArray::new(Dimension::XY, CoordType::Interleaved);
        for &x in xs {
            m.push_geometry(&point(x, x), false);
        }
        NativeArray::Mixed(m)
    };
    let agreed = downcast_chunked(vec![points(&[1.0, 2.0]), points(&[3.0])], false);
    assert_eq!(agreed.len(), 2);
    assert!(agreed.iter().all(|c| c.kind() == Some(GeometryKind::Point)));
    assert_eq!(agreed[1].value(0).unwrap(), point(3.0, 3.0));

    let mut mixed = MixedGeometryArray::new(Dimension::XY, CoordType::Interleaved);
    mixed.push_geometry(&line(&[(0.0, 0.0), (1.0, 1.0)]), false);
    let split = downcast_chunked(vec![points(&[1.0]), NativeArray::Mixed(mixed)], false);
    assert!(split.iter().all(|c| c.kind().is_none()));
    assert_eq!(split[0].value(0).unwrap(), point(1.0, 1.0));
}

#[test]
fn chunked_codec_keeps_chunk_order() {
    let a = wkb_column(&[Some(encode(&point(1.0, 1.0)))]);
    let b = wkb_column(&[None, Some(encode(&point(2.0, 2.0)))]);
    let native = from_wkb_chunked(
        &vec![a, b],
        NativeType::Point(CoordType::Interleaved, Dimension::XY),
        false,
    )
    .unwrap();
    assert_eq!(native.len(), 2);
    assert_eq!(native[1].len(), 2);
    assert_eq!(native[1].value(1).unwrap(), point(2.0, 2.0));
    let wkb = to_wkb_chunked(&native, false).unwrap();
    assert_eq!(wkb[0].value(0).unwrap(), &encode(&point(1.0, 1.0))[..]);
    assert_eq!(wkb[1].value(0), None);
}

#[test]
fn measured_capacity_matches_filled_buffers() {
    let square = Geometry {
        kind: GeometryKind::MultiPolygon,
        dim: Dimension::XY,
        parts: vec![
            vec![vec![c2(0.0, 0.0), c2(1.0, 0.0), c2(0.0, 0.0)], vec![c2(0.5, 0.5)]],
            vec![vec![c2(5.0, 5.0), c2(6.0, 5.0)]],
        ],
    };
    let geoms = vec![Some(square.clone()), None, Some(square.clone())];
    let cap = measure(&geoms, GeometryKind::MultiPolygon).unwrap();
    assert_eq!(cap.geom_capacity, 3);
    assert_eq!(cap.part_capacity, 4);
    assert_eq!(cap.ring_capacity, 6);
    assert_eq!(cap.coord_capacity, 12);
    let mut a = GeometryArray::new(GeometryKind::MultiPolygon, Dimension::XY, CoordType::Interleaved);
    for g in &geoms {
        match g {
            Some(g) => a.push_geometry(g),
            None => a.push_null(),
        }
    }
    assert_eq!(a.buffer_lengths(), cap);

    let nulls = vec![None, None];
    let cap = measure(&nulls, GeometryKind::Point).unwrap();
    assert_eq!((cap.geom_capacity, cap.part_capacity, cap.ring_capacity, cap.coord_capacity), (2, 2, 2, 2));
    let cap = measure(&nulls, GeometryKind::LineString).unwrap();
    assert_eq!((cap.part_capacity, cap.ring_capacity, cap.coord_capacity), (2, 2, 0));
}

#[test]
fn ewkb_with_srid_reads_as_plain_geometry() {
    let ewkb = vec![1u8, 1, 0, 0, 32, 230, 16, 0, 0, 0, 0, 0, 0, 0, 0, 36, 64, 0, 0, 0, 0, 0, 0, 52, 192];
    let column = wkb_column(&[Some(ewkb), None]);
    let arr = from_ewkb(&column, CoordType::Interleaved, Dimension::XY, false).unwrap();
    assert_eq!(arr.len(), 2);
    assert_eq!(arr.value(0).unwrap(), point(10.0, -20.0));
    assert_eq!(arr.value(1), None);
    let bad = wkb_column(&[Some(vec![1u8, 1, 0])]);
    assert!(matches!(
        from_ewkb(&bad, CoordType::Interleaved, Dimension::XY, false),
        Err(GeoArrowError::FormatError)
    ));
}

#[test]
fn line_strings_from_buffers() {
    let coords = CoordBuffer::Interleaved {
        dim: Dimension::XY,
        values: vec![
            0f64.to_bits(), 0f64.to_bits(), 1f64.to_bits(), 1f64.to_bits(), 2f64.to_bits(),
            2f64.to_bits(),
        ],
    };
    let arr = GeometryArray::try_new(
        GeometryKind::LineString,
        coords.clone(),
        None,
        None,
        Some(vec![0, 2, 2, 3]),
        Some(vec![true, false, true]),
    )
    .unwrap();
    assert_eq!(arr.len(), 3);
    assert_eq!(arr.value(0).unwrap(), line(&[(0.0, 0.0), (1.0, 1.0)]));
    assert_eq!(arr.value(1), None);
    assert_eq!(arr.value(2).unwrap(), line(&[(2.0, 2.0)]));

    let all_valid =
        GeometryArray::try_new(GeometryKind::LineString, coords.clone(), None, None, Some(vec![0, 3]), None)
            .unwrap();
    assert!(all_valid.is_valid(0));

    let decreasing = GeometryArray::try_new(
        GeometryKind::LineString,
        coords.clone(),
        None,
        None,
        Some(vec![0, 2, 1, 3]),
        None,
    );
    assert!(matches!(decreasing, Err(GeoArrowError::FormatError)));
    let short = GeometryArray::try_new(
        GeometryKind::LineString,
        coords.clone(),
        None,
        None,
        Some(vec![0, 2]),
        None,
    );
    assert!(matches!(short, Err(GeoArrowError::FormatError)));
    let null_with_coords = GeometryArray::try_new(
        GeometryKind::LineString,
        coords.clone(),
        None,
        None,
        Some(vec![0, 2, 3]),
        Some(vec![true, false]),
    );
    assert!(matches!(null_with_coords, Err(GeoArrowError::FormatError)));
    let missing_level =
        GeometryArray::try_new(GeometryKind::LineString, coords, None, None, None, None);
    assert!(matches!(missing_level, Err(GeoArrowError::FormatError)));
}

fn encode_collection(members: &Vec<Geometry>) -> Vec<u8> {
    let mut out = Vec::new();
    write_collection(&mut out, Dimension::XY, members);
    out
}

#[test]
fn collections_round_trip_and_downcast() {
    let members = vec![point(1.0, 2.0), line(&[(0.0, 0.0), (3.0, 4.0)])];
    let coll = encode_collection(&members);
    assert_eq!(&coll[0..9], &[1, 7, 0, 0, 0, 2, 0, 0, 0]);
    let single = encode(&point(5.0, 6.0));
    let column = wkb_column(&[Some(coll.clone()), None, Some(single)]);
    let arr = from_wkb_collection(&column, CoordType::Interleaved, Dimension::XY, false).unwrap();
    assert_eq!(arr.len(), 3);
    assert_eq!(arr.value(0).unwrap(), members);
    assert_eq!(arr.value(1), None);
    assert_eq!(arr.value(2).unwrap(), vec![point(5.0, 6.0)]);
    let back = to_wkb_collection(&arr, false).unwrap();
    assert_eq!(back.value(0).unwrap(), &coll[..]);
    assert_eq!(back.value(1), None);
    assert_eq!(back.value(2).unwrap(), &encode_collection(&vec![point(5.0, 6.0)])[..]);

    match arr.downcast(false) {
        CollectionCast::Collection(c) => assert_eq!(c.len(), 3),
        CollectionCast::Native(_) => panic!("two members cannot narrow"),
    }

    let singles = wkb_column(&[Some(encode(&point(1.0, 1.0))), None, Some(encode(&point(2.0, 2.0)))]);
    let arr = from_wkb_collection(&singles, CoordType::Interleaved, Dimension::XY, false).unwrap();
    match arr.downcast(false) {
        CollectionCast::Native(n) => {
            assert_eq!(n.kind(), Some(GeometryKind::Point));
            assert_eq!(n.value(2).unwrap(), point(2.0, 2.0));
            assert_eq!(n.value(1), None);
        }
        CollectionCast::Collection(_) => panic!("single members narrow"),
    }
    let wrong_dim = from_wkb_collection(&column, CoordType::Interleaved, Dimension::XYZ, false);
    assert!(matches!(wrong_dim, Err(GeoArrowError::IncorrectType)));
    assert!(parse_collection(&[1, 7, 0, 0, 0, 1, 0, 0, 0], Dimension::XY).is_err());
}

#[test]
fn wkt_collections_parse_through_their_binary_encoding() {
    let arr = from_wkt_collection(
        &texts(&[
            Some("GEOMETRYCOLLECTION (POINT (1 2), LINESTRING (0 0, 3 4))"),
            None,
            Some("POINT (5 6)"),
        ]),
        CoordType::Interleaved,
        Dimension::XY,
        ArrayMetadata::new(),
        false,
    )
    .unwrap();
    assert_eq!(arr.len(), 3);
    assert_eq!(arr.value(0).unwrap(), vec![point(1.0, 2.0), line(&[(0.0, 0.0), (3.0, 4.0)])]);
    assert_eq!(arr.value(1), None);
    assert_eq!(arr.value(2).unwrap(), vec![point(5.0, 6.0)]);
}

#[test]
fn chunked_wkt_keeps_chunk_order() {
    let chunks = vec![texts(&[Some("POINT (1 1)")]), texts(&[None, Some("POINT (2 2)")])];
    let md = ArrayMetadata { crs: Some("EPSG:3857".to_string()) };
    let out = from_wkt_chunked(&chunks, CoordType::Interleaved, Dimension::XY, &md, false).unwrap();
    assert_eq!(out.len(), 2);
    assert_eq!(out[0].value(0).unwrap(), point(1.0, 1.0));
    assert_eq!(out[1].value(0), None);
    assert_eq!(out[1].value(1).unwrap(), point(2.0, 2.0));
    assert_eq!(out[1].metadata().crs.as_deref(), Some("EPSG:3857"));
}

#[test]
fn multi_targets_take_single_parts() {
    let column = wkb_column(&[Some(encode(&point(1.0, 2.0))), None]);
    let arr = from_wkb(&column, NativeType::MultiPoint(CoordType::Separated, Dimension::XY), false)
        .unwrap();
    assert_eq!(arr.kind(), Some(GeometryKind::MultiPoint));
    let g = arr.value(0).unwrap();
    assert_eq!(g.kind, GeometryKind::MultiPoint);
    assert_eq!(g.parts, point(1.0, 2.0).parts);
    let lines = wkb_column(&[Some(encode(&line(&[(0.0, 0.0), (1.0, 1.0)])))]);
    let r = from_wkb(&lines, NativeType::MultiPoint(CoordType::Separated, Dimension::XY), false);
    assert!(matches!(r, Err(GeoArrowError::IncorrectType)));
}

#[test]
fn encoded_offsets_follow_slot_sizes() {
    let mut a = GeometryArray::new(GeometryKind::Point, Dimension::XY, CoordType::Interleaved);
    a.push_geometry(&point(1.0, 2.0));
    a.push_null();
    a.push_geometry(&point(3.0, 4.0));
    let w = to_wkb(&NativeArray::Geometry(a), false).unwrap();
    assert_eq!(w.offsets(), &OffsetBuffer::Small(vec![0, 21, 21, 42]));
    assert_eq!(w.buffer_lengths().buffer_capacity, 42);
    let wide = w.to_large();
    assert_eq!(wide.offsets(), &OffsetBuffer::Large(vec![0, 21, 21, 42]));
    assert_eq!(wide.to_small().unwrap().offsets(), w.offsets());
}
