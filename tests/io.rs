use geoarrow::array::GeometryArray;
use geoarrow::codec::{from_wkb, to_wkb, NativeType};
use geoarrow::coord::CoordType;
use geoarrow::metadata::ArrayMetadata;
use geoarrow::geometry::{Coord, Dimension, Geometry, GeometryKind};
use geoarrow::native::NativeArray;
use geoarrow::offsets::OffsetBuffer;
use geoarrow::wkb_array::WKBArray;
use geoarrow::wkt::from_wkt;

fn c2(x: f64, y: f64) -> Coord {
    Coord { x: x.to_bits(), y: y.to_bits(), z: 0 }
}

fn c3(x: f64, y: f64, z: f64) -> Coord {
    Coord { x: x.to_bits(), y: y.to_bits(), z: z.to_bits() }
}

fn point(c: Coord, dim: Dimension) -> Geometry {
    Geometry { kind: GeometryKind::Point, dim, parts: vec![vec![vec![c]]] }
}

fn point_array() -> GeometryArray {
    let mut arr = GeometryArray::new(GeometryKind::Point, Dimension::XY, CoordType::Interleaved);
    for c in [c2(0., 1.), c2(1., 2.), c2(2., 3.)] {
        arr.push_geometry(&point(c, Dimension::XY));
    }
    arr
}

fn point_z_array() -> GeometryArray {
    let mut arr = GeometryArray::new(GeometryKind::Point, Dimension::XYZ, CoordType::Interleaved);
    for c in [c3(0., 1., 2.), c3(1., 2., 3.), c3(2., 3., 4.)] {
        arr.push_geometry(&point(c, Dimension::XYZ));
    }
    arr
}

fn same_values(a: &NativeArray, b: &GeometryArray) -> bool {
    if a.len() != b.len() {
        return false;
    }
    (0..b.len()).all(|i| a.value(i) == b.value(i))
}

fn texts(items: &[Option<&str>]) -> Vec<Option<String>> {
    items.iter().map(|t| t.map(|s| s.to_string())).collect()
}

#[test]
fn issue_243() {
    let offsets = OffsetBuffer::try_new_small(vec![0, 0]).unwrap();
    let wkb_arr = WKBArray::new(Vec::new(), offsets, vec![false]).unwrap();
    for i in 0..wkb_arr.len() {
        assert!(wkb_arr.value(i).is_none());
    }
}

#[test]
fn test_read_wkt() {
    let wkt_geoms = texts(&[
        Some("POINT (30 10)"),
        Some("LINESTRING (30 10, 10 30, 40 40)"),
        Some("POLYGON ((30 10, 40 40, 20 40, 10 20, 30 10))"),
    ]);
    let geom_arr = from_wkt(&wkt_geoms, CoordType::Interleaved, Dimension::XY, ArrayMetadata::new(), false).unwrap();
    let geo_point = geom_arr.value(0).unwrap();
    assert_eq!(geo_point.kind, GeometryKind::Point);
    let c = geo_point.parts[0][0][0];
    assert_eq!(f64::from_bits(c.x), 30.0);
    assert_eq!(f64::from_bits(c.y), 10.0);
}

#[test]
fn test_read_wkt_downcast_from_multi() {
    let wkt_geoms = texts(&[Some("POINT (30 10)"), Some("POINT (20 5)"), Some("POINT (3 10)")]);
    let geom_arr = from_wkt(&wkt_geoms, CoordType::Interleaved, Dimension::XY, ArrayMetadata::new(), true).unwrap();
    let geom_arr = NativeArray::Mixed(geom_arr).downcast(true);
    assert!(matches!(geom_arr.kind(), Some(GeometryKind::Point)));
}

#[test]
fn point_round_trip_explicit_casting() {
    let arr = point_array();
    let wkb_arr = to_wkb(&NativeArray::Geometry(arr.clone()), false).unwrap();
    let roundtrip = from_wkb(
        &wkb_arr,
        NativeType::Point(CoordType::Interleaved, Dimension::XY),
        true,
    )
    .unwrap();
    assert_eq!(roundtrip.kind(), Some(GeometryKind::Point));
    assert!(same_values(&roundtrip, &arr));
}

#[test]
fn point_round_trip() {
    let arr = point_array();
    let wkb_arr = to_wkb(&NativeArray::Geometry(arr.clone()), false).unwrap();
    let roundtrip = from_wkb(
        &wkb_arr,
        NativeType::Mixed(CoordType::Interleaved, Dimension::XY),
        true,
    )
    .unwrap();
    assert_eq!(roundtrip.kind(), None);
    let downcasted = roundtrip.downcast(true);
    assert_eq!(downcasted.kind(), Some(GeometryKind::Point));
    assert!(same_values(&downcasted, &arr));
}

#[test]
fn point_3d_round_trip() {
    let arr = point_z_array();
    let wkb_arr = to_wkb(&NativeArray::Geometry(arr.clone()), false).unwrap();
    let roundtrip_mixed = from_wkb(
        &wkb_arr,
        NativeType::Mixed(CoordType::Interleaved, Dimension::XYZ),
        false,
    )
    .unwrap();
    match &roundtrip_mixed {
        NativeArray::Mixed(m) => assert!(m.has_points()),
        _ => panic!("expected a mixed array"),
    }

    let roundtrip_point = from_wkb(
        &wkb_arr,
        NativeType::Point(CoordType::Interleaved, Dimension::XYZ),
        false,
    )
    .unwrap();
    assert!(same_values(&roundtrip_point, &arr));
}
