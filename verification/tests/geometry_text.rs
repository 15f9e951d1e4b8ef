use provviz::geom::{Coord, GeoShape};
use provviz::geotext::parse_geometry;

fn c(x: i64, y: i64) -> Coord {
    Coord { x, y }
}

#[test]
fn decodes_a_point() {
    match parse_geometry("{\"type\":\"Point\",\"coordinates\":[150.5,-34.005]}") {
        Some(GeoShape::Point(p)) => assert_eq!(p, c(150_500_000_000, -34_005_000_000)),
        other => panic!("unexpected: {:?}", other),
    }
}

#[test]
fn decodes_with_whitespace_and_altitude() {
    let text = " {\t\"type\" : \"Point\" ,\n \"coordinates\" : [ 1.5 , 2.5 , 99.9 ] }\n";
    match parse_geometry(text) {
        Some(GeoShape::Point(p)) => assert_eq!(p, c(1_500_000_000, 2_500_000_000)),
        other => panic!("unexpected: {:?}", other),
    }
}

#[test]
fn decodes_a_line_string() {
    match parse_geometry("{\"type\":\"LineString\",\"coordinates\":[[0,0],[1,2],[3.25,-4]]}") {
        Some(GeoShape::Line(cs)) => {
            assert_eq!(
                cs,
                vec![c(0, 0), c(1_000_000_000, 2_000_000_000), c(3_250_000_000, -4_000_000_000)]
            );
        },
        other => panic!("unexpected: {:?}", other),
    }
}

#[test]
fn decodes_a_polygon_with_interiors() {
    let text = "{\"type\":\"Polygon\",\"coordinates\":\
                [[[0,0],[10,0],[10,10],[0,0]],[[2,2],[3,2],[2,3],[2,2]]]}";
    match parse_geometry(text) {
        Some(GeoShape::Polygon(p)) => {
            assert_eq!(p.exterior.len(), 4);
            assert_eq!(p.exterior[1], c(10_000_000_000, 0));
            assert_eq!(p.interiors.len(), 1);
            assert_eq!(p.interiors[0][2], c(2_000_000_000, 3_000_000_000));
        },
        other => panic!("unexpected: {:?}", other),
    }
}

#[test]
fn decodes_a_multi_polygon() {
    let text = "{\"type\":\"MultiPolygon\",\"coordinates\":\
                [[[[0,0],[1,0],[0,1],[0,0]]],[[[5,5],[6,5],[5,6],[5,5]]]]}";
    match parse_geometry(text) {
        Some(GeoShape::MultiPolygon(ps)) => {
            assert_eq!(ps.len(), 2);
            assert_eq!(ps[0].exterior[0], c(0, 0));
            assert_eq!(ps[1].exterior[0], c(5_000_000_000, 5_000_000_000));
        },
        other => panic!("unexpected: {:?}", other),
    }
}

#[test]
fn reads_exponents_exactly() {
    match parse_geometry("{\"type\":\"Point\",\"coordinates\":[1.5e2,-25E-1]}") {
        Some(GeoShape::Point(p)) => assert_eq!(p, c(150_000_000_000, -2_500_000_000)),
        other => panic!("unexpected: {:?}", other),
    }
    // Precision beyond the nano grid truncates toward zero.
    match parse_geometry("{\"type\":\"Point\",\"coordinates\":[0.0000000001,-0.0000000019]}") {
        Some(GeoShape::Point(p)) => assert_eq!(p, c(0, -1)),
        other => panic!("unexpected: {:?}", other),
    }
}

#[test]
fn rejects_malformed_literals() {
    assert!(parse_geometry("").is_none());
    assert!(parse_geometry("not geojson").is_none());
    assert!(parse_geometry("{\"type\":\"Point\"}").is_none());
    assert!(parse_geometry("{\"type\":\"Circle\",\"coordinates\":[0,0]}").is_none());
    assert!(parse_geometry("{\"type\":\"Point\",\"coordinates\":[0]}").is_none());
    assert!(parse_geometry("{\"type\":\"Point\",\"coordinates\":[0,]}").is_none());
    assert!(parse_geometry("{\"type\":\"Point\",\"coordinates\":[a,b]}").is_none());
    // Trailing content after the object fails.
    assert!(parse_geometry("{\"type\":\"Point\",\"coordinates\":[0,0]}x").is_none());
    // A coordinate outside the fixed-point range fails the literal.
    assert!(parse_geometry("{\"type\":\"Point\",\"coordinates\":[1e10,0]}").is_none());
}

#[test]
fn empty_coordinate_lists_decode() {
    match parse_geometry("{\"type\":\"LineString\",\"coordinates\":[]}") {
        Some(GeoShape::Line(cs)) => assert!(cs.is_empty()),
        other => panic!("unexpected: {:?}", other),
    }
    match parse_geometry("{\"type\":\"Polygon\",\"coordinates\":[]}") {
        Some(GeoShape::Polygon(p)) => {
            assert!(p.exterior.is_empty());
            assert!(p.interiors.is_empty());
        },
        other => panic!("unexpected: {:?}", other),
    }
}
