use provviz::bindings::{
    BindingType, GeoJsonBinding, ObjectPropertyBinding, Response, Results, SpatialEntityBinding,
};
use provviz::geom::{Coord, GeoShape, PolyShape, Rect};
use provviz::models::Entity;
use provviz::spatial::{compose, label_anchor, MapReference, PathOp};
use provviz::sparql::spatial_entities_from_response;

const GEOJSON_TYPE: &str = "http://www.opengis.net/ont/geosparql#geoJSONLiteral";

fn c(x: i64, y: i64) -> Coord {
    Coord { x, y }
}

fn entity_with(shape: Option<GeoShape>) -> Entity {
    Entity {
        geometry: shape,
        label: None,
        properties: vec![],
        was_attributed_to: vec![],
        was_derived_from: vec![],
        was_generated_by: vec![],
    }
}

fn map_ref() -> MapReference {
    MapReference {
        image_reference: "map.png".to_string(),
        extent: Rect {
            min: c(150_000_000_000, -35_000_000_000),
            max: c(151_000_000_000, -33_000_000_000),
        },
    }
}

// A polygon covering [150.5, 150.53] x [-34.005, -34.0] in nano-units.
fn sample_polygon() -> GeoShape {
    GeoShape::Polygon(PolyShape {
        exterior: vec![
            c(150_500_000_000, -34_000_000_000),
            c(150_520_000_000, -34_005_000_000),
            c(150_530_000_000, -34_002_500_000),
            c(150_500_000_000, -34_000_000_000),
        ],
        interiors: vec![],
    })
}

#[test]
fn static_viewport_is_the_flipped_extent() {
    let entities = vec![("http://example.com/data/c".to_string(), entity_with(Some(sample_polygon())))];
    let scene = compose(entities, &map_ref(), false).unwrap();
    assert_eq!(
        scene.viewport,
        Rect { min: c(150_000_000_000, 33_000_000_000), max: c(151_000_000_000, 35_000_000_000) }
    );
    assert_eq!(scene.map_frame, scene.viewport);
}

#[test]
fn static_viewport_survives_entities_without_shapes() {
    let entities = vec![("a".to_string(), entity_with(None))];
    let scene = compose(entities, &map_ref(), false).unwrap();
    assert_eq!(scene.viewport.min, c(150_000_000_000, 33_000_000_000));
    assert!(scene.paths.is_empty());
}

#[test]
fn no_entities_no_scene() {
    assert!(compose(vec![], &map_ref(), false).is_none());
    assert!(compose(vec![], &map_ref(), true).is_none());
}

#[test]
fn dynamic_viewport_needs_a_rectangle() {
    let entities = vec![("a".to_string(), entity_with(None))];
    assert!(compose(entities, &map_ref(), true).is_none());
}

#[test]
fn flipping_swaps_the_vertical_edges() {
    // The bounding rectangle [150.5, -34.005] .. [150.53, -34.0] becomes
    // [150.5, 34.0] .. [150.53, 34.005] under the vertical flip.
    let entities = vec![("a".to_string(), entity_with(Some(sample_polygon())))];
    let scene = compose(entities, &map_ref(), true).unwrap();
    // The union pads by an eighth of each side: 30'000'000 / 8 and
    // 5'000'000 / 8 nano-units.
    assert_eq!(
        scene.viewport,
        Rect {
            min: c(150_500_000_000 - 3_750_000, 34_000_000_000 - 625_000),
            max: c(150_530_000_000 + 3_750_000, 34_005_000_000 + 625_000),
        }
    );
}

#[test]
fn dynamic_union_ignores_entity_order() {
    let square_a = GeoShape::Line(vec![c(0, 0), c(8_000, 8_000)]);
    let square_b = GeoShape::Line(vec![c(-8_000, 2_000), c(4_000, 4_000)]);
    let one = vec![
        ("a".to_string(), entity_with(Some(square_a))),
        ("b".to_string(), entity_with(Some(square_b))),
    ];
    let square_a = GeoShape::Line(vec![c(0, 0), c(8_000, 8_000)]);
    let square_b = GeoShape::Line(vec![c(-8_000, 2_000), c(4_000, 4_000)]);
    let two = vec![
        ("b".to_string(), entity_with(Some(square_b))),
        ("a".to_string(), entity_with(Some(square_a))),
    ];
    let s1 = compose(one, &map_ref(), true).unwrap();
    let s2 = compose(two, &map_ref(), true).unwrap();
    assert_eq!(s1.viewport, s2.viewport);
}

#[test]
fn entities_sort_by_identifier_and_keep_region_indices() {
    let entities = vec![
        ("c".to_string(), entity_with(Some(GeoShape::Point(c(5, 5))))),
        ("b".to_string(), entity_with(None)),
        ("a".to_string(), entity_with(Some(GeoShape::Point(c(1, 1))))),
    ];
    let scene = compose(entities, &map_ref(), false).unwrap();
    // The shapeless entity contributes no region but consumes its index.
    assert_eq!(scene.paths.len(), 2);
    assert_eq!(scene.paths[0].id, "a".to_string());
    assert_eq!(scene.paths[0].region, 0);
    assert_eq!(scene.paths[1].id, "c".to_string());
    assert_eq!(scene.paths[1].region, 2);
}

#[test]
fn polygon_bounds_come_from_the_exterior_ring() {
    // An interior ring, even a malformed one outside the exterior, does
    // not widen the bounding rectangle.
    let poly = GeoShape::Polygon(PolyShape {
        exterior: vec![c(0, 0), c(100, 0), c(100, 100), c(0, 0)],
        interiors: vec![vec![c(-500, -500), c(900, 900), c(0, 900), c(-500, -500)]],
    });
    let entities = vec![("p".to_string(), entity_with(Some(poly)))];
    let scene = compose(entities, &map_ref(), true).unwrap();
    // Flipped box [0,-100]..[100,0]; padding 12 on each axis.
    assert_eq!(scene.viewport, Rect { min: c(-12, -112), max: c(112, 12) });
}

#[test]
fn multi_polygon_bounds_union_the_exteriors() {
    let mp = GeoShape::MultiPolygon(vec![
        PolyShape { exterior: vec![c(0, 0), c(80, 0), c(0, 80), c(0, 0)], interiors: vec![] },
        PolyShape {
            exterior: vec![c(720, 0), c(800, 0), c(800, 80), c(720, 0)],
            interiors: vec![],
        },
    ]);
    let entities = vec![("m".to_string(), entity_with(Some(mp)))];
    let scene = compose(entities, &map_ref(), true).unwrap();
    // Flipped union [0,-80]..[800,0]; padding 100 and 10.
    assert_eq!(scene.viewport, Rect { min: c(-100, -90), max: c(900, 10) });
}

#[test]
fn paths_flip_and_close() {
    let line = GeoShape::Line(vec![c(1, 2), c(3, 4)]);
    let entities = vec![("l".to_string(), entity_with(Some(line)))];
    let scene = compose(entities, &map_ref(), false).unwrap();
    assert_eq!(scene.paths[0].ops, vec![PathOp::MoveTo(c(1, -2)), PathOp::LineTo(c(3, -4))]);

    let poly = GeoShape::Polygon(PolyShape {
        exterior: vec![c(0, 0), c(10, 0), c(10, 10), c(0, 0)],
        interiors: vec![vec![c(2, 2), c(3, 2), c(2, 3), c(2, 2)]],
    });
    let entities = vec![("p".to_string(), entity_with(Some(poly)))];
    let scene = compose(entities, &map_ref(), false).unwrap();
    assert_eq!(
        scene.paths[0].ops,
        vec![
            PathOp::MoveTo(c(0, 0)),
            PathOp::LineTo(c(10, 0)),
            PathOp::LineTo(c(10, -10)),
            PathOp::LineTo(c(0, 0)),
            PathOp::Close,
            PathOp::MoveTo(c(2, -2)),
            PathOp::LineTo(c(3, -2)),
            PathOp::LineTo(c(2, -3)),
            PathOp::LineTo(c(2, -2)),
            PathOp::Close,
        ]
    );
}

#[test]
fn label_anchors_at_the_flipped_center() {
    let line = GeoShape::Line(vec![c(0, 10), c(10, 30)]);
    assert_eq!(label_anchor(&line), c(5, -20));
    let empty = GeoShape::Line(vec![]);
    assert_eq!(label_anchor(&empty), c(0, 0));
}

fn uri(value: &str) -> ObjectPropertyBinding {
    ObjectPropertyBinding { binding_type: BindingType::Uri, value: value.to_string() }
}

fn lit(value: &str) -> ObjectPropertyBinding {
    ObjectPropertyBinding { binding_type: BindingType::Literal, value: value.to_string() }
}

fn geo(datatype: &str, value: &str) -> GeoJsonBinding {
    GeoJsonBinding {
        binding_type: BindingType::Literal,
        datatype: datatype.to_string(),
        value: value.to_string(),
    }
}

#[test]
fn spatial_rows_filter_on_kind_datatype_and_decode() {
    let good = "{\"type\":\"Polygon\",\"coordinates\":\
                [[[150.5,-34.0],[150.52,-34.005],[150.53,-34.0025],[150.5,-34.0]]]}";
    let response = Response {
        results: Results {
            bindings: vec![
                SpatialEntityBinding {
                    entity: uri("http://example.com/data/c"),
                    label: Some(lit("C")),
                    geojson: geo(GEOJSON_TYPE, good),
                },
                // Wrong datatype: excluded from spatial results.
                SpatialEntityBinding {
                    entity: uri("http://example.com/data/d"),
                    label: None,
                    geojson: geo("http://www.opengis.net/ont/geosparql#wktLiteral", good),
                },
                // Entity is not a URI: excluded.
                SpatialEntityBinding {
                    entity: lit("not-a-uri"),
                    label: None,
                    geojson: geo(GEOJSON_TYPE, good),
                },
                // Geometry text that does not decode: excluded.
                SpatialEntityBinding {
                    entity: uri("http://example.com/data/e"),
                    label: None,
                    geojson: geo(GEOJSON_TYPE, "not geojson"),
                },
            ],
        },
    };
    let entities = spatial_entities_from_response(response);
    assert_eq!(entities.len(), 1);
    assert_eq!(entities[0].0, "http://example.com/data/c".to_string());
    assert_eq!(entities[0].1.label, Some("C".to_string()));
    assert!(entities[0].1.properties.is_empty());
    match &entities[0].1.geometry {
        Some(GeoShape::Polygon(p)) => {
            assert_eq!(
                p.exterior,
                vec![
                    c(150_500_000_000, -34_000_000_000),
                    c(150_520_000_000, -34_005_000_000),
                    c(150_530_000_000, -34_002_500_000),
                    c(150_500_000_000, -34_000_000_000),
                ]
            );
            assert!(p.interiors.is_empty());
        },
        other => panic!("unexpected shape: {:?}", other),
    }
}
