use provviz::bindings::{
    BindingType, DimDescBinding, DimValueBinding, ObjectPropertyBinding, Response, Results,
};
use provviz::models::{DimDesc, DimValue};
use provviz::numbers::Dec;
use provviz::radial::{normalize, Rat};
use provviz::sparql::{dim_desc_from_response, dim_values_from_response};

fn lit(value: &str) -> ObjectPropertyBinding {
    ObjectPropertyBinding { binding_type: BindingType::Literal, value: value.to_string() }
}

fn desc(name: &str, order: u64, range_end: i64) -> DimDesc {
    DimDesc {
        name: name.to_string(),
        order,
        range_end: Dec { mant: range_end, frac: 0 },
        target_range_end: None,
    }
}

fn val(name: &str, mant: i64, frac: u32) -> DimValue {
    DimValue { d: name.to_string(), v: Dec { mant, frac } }
}

#[test]
fn descriptors_sort_by_order() {
    let descs = vec![desc("Foo", 1, 5), desc("Bar", 3, 5), desc("Dang", 2, 5)];
    let chart = normalize(descs, vec![]).unwrap();
    assert_eq!(chart.axes, 3);
    assert_eq!(chart.label_ring.len(), 9);
    assert_eq!(chart.label_ring[0].label, Some("Foo".to_string()));
    assert_eq!(chart.label_ring[3].label, Some("Dang".to_string()));
    assert_eq!(chart.label_ring[6].label, Some("Bar".to_string()));
}

#[test]
fn label_ring_is_label_center_label() {
    let descs = vec![desc("Foo", 1, 5), desc("Bar", 2, 5)];
    let chart = normalize(descs, vec![]).unwrap();
    assert_eq!(chart.label_ring.len(), 6);
    for k in 0..2 {
        let first = &chart.label_ring[3 * k];
        let center = &chart.label_ring[3 * k + 1];
        let again = &chart.label_ring[3 * k + 2];
        assert_eq!(first.axis, k);
        assert_eq!(first.radius, Rat { num: 1, den: 1 });
        assert!(first.label.is_some());
        assert_eq!(center.axis, k);
        assert_eq!(center.radius, Rat { num: 0, den: 1 });
        assert_eq!(center.label, None);
        assert_eq!(again.axis, first.axis);
        assert_eq!(again.radius, first.radius);
        assert_eq!(again.label, first.label);
    }
}

#[test]
fn equal_orders_keep_encounter_order() {
    let descs = vec![desc("Second", 2, 5), desc("B", 1, 5), desc("A", 1, 5)];
    let chart = normalize(descs, vec![]).unwrap();
    assert_eq!(chart.label_ring[0].label, Some("B".to_string()));
    assert_eq!(chart.label_ring[3].label, Some("A".to_string()));
    assert_eq!(chart.label_ring[6].label, Some("Second".to_string()));
}

#[test]
fn equal_series_names_keep_encounter_order() {
    let descs = vec![desc("Foo", 1, 5)];
    let series = vec![
        ("same".to_string(), vec![val("Foo", 1, 0)]),
        ("same".to_string(), vec![val("Foo", 2, 0)]),
    ];
    let chart = normalize(descs, series).unwrap();
    assert_eq!(chart.series.len(), 2);
    assert_eq!(chart.series[0].1[0].radius, Rat { num: 1, den: 5 });
    assert_eq!(chart.series[1].1[0].radius, Rat { num: 2, den: 5 });
}

#[test]
fn single_axis_ring() {
    let chart = normalize(vec![desc("Only", 7, 5)], vec![]).unwrap();
    assert_eq!(chart.axes, 1);
    assert_eq!(chart.label_ring.len(), 3);
}

#[test]
fn no_descriptors_no_chart() {
    assert!(normalize(vec![], vec![("s".to_string(), vec![val("Foo", 1, 0)])]).is_none());
}

#[test]
fn zero_range_descriptors_are_excluded() {
    let descs = vec![desc("Foo", 1, 5), desc("Zero", 2, 0)];
    let series = vec![("s".to_string(), vec![val("Foo", 3, 0), val("Zero", 4, 0)])];
    let chart = normalize(descs, series).unwrap();
    // The zero-range axis still labels the ring but takes no data point.
    assert_eq!(chart.axes, 2);
    assert_eq!(chart.series.len(), 1);
    let pts = &chart.series[0].1;
    assert_eq!(pts.len(), 1);
    assert_eq!(pts[0].axis, 0);
    assert_eq!(pts[0].radius, Rat { num: 3, den: 5 });
}

#[test]
fn scale_uses_the_target_range() {
    let mut d = desc("Foo", 1, 5);
    d.target_range_end = Some(Dec { mant: 10, frac: 0 });
    let series = vec![("s".to_string(), vec![val("Foo", 3, 0)])];
    let chart = normalize(vec![d], series).unwrap();
    assert_eq!(chart.series[0].1[0].radius, Rat { num: 3, den: 10 });
}

#[test]
fn a_target_equal_to_the_range_scales_by_the_range() {
    let mut d = desc("Foo", 1, 5);
    d.target_range_end = Some(Dec { mant: 5, frac: 0 });
    let series = vec![("s".to_string(), vec![val("Foo", 25, 1)])];
    let chart = normalize(vec![d], series).unwrap();
    // 2.5 against [0, 5): the exact, unreduced quotient 25/50.
    assert_eq!(chart.series[0].1[0].radius, Rat { num: 25, den: 50 });
}

#[test]
fn series_sort_alphabetically_and_skip_missing_values() {
    let descs = vec![desc("Foo", 1, 5), desc("Bar", 2, 5)];
    let series = vec![
        ("zeta".to_string(), vec![val("Bar", 1, 0)]),
        ("alpha".to_string(), vec![val("Foo", 2, 0), val("Bar", 4, 0)]),
    ];
    let chart = normalize(descs, series).unwrap();
    assert_eq!(chart.series.len(), 2);
    assert_eq!(chart.series[0].0, "alpha".to_string());
    assert_eq!(chart.series[1].0, "zeta".to_string());
    // alpha covers both axes; zeta only the second.
    assert_eq!(chart.series[0].1.len(), 2);
    assert_eq!(chart.series[0].1[0].axis, 0);
    assert_eq!(chart.series[0].1[1].axis, 1);
    assert_eq!(chart.series[1].1.len(), 1);
    assert_eq!(chart.series[1].1[0].axis, 1);
    assert_eq!(chart.series[1].1[0].radius, Rat { num: 1, den: 5 });
}

#[test]
fn first_matching_value_wins() {
    let descs = vec![desc("Foo", 1, 5)];
    let series = vec![("s".to_string(), vec![val("Foo", 1, 0), val("Foo", 4, 0)])];
    let chart = normalize(descs, series).unwrap();
    assert_eq!(chart.series[0].1[0].radius, Rat { num: 1, den: 5 });
}

#[test]
fn empty_series_renders_nothing() {
    let descs = vec![desc("Foo", 1, 5)];
    let series = vec![("s".to_string(), vec![val("Other", 1, 0)])];
    let chart = normalize(descs, series).unwrap();
    assert_eq!(chart.series.len(), 1);
    assert!(chart.series[0].1.is_empty());
}

fn dim_desc_binding(name: &str, order: &str, range: &str, target: Option<&str>) -> DimDescBinding {
    DimDescBinding {
        name: lit(name),
        order: lit(order),
        range: lit(range),
        target_range: target.map(lit),
    }
}

#[test]
fn descriptor_rows_parse_and_bad_rows_drop() {
    let response = Response {
        results: Results {
            bindings: vec![
                dim_desc_binding("Foo", "1", "5", Some("5")),
                dim_desc_binding("Bar", "3", "5", Some("5")),
                dim_desc_binding("Dang", "2", "5", Some("5")),
                // Order fails to parse: the row is dropped whole.
                dim_desc_binding("Broken", "x", "5", None),
                // Range fails to parse: dropped too.
                dim_desc_binding("AlsoBroken", "4", "wide", None),
                // A bad target only degrades to an absent target.
                dim_desc_binding("Tolerant", "5", "5", Some("?")),
            ],
        },
    };
    let descs = dim_desc_from_response(response);
    assert_eq!(descs.len(), 4);
    assert_eq!(descs[0].name, "Foo".to_string());
    assert_eq!(descs[0].order, 1);
    assert_eq!(descs[0].range_end, Dec { mant: 5, frac: 0 });
    assert_eq!(descs[0].target_range_end, Some(Dec { mant: 5, frac: 0 }));
    assert_eq!(descs[3].name, "Tolerant".to_string());
    assert_eq!(descs[3].target_range_end, None);
}

#[test]
fn value_rows_parse_and_feed_the_chart() {
    let response = Response {
        results: Results {
            bindings: vec![
                DimValueBinding { d: lit("Foo"), v: lit("3") },
                DimValueBinding { d: lit("Bar"), v: lit("1") },
                DimValueBinding { d: lit("Dang"), v: lit("2") },
                DimValueBinding { d: lit("Bad"), v: lit("x") },
                DimValueBinding {
                    d: ObjectPropertyBinding {
                        binding_type: BindingType::Uri,
                        value: "Foo".to_string(),
                    },
                    v: lit("9"),
                },
            ],
        },
    };
    let values = dim_values_from_response(response);
    assert_eq!(values.len(), 3);
    assert_eq!(values[0].d, "Foo".to_string());
    assert_eq!(values[0].v, Dec { mant: 3, frac: 0 });

    let descs = dim_desc_from_response(Response {
        results: Results {
            bindings: vec![
                dim_desc_binding("Foo", "1", "5", Some("5")),
                dim_desc_binding("Bar", "3", "5", Some("5")),
                dim_desc_binding("Dang", "2", "5", Some("5")),
            ],
        },
    });
    let chart = normalize(descs, vec![("series".to_string(), values)]).unwrap();
    let pts = &chart.series[0].1;
    assert_eq!(pts.len(), 3);
    assert_eq!(pts[0].axis, 0);
    assert_eq!(pts[0].radius, Rat { num: 3, den: 5 });
    assert_eq!(pts[1].axis, 1);
    assert_eq!(pts[1].radius, Rat { num: 2, den: 5 });
    assert_eq!(pts[2].axis, 2);
    assert_eq!(pts[2].radius, Rat { num: 1, den: 5 });
}
