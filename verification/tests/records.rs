use provviz::bindings::{
    BindingType, ObjectBinding, ObjectPropertyBinding, Response, Results,
};
use provviz::models::{Provenance, ProvenanceKind};
use provviz::sparql::{
    activity_from_response, agent_from_response, entity_from_response, extract_label, materialize,
};

fn b(kind: BindingType, value: &str) -> ObjectPropertyBinding {
    ObjectPropertyBinding { binding_type: kind, value: value.to_string() }
}

fn row(
    p: ObjectPropertyBinding,
    plabel: Option<ObjectPropertyBinding>,
    o: ObjectPropertyBinding,
    olabel: Option<ObjectPropertyBinding>,
) -> ObjectBinding {
    ObjectBinding { p, plabel, o, olabel }
}

fn response(rows: Vec<ObjectBinding>) -> Response<ObjectBinding> {
    Response { results: Results { bindings: rows } }
}

const LABEL: &str = "http://www.w3.org/2000/01/rdf-schema#label";
const DERIVED: &str = "http://www.w3.org/ns/prov#wasDerivedFrom";
const GENERATED_BY: &str = "http://www.w3.org/ns/prov#wasGeneratedBy";
const USED: &str = "http://www.w3.org/ns/prov#used";
const GENERATED: &str = "http://www.w3.org/ns/prov#generated";
const ENDED: &str = "http://www.w3.org/ns/prov#endedAtTime";
const INFLUENCED: &str = "http://www.w3.org/ns/prov#influenced";

#[test]
fn entity_scenario() {
    let rows = vec![
        row(b(BindingType::Uri, LABEL), None, b(BindingType::Literal, "C"), None),
        row(
            b(BindingType::Uri, DERIVED),
            None,
            b(BindingType::Uri, "a"),
            Some(b(BindingType::Literal, "A")),
        ),
        row(
            b(BindingType::Uri, DERIVED),
            None,
            b(BindingType::Uri, "b"),
            Some(b(BindingType::Literal, "B")),
        ),
    ];
    let e = entity_from_response(response(rows));
    assert_eq!(e.label, Some("C".to_string()));
    assert_eq!(e.was_derived_from.len(), 2);
    assert_eq!(e.was_derived_from[0].label, Some("A".to_string()));
    assert_eq!(e.was_derived_from[0].target, "a".to_string());
    assert_eq!(e.was_derived_from[1].label, Some("B".to_string()));
    assert_eq!(e.was_derived_from[1].target, "b".to_string());
    assert!(e.geometry.is_none());
    assert!(e.was_generated_by.is_empty());
    assert!(e.was_attributed_to.is_empty());
    assert!(e.properties.is_empty());
}

#[test]
fn scalar_fields_take_the_last_row() {
    let rows = vec![
        row(b(BindingType::Uri, LABEL), None, b(BindingType::Literal, "first"), None),
        row(b(BindingType::Uri, LABEL), None, b(BindingType::Literal, "second"), None),
    ];
    let e = entity_from_response(response(rows));
    assert_eq!(e.label, Some("second".to_string()));
}

#[test]
fn timestamps_parse_and_clobber() {
    let rows = vec![row(
        b(BindingType::Uri, ENDED),
        None,
        b(BindingType::Literal, "2029-01-01T20:05:19Z"),
        None,
    )];
    let a = activity_from_response(response(rows));
    assert_eq!(a.ended_at, Some(1_861_992_319_000_000));
    assert_eq!(a.started_at, None);

    // A later row overwrites even when its value does not parse.
    let rows = vec![
        row(b(BindingType::Uri, ENDED), None, b(BindingType::Literal, "2029-01-01T20:05:19Z"), None),
        row(b(BindingType::Uri, ENDED), None, b(BindingType::Literal, "not a date"), None),
    ];
    let a = activity_from_response(response(rows));
    assert_eq!(a.ended_at, None);
}

#[test]
fn activity_collects_links_in_order() {
    let rows = vec![
        row(b(BindingType::Uri, USED), None, b(BindingType::Uri, "a"), Some(b(BindingType::Literal, "A"))),
        row(b(BindingType::Uri, GENERATED), None, b(BindingType::Uri, "c"), Some(b(BindingType::Literal, "C"))),
        row(b(BindingType::Uri, USED), None, b(BindingType::Uri, "b"), None),
    ];
    let a = activity_from_response(response(rows));
    assert_eq!(a.used.len(), 2);
    assert_eq!(a.used[0].target, "a".to_string());
    assert_eq!(a.used[1].target, "b".to_string());
    assert_eq!(a.used[1].label, None);
    assert_eq!(a.generated.len(), 1);
    assert_eq!(a.generated[0].label, Some("C".to_string()));
    assert!(a.influenced.is_empty());
    assert!(a.was_associated_with.is_empty());
    assert!(a.was_influenced_by.is_empty());
}

#[test]
fn permuted_link_rows_keep_the_same_links() {
    let r1 = || row(b(BindingType::Uri, USED), None, b(BindingType::Uri, "a"), Some(b(BindingType::Literal, "A")));
    let r2 = || row(b(BindingType::Uri, USED), None, b(BindingType::Uri, "b"), Some(b(BindingType::Literal, "B")));
    let fwd = activity_from_response(response(vec![r1(), r2()]));
    let rev = activity_from_response(response(vec![r2(), r1()]));
    let mut fwd_targets: Vec<String> = fwd.used.iter().map(|l| l.target.clone()).collect();
    let mut rev_targets: Vec<String> = rev.used.iter().map(|l| l.target.clone()).collect();
    fwd_targets.sort();
    rev_targets.sort();
    assert_eq!(fwd_targets, rev_targets);
}

#[test]
fn unknown_predicates_fill_the_property_bag() {
    let rows = vec![
        // Unknown predicate with a labeled literal object: kept.
        row(
            b(BindingType::Uri, "http://example.com/vocab#note"),
            Some(b(BindingType::Literal, "Note")),
            b(BindingType::Literal, "hello"),
            None,
        ),
        // Unknown predicate whose object is a URI: dropped.
        row(
            b(BindingType::Uri, "http://example.com/vocab#seeAlso"),
            Some(b(BindingType::Literal, "See also")),
            b(BindingType::Uri, "http://example.com/other"),
            None,
        ),
        // Unknown predicate without a predicate label: dropped.
        row(
            b(BindingType::Uri, "http://example.com/vocab#hidden"),
            None,
            b(BindingType::Literal, "x"),
            None,
        ),
        // Predicate label of the wrong kind: dropped.
        row(
            b(BindingType::Uri, "http://example.com/vocab#odd"),
            Some(b(BindingType::Uri, "http://example.com/label")),
            b(BindingType::Literal, "y"),
            None,
        ),
        // Malformed predicate binding: the whole row is ignored.
        row(b(BindingType::Literal, LABEL), None, b(BindingType::Literal, "Z"), None),
    ];
    let e = entity_from_response(response(rows));
    assert_eq!(e.properties.len(), 1);
    assert_eq!(e.properties[0].0, "Note".to_string());
    assert_eq!(e.properties[0].1, "hello".to_string());
    assert_eq!(e.label, None);
}

#[test]
fn agent_record() {
    let rows = vec![
        row(
            b(BindingType::Uri, INFLUENCED),
            None,
            b(BindingType::Uri, "http://example.com/activities/router-q2"),
            Some(b(BindingType::Literal, "Route Geometry Extraction")),
        ),
        row(b(BindingType::Uri, LABEL), None, b(BindingType::Literal, "Generic model"), None),
    ];
    let a = agent_from_response(response(rows));
    assert_eq!(a.label, Some("Generic model".to_string()));
    assert_eq!(a.influenced.len(), 1);
    assert_eq!(a.influenced[0].label, Some("Route Geometry Extraction".to_string()));
    assert!(a.properties.is_empty());
}

#[test]
fn agent_keeps_generated_as_generic_property_only_if_literal() {
    // A predicate an activity knows but an agent does not, with a URI
    // object: the agent drops it.
    let rows = vec![row(
        b(BindingType::Uri, GENERATED_BY),
        Some(b(BindingType::Literal, "Generated by")),
        b(BindingType::Uri, "http://example.com/x"),
        None,
    )];
    let a = agent_from_response(response(rows));
    assert!(a.properties.is_empty());
    assert!(a.influenced.is_empty());
}

#[test]
fn materialize_populates_exactly_the_requested_variant() {
    let rows = || vec![
        row(b(BindingType::Uri, LABEL), None, b(BindingType::Literal, "X"), None),
        row(b(BindingType::Uri, INFLUENCED), None, b(BindingType::Uri, "y"), None),
    ];
    match materialize(ProvenanceKind::Activity, response(rows())) {
        Provenance::Activity(a) => {
            assert_eq!(a.label, Some("X".to_string()));
            assert_eq!(a.influenced.len(), 1);
        },
        _ => panic!("expected an activity"),
    }
    match materialize(ProvenanceKind::Agent, response(rows())) {
        Provenance::Agent(a) => {
            assert_eq!(a.label, Some("X".to_string()));
            assert_eq!(a.influenced.len(), 1);
        },
        _ => panic!("expected an agent"),
    }
    match materialize(ProvenanceKind::Entity, response(rows())) {
        Provenance::Entity(e) => {
            assert_eq!(e.label, Some("X".to_string()));
            // An entity has no field for this predicate, and the object
            // is no literal: the row is dropped.
            assert!(e.properties.is_empty());
        },
        _ => panic!("expected an entity"),
    }
}

#[test]
fn extract_label_requires_a_literal() {
    assert_eq!(extract_label(None), None);
    assert_eq!(extract_label(Some(b(BindingType::Uri, "x"))), None);
    assert_eq!(extract_label(Some(b(BindingType::Literal, "x"))), Some("x".to_string()));
}
