//! Materializing query-result rows into typed provenance records.
//!
//! Each record kind dispatches its known predicate identifiers to typed
//! fields: scalar fields keep the last written value, link fields append
//! in row order, and everything else lands in a generic property bag or
//! is dropped.

use vstd::prelude::*;

use crate::bindings::{
    BindingType, DimDescBinding, DimValueBinding, ObjectBinding, ObjectPropertyBinding, Response,
    SpatialEntityBinding,
};
use crate::geom::ShapeView;
use crate::geotext::{geometry_spec, parse_geometry};
use crate::models::{Activity, Agent, DimDesc, DimValue, Entity, Link, Provenance, ProvenanceKind};
use crate::numbers::{
    dec_parse_spec, dec_wf, parse_dec, parse_u64, u64_parse_spec, Dec,
};
use crate::seqs::{lemma_pick_map_permutation, pick_map};
use crate::text::str_eq;

verus! {

pub open spec fn rdfs_label_uri() -> Seq<char> {
    "http://www.w3.org/2000/01/rdf-schema#label"@
}

pub open spec fn prov_ended_at_uri() -> Seq<char> {
    "http://www.w3.org/ns/prov#endedAtTime"@
}

pub open spec fn prov_started_at_uri() -> Seq<char> {
    "http://www.w3.org/ns/prov#startedAtTime"@
}

pub open spec fn prov_generated_uri() -> Seq<char> {
    "http://www.w3.org/ns/prov#generated"@
}

pub open spec fn prov_influenced_uri() -> Seq<char> {
    "http://www.w3.org/ns/prov#influenced"@
}

pub open spec fn prov_used_uri() -> Seq<char> {
    "http://www.w3.org/ns/prov#used"@
}

pub open spec fn prov_was_associated_with_uri() -> Seq<char> {
    "http://www.w3.org/ns/prov#wasAssociatedWith"@
}

pub open spec fn prov_was_influenced_by_uri() -> Seq<char> {
    "http://www.w3.org/ns/prov#wasInfluencedBy"@
}

pub open spec fn prov_was_attributed_to_uri() -> Seq<char> {
    "http://www.w3.org/ns/prov#wasAttributedTo"@
}

pub open spec fn prov_was_derived_from_uri() -> Seq<char> {
    "http://www.w3.org/ns/prov#wasDerivedFrom"@
}

pub open spec fn prov_was_generated_by_uri() -> Seq<char> {
    "http://www.w3.org/ns/prov#wasGeneratedBy"@
}

pub open spec fn geojson_literal_uri() -> Seq<char> {
    "http://www.opengis.net/ont/geosparql#geoJSONLiteral"@
}

/// What chrono reads out of a date-time string: the microseconds since
/// the Unix epoch, if the string is a well-formed RFC 3339 date-time.
pub uninterp spec fn utc_micros_of(s: Seq<char>) -> Option<i64>;

/// Relies on chrono: `DateTime<Utc>` parses a relaxed RFC 3339 date-time
/// through its `FromStr`, and `timestamp_micros` turns the result into
/// microseconds since the Unix epoch.  Both depend on the characters of
/// `s` alone.
#[verifier::external_body]
fn parse_utc_micros(s: &str) -> (r: Option<i64>)
    ensures
        r == utc_micros_of(s@),
{
    s.parse::<chrono::DateTime<chrono::Utc>>().ok().map(|t| t.timestamp_micros())
}

/// A row whose predicate is the given URI.
pub open spec fn is_pred_row(o: ObjectBinding, pred: Seq<char>) -> bool {
    o.p.binding_type is Uri && o.p.value@ == pred
}

/// A label binding yields text only when it exists and is a literal.
pub open spec fn extract_label_spec(l: Option<ObjectPropertyBinding>) -> Option<String> {
    match l {
        Some(b) => if b.binding_type is Literal {
            Some(b.value)
        } else {
            None
        },
        None => None,
    }
}

pub open spec fn link_of(o: ObjectBinding) -> Link {
    Link { label: extract_label_spec(o.olabel), target: o.o.value }
}

/// The links appended, in row order, by the rows carrying this predicate.
pub open spec fn links_of(rows: Seq<ObjectBinding>, pred: Seq<char>) -> Seq<Link>
    decreases rows.len(),
{
    if rows.len() == 0 {
        Seq::empty()
    } else {
        let rest = links_of(rows.drop_last(), pred);
        if is_pred_row(rows.last(), pred) {
            rest.push(link_of(rows.last()))
        } else {
            rest
        }
    }
}

/// The rule that cuts link rows for one predicate out of the row list.
pub open spec fn link_pick(pred: Seq<char>) -> spec_fn(ObjectBinding) -> Option<Link> {
    |o: ObjectBinding|
        if is_pred_row(o, pred) {
            Some(link_of(o))
        } else {
            None
        }
}

proof fn lemma_links_of_is_pick(rows: Seq<ObjectBinding>, pred: Seq<char>)
    ensures
        links_of(rows, pred) == pick_map(rows, link_pick(pred)),
    decreases rows.len(),
{
    if rows.len() > 0 {
        lemma_links_of_is_pick(rows.drop_last(), pred);
        assert(link_pick(pred)(rows.last()) == (if is_pred_row(rows.last(), pred) {
            Some(link_of(rows.last()))
        } else {
            None::<Link>
        }));
    }
}

/// Materializing a permutation of the same rows yields, for every link
/// predicate, a link list that is the same multiset: only the recorded
/// order can differ.  The scalar and timestamp fields follow the given
/// row order, as their contracts state.
pub proof fn lemma_links_of_permutation(
    rows1: Seq<ObjectBinding>,
    rows2: Seq<ObjectBinding>,
    pred: Seq<char>,
)
    requires
        rows1.to_multiset() == rows2.to_multiset(),
    ensures
        links_of(rows1, pred).to_multiset() == links_of(rows2, pred).to_multiset(),
{
    lemma_links_of_is_pick(rows1, pred);
    lemma_links_of_is_pick(rows2, pred);
    lemma_pick_map_permutation(rows1, rows2, link_pick(pred));
}

/// The last row carrying this predicate, if any: scalar fields are
/// last-write-wins.
pub open spec fn last_match(rows: Seq<ObjectBinding>, pred: Seq<char>) -> Option<ObjectBinding>
    decreases rows.len(),
{
    if rows.len() == 0 {
        None
    } else if is_pred_row(rows.last(), pred) {
        Some(rows.last())
    } else {
        last_match(rows.drop_last(), pred)
    }
}

pub open spec fn value_field(rows: Seq<ObjectBinding>, pred: Seq<char>) -> Option<String> {
    match last_match(rows, pred) {
        Some(o) => Some(o.o.value),
        None => None,
    }
}

pub open spec fn time_field(rows: Seq<ObjectBinding>, pred: Seq<char>) -> Option<i64> {
    match last_match(rows, pred) {
        Some(o) => utc_micros_of(o.o.value@),
        None => None,
    }
}

/// The predicates an activity dispatches to typed fields.
pub open spec fn activity_pred(p: Seq<char>) -> bool {
    ||| p == prov_ended_at_uri()
    ||| p == rdfs_label_uri()
    ||| p == prov_generated_uri()
    ||| p == prov_influenced_uri()
    ||| p == prov_started_at_uri()
    ||| p == prov_used_uri()
    ||| p == prov_was_associated_with_uri()
    ||| p == prov_was_influenced_by_uri()
}

/// The predicates an agent dispatches to typed fields.
pub open spec fn agent_pred(p: Seq<char>) -> bool {
    ||| p == prov_influenced_uri()
    ||| p == rdfs_label_uri()
}

/// The predicates an entity dispatches to typed fields.
pub open spec fn entity_pred(p: Seq<char>) -> bool {
    ||| p == rdfs_label_uri()
    ||| p == prov_was_attributed_to_uri()
    ||| p == prov_was_derived_from_uri()
    ||| p == prov_was_generated_by_uri()
}

/// An unknown predicate lands in the property bag when its object is a
/// literal and the predicate itself has a literal label.
pub open spec fn prop_row(o: ObjectBinding) -> Option<(String, String)> {
    if o.o.binding_type is Literal {
        match extract_label_spec(o.plabel) {
            Some(l) => Some((l, o.o.value)),
            None => None,
        }
    } else {
        None
    }
}

pub open spec fn props_of(rows: Seq<ObjectBinding>, known: spec_fn(Seq<char>) -> bool) -> Seq<
    (String, String),
>
    decreases rows.len(),
{
    if rows.len() == 0 {
        Seq::empty()
    } else {
        let rest = props_of(rows.drop_last(), known);
        let o = rows.last();
        if o.p.binding_type is Uri && !known(o.p.value@) {
            match prop_row(o) {
                Some(p) => rest.push(p),
                None => rest,
            }
        } else {
            rest
        }
    }
}

/// The label binding yields text only when it is a literal.
pub fn extract_label(label: Option<ObjectPropertyBinding>) -> (r: Option<String>)
    ensures
        r == extract_label_spec(label),
{
    match label {
        Some(l) => {
            if l.binding_type == BindingType::Literal {
                Some(l.value)
            } else {
                None
            }
        },
        None => None,
    }
}

fn clone_label(l: &Option<ObjectPropertyBinding>) -> (r: Option<String>)
    ensures
        r == extract_label_spec(*l),
{
    match l {
        Some(b) => {
            if b.binding_type == BindingType::Literal {
                Some(b.value.clone())
            } else {
                None
            }
        },
        None => None,
    }
}

fn collect_links(rows: &Vec<ObjectBinding>, pred: &str) -> (r: Vec<Link>)
    ensures
        r@ == links_of(rows@, pred@),
{
    let mut out: Vec<Link> = Vec::new();
    let mut i: usize = 0;
    while i < rows.len()
        invariant
            i <= rows.len(),
            out@ == links_of(rows@.take(i as int), pred@),
        decreases rows.len() - i,
    {
        let o = &rows[i];
        proof {
            assert(rows@.take(i + 1).drop_last() =~= rows@.take(i as int));
            assert(rows@.take(i + 1).last() == rows@[i as int]);
        }
        if o.p.binding_type == BindingType::Uri && str_eq(o.p.value.as_str(), pred) {
            let link = Link { label: clone_label(&o.olabel), target: o.o.value.clone() };
            out.push(link);
        }
        i = i + 1;
    }
    proof {
        assert(rows@.take(rows@.len() as int) =~= rows@);
    }
    out
}

fn collect_value(rows: &Vec<ObjectBinding>, pred: &str) -> (r: Option<String>)
    ensures
        r == value_field(rows@, pred@),
{
    let mut cur: Option<String> = None;
    let mut i: usize = 0;
    while i < rows.len()
        invariant
            i <= rows.len(),
            cur == value_field(rows@.take(i as int), pred@),
        decreases rows.len() - i,
    {
        let o = &rows[i];
        proof {
            assert(rows@.take(i + 1).drop_last() =~= rows@.take(i as int));
            assert(rows@.take(i + 1).last() == rows@[i as int]);
        }
        if o.p.binding_type == BindingType::Uri && str_eq(o.p.value.as_str(), pred) {
            cur = Some(o.o.value.clone());
        }
        i = i + 1;
    }
    proof {
        assert(rows@.take(rows@.len() as int) =~= rows@);
    }
    cur
}

fn collect_time(rows: &Vec<ObjectBinding>, pred: &str) -> (r: Option<i64>)
    ensures
        r == time_field(rows@, pred@),
{
    let mut cur: Option<i64> = None;
    let mut i: usize = 0;
    while i < rows.len()
        invariant
            i <= rows.len(),
            cur == time_field(rows@.take(i as int), pred@),
        decreases rows.len() - i,
    {
        let o = &rows[i];
        proof {
            assert(rows@.take(i + 1).drop_last() =~= rows@.take(i as int));
            assert(rows@.take(i + 1).last() == rows@[i as int]);
        }
        if o.p.binding_type == BindingType::Uri && str_eq(o.p.value.as_str(), pred) {
            cur = parse_utc_micros(o.o.value.as_str());
        }
        i = i + 1;
    }
    proof {
        assert(rows@.take(rows@.len() as int) =~= rows@);
    }
    cur
}

fn prop_row_exec(o: &ObjectBinding) -> (r: Option<(String, String)>)
    ensures
        r == prop_row(*o),
{
    if o.o.binding_type == BindingType::Literal {
        match clone_label(&o.plabel) {
            Some(l) => Some((l, o.o.value.clone())),
            None => None,
        }
    } else {
        None
    }
}

fn collect_activity_props(rows: &Vec<ObjectBinding>) -> (r: Vec<(String, String)>)
    ensures
        r@ == props_of(rows@, |p: Seq<char>| activity_pred(p)),
{
    let ghost known = |p: Seq<char>| activity_pred(p);
    let mut out: Vec<(String, String)> = Vec::new();
    let mut i: usize = 0;
    while i < rows.len()
        invariant
            i <= rows.len(),
            out@ == props_of(rows@.take(i as int), known),
            known == (|p: Seq<char>| activity_pred(p)),
        decreases rows.len() - i,
    {
        let o = &rows[i];
        proof {
            assert(rows@.take(i + 1).drop_last() =~= rows@.take(i as int));
            assert(rows@.take(i + 1).last() == rows@[i as int]);
        }
        if o.p.binding_type == BindingType::Uri {
            let p = o.p.value.as_str();
            let is_known = str_eq(p, "http://www.w3.org/ns/prov#endedAtTime") || str_eq(
                p,
                "http://www.w3.org/2000/01/rdf-schema#label",
            ) || str_eq(p, "http://www.w3.org/ns/prov#generated") || str_eq(
                p,
                "http://www.w3.org/ns/prov#influenced",
            ) || str_eq(p, "http://www.w3.org/ns/prov#startedAtTime") || str_eq(
                p,
                "http://www.w3.org/ns/prov#used",
            ) || str_eq(p, "http://www.w3.org/ns/prov#wasAssociatedWith") || str_eq(
                p,
                "http://www.w3.org/ns/prov#wasInfluencedBy",
            );
            assert(is_known == activity_pred(o.p.value@));
            if !is_known {
                match prop_row_exec(o) {
                    Some(pr) => {
                        out.push(pr);
                    },
                    None => {},
                }
            }
        }
        i = i + 1;
    }
    proof {
        assert(rows@.take(rows@.len() as int) =~= rows@);
    }
    out
}

fn collect_agent_props(rows: &Vec<ObjectBinding>) -> (r: Vec<(String, String)>)
    ensures
        r@ == props_of(rows@, |p: Seq<char>| agent_pred(p)),
{
    let ghost known = |p: Seq<char>| agent_pred(p);
    let mut out: Vec<(String, String)> = Vec::new();
    let mut i: usize = 0;
    while i < rows.len()
        invariant
            i <= rows.len(),
            out@ == props_of(rows@.take(i as int), known),
            known == (|p: Seq<char>| agent_pred(p)),
        decreases rows.len() - i,
    {
        let o = &rows[i];
        proof {
            assert(rows@.take(i + 1).drop_last() =~= rows@.take(i as int));
            assert(rows@.take(i + 1).last() == rows@[i as int]);
        }
        if o.p.binding_type == BindingType::Uri {
            let p = o.p.value.as_str();
            let is_known = str_eq(p, "http://www.w3.org/ns/prov#influenced") || str_eq(
                p,
                "http://www.w3.org/2000/01/rdf-schema#label",
            );
            assert(is_known == agent_pred(o.p.value@));
            if !is_known {
                match prop_row_exec(o) {
                    Some(pr) => {
                        out.push(pr);
                    },
                    None => {},
                }
            }
        }
        i = i + 1;
    }
    proof {
        assert(rows@.take(rows@.len() as int) =~= rows@);
    }
    out
}

fn collect_entity_props(rows: &Vec<ObjectBinding>) -> (r: Vec<(String, String)>)
    ensures
        r@ == props_of(rows@, |p: Seq<char>| entity_pred(p)),
{
    let ghost known = |p: Seq<char>| entity_pred(p);
    let mut out: Vec<(String, String)> = Vec::new();
    let mut i: usize = 0;
    while i < rows.len()
        invariant
            i <= rows.len(),
            out@ == props_of(rows@.take(i as int), known),
            known == (|p: Seq<char>| entity_pred(p)),
        decreases rows.len() - i,
    {
        let o = &rows[i];
        proof {
            assert(rows@.take(i + 1).drop_last() =~= rows@.take(i as int));
            assert(rows@.take(i + 1).last() == rows@[i as int]);
        }
        if o.p.binding_type == BindingType::Uri {
            let p = o.p.value.as_str();
            let is_known = str_eq(p, "http://www.w3.org/2000/01/rdf-schema#label") || str_eq(
                p,
                "http://www.w3.org/ns/prov#wasAttributedTo",
            ) || str_eq(p, "http://www.w3.org/ns/prov#wasDerivedFrom") || str_eq(
                p,
                "http://www.w3.org/ns/prov#wasGeneratedBy",
            );
            assert(is_known == entity_pred(o.p.value@));
            if !is_known {
                match prop_row_exec(o) {
                    Some(pr) => {
                        out.push(pr);
                    },
                    None => {},
                }
            }
        }
        i = i + 1;
    }
    proof {
        assert(rows@.take(rows@.len() as int) =~= rows@);
    }
    out
}

/// Groups the relationship rows of one activity subject into a record.
pub fn activity_from_response(response: Response<ObjectBinding>) -> (res: Activity)
    ensures
        res.ended_at == time_field(response.results.bindings@, prov_ended_at_uri()),
        res.started_at == time_field(response.results.bindings@, prov_started_at_uri()),
        res.label == value_field(response.results.bindings@, rdfs_label_uri()),
        res.generated@ == links_of(response.results.bindings@, prov_generated_uri()),
        res.influenced@ == links_of(response.results.bindings@, prov_influenced_uri()),
        res.used@ == links_of(response.results.bindings@, prov_used_uri()),
        res.was_associated_with@ == links_of(
            response.results.bindings@,
            prov_was_associated_with_uri(),
        ),
        res.was_influenced_by@ == links_of(
            response.results.bindings@,
            prov_was_influenced_by_uri(),
        ),
        res.properties@ == props_of(response.results.bindings@, |p: Seq<char>| activity_pred(p)),
{
    let rows = &response.results.bindings;
    Activity {
        ended_at: collect_time(rows, "http://www.w3.org/ns/prov#endedAtTime"),
        generated: collect_links(rows, "http://www.w3.org/ns/prov#generated"),
        influenced: collect_links(rows, "http://www.w3.org/ns/prov#influenced"),
        label: collect_value(rows, "http://www.w3.org/2000/01/rdf-schema#label"),
        properties: collect_activity_props(rows),
        started_at: collect_time(rows, "http://www.w3.org/ns/prov#startedAtTime"),
        used: collect_links(rows, "http://www.w3.org/ns/prov#used"),
        was_associated_with: collect_links(rows, "http://www.w3.org/ns/prov#wasAssociatedWith"),
        was_influenced_by: collect_links(rows, "http://www.w3.org/ns/prov#wasInfluencedBy"),
    }
}

/// Groups the relationship rows of one agent subject into a record.
pub fn agent_from_response(response: Response<ObjectBinding>) -> (res: Agent)
    ensures
        res.influenced@ == links_of(response.results.bindings@, prov_influenced_uri()),
        res.label == value_field(response.results.bindings@, rdfs_label_uri()),
        res.properties@ == props_of(response.results.bindings@, |p: Seq<char>| agent_pred(p)),
{
    let rows = &response.results.bindings;
    Agent {
        influenced: collect_links(rows, "http://www.w3.org/ns/prov#influenced"),
        label: collect_value(rows, "http://www.w3.org/2000/01/rdf-schema#label"),
        properties: collect_agent_props(rows),
    }
}

/// Groups the relationship rows of one entity subject into a record.
/// The geometry always stays absent here; spatial queries fill it.
pub fn entity_from_response(response: Response<ObjectBinding>) -> (res: Entity)
    ensures
        res.geometry is None,
        res.label == value_field(response.results.bindings@, rdfs_label_uri()),
        res.was_attributed_to@ == links_of(
            response.results.bindings@,
            prov_was_attributed_to_uri(),
        ),
        res.was_derived_from@ == links_of(response.results.bindings@, prov_was_derived_from_uri()),
        res.was_generated_by@ == links_of(response.results.bindings@, prov_was_generated_by_uri()),
        res.properties@ == props_of(response.results.bindings@, |p: Seq<char>| entity_pred(p)),
{
    let rows = &response.results.bindings;
    Entity {
        geometry: None,
        label: collect_value(rows, "http://www.w3.org/2000/01/rdf-schema#label"),
        properties: collect_entity_props(rows),
        was_attributed_to: collect_links(rows, "http://www.w3.org/ns/prov#wasAttributedTo"),
        was_derived_from: collect_links(rows, "http://www.w3.org/ns/prov#wasDerivedFrom"),
        was_generated_by: collect_links(rows, "http://www.w3.org/ns/prov#wasGeneratedBy"),
    }
}

/// Groups the relationship rows of one subject into the record variant
/// the caller asked for.  Rows that fit no field of that variant
/// degrade as each variant specifies; no input ever fails.
pub fn materialize(kind: ProvenanceKind, response: Response<ObjectBinding>) -> (r: Provenance)
    ensures
        ({
            let rows = response.results.bindings@;
            match r {
                Provenance::Activity(a) => {
                    &&& kind is Activity
                    &&& a.ended_at == time_field(rows, prov_ended_at_uri())
                    &&& a.started_at == time_field(rows, prov_started_at_uri())
                    &&& a.label == value_field(rows, rdfs_label_uri())
                    &&& a.generated@ == links_of(rows, prov_generated_uri())
                    &&& a.influenced@ == links_of(rows, prov_influenced_uri())
                    &&& a.used@ == links_of(rows, prov_used_uri())
                    &&& a.was_associated_with@ == links_of(rows, prov_was_associated_with_uri())
                    &&& a.was_influenced_by@ == links_of(rows, prov_was_influenced_by_uri())
                    &&& a.properties@ == props_of(rows, |p: Seq<char>| activity_pred(p))
                },
                Provenance::Agent(a) => {
                    &&& kind is Agent
                    &&& a.influenced@ == links_of(rows, prov_influenced_uri())
                    &&& a.label == value_field(rows, rdfs_label_uri())
                    &&& a.properties@ == props_of(rows, |p: Seq<char>| agent_pred(p))
                },
                Provenance::Entity(e) => {
                    &&& kind is Entity
                    &&& e.geometry is None
                    &&& e.label == value_field(rows, rdfs_label_uri())
                    &&& e.was_attributed_to@ == links_of(rows, prov_was_attributed_to_uri())
                    &&& e.was_derived_from@ == links_of(rows, prov_was_derived_from_uri())
                    &&& e.was_generated_by@ == links_of(rows, prov_was_generated_by_uri())
                    &&& e.properties@ == props_of(rows, |p: Seq<char>| entity_pred(p))
                },
            }
        }),
{
    match kind {
        ProvenanceKind::Activity => Provenance::Activity(
            Box::new(activity_from_response(response)),
        ),
        ProvenanceKind::Agent => Provenance::Agent(Box::new(agent_from_response(response))),
        ProvenanceKind::Entity => Provenance::Entity(Box::new(entity_from_response(response))),
    }
}

/// What one descriptor row parses to.  A row whose name, order or range
/// does not parse is dropped whole; a bad target range only degrades to
/// an absent target.
pub open spec fn dim_desc_row(b: DimDescBinding) -> Option<DimDesc> {
    if b.name.binding_type is Literal && b.order.binding_type is Literal
        && b.range.binding_type is Literal {
        match (u64_parse_spec(b.order.value@), dec_parse_spec(b.range.value@)) {
            (Some(order), Some(range_end)) => Some(
                DimDesc {
                    name: b.name.value,
                    order,
                    range_end,
                    target_range_end: match b.target_range {
                        Some(t) => if t.binding_type is Literal {
                            dec_parse_spec(t.value@)
                        } else {
                            None
                        },
                        None => None,
                    },
                },
            ),
            _ => None,
        }
    } else {
        None
    }
}

pub open spec fn dim_descs_of(bs: Seq<DimDescBinding>) -> Seq<DimDesc>
    decreases bs.len(),
{
    if bs.len() == 0 {
        Seq::empty()
    } else {
        let rest = dim_descs_of(bs.drop_last());
        match dim_desc_row(bs.last()) {
            Some(d) => rest.push(d),
            None => rest,
        }
    }
}

/// A descriptor the parser emitted has well-formed decimals.
pub open spec fn dim_desc_wf(d: DimDesc) -> bool {
    &&& dec_wf(d.range_end)
    &&& (d.target_range_end matches Some(t) ==> dec_wf(t))
}

pub proof fn lemma_dim_desc_row_wf(b: DimDescBinding)
    ensures
        dim_desc_row(b) matches Some(d) ==> dim_desc_wf(d),
{
    crate::numbers::lemma_dec_parse_wf(b.range.value@);
    match b.target_range {
        Some(t) => {
            crate::numbers::lemma_dec_parse_wf(t.value@);
        },
        None => {},
    }
}

/// Parses descriptor rows, dropping every row that does not fully parse.
pub fn dim_desc_from_response(response: Response<DimDescBinding>) -> (r: Vec<DimDesc>)
    ensures
        r@ == dim_descs_of(response.results.bindings@),
        forall|i: int| 0 <= i < r@.len() ==> dim_desc_wf(#[trigger] r@[i]),
{
    let ghost orig = response.results.bindings@;
    let mut bs = response.results.bindings;
    let mut out: Vec<DimDesc> = Vec::new();
    let ghost mut i: int = 0;
    while bs.len() > 0
        invariant
            0 <= i,
            i + bs.len() == orig.len(),
            bs@ == orig.skip(i),
            out@ == dim_descs_of(orig.take(i)),
            forall|k: int| 0 <= k < out@.len() ==> dim_desc_wf(#[trigger] out@[k]),
        decreases bs.len(),
    {
        let b = bs.remove(0);
        proof {
            assert(b == orig[i]);
            assert(orig.skip(i).remove(0) =~= orig.skip(i + 1));
            assert(orig.take(i + 1).drop_last() =~= orig.take(i));
            assert(orig.take(i + 1).last() == orig[i]);
            lemma_dim_desc_row_wf(orig[i]);
        }
        if b.name.binding_type == BindingType::Literal && b.order.binding_type
            == BindingType::Literal && b.range.binding_type == BindingType::Literal {
            let order = parse_u64(b.order.value.as_str());
            let range_end = parse_dec(b.range.value.as_str());
            match (order, range_end) {
                (Some(order), Some(range_end)) => {
                    let target_range_end = match &b.target_range {
                        Some(t) => {
                            if t.binding_type == BindingType::Literal {
                                parse_dec(t.value.as_str())
                            } else {
                                None
                            }
                        },
                        None => None,
                    };
                    out.push(
                        DimDesc { name: b.name.value, order, range_end, target_range_end },
                    );
                },
                _ => {},
            }
        }
        proof {
            i = i + 1;
        }
    }
    proof {
        assert(orig.take(orig.len() as int) =~= orig);
    }
    out
}

/// What one value row parses to.
pub open spec fn dim_value_row(b: DimValueBinding) -> Option<DimValue> {
    if b.d.binding_type is Literal && b.v.binding_type is Literal {
        match dec_parse_spec(b.v.value@) {
            Some(v) => Some(DimValue { d: b.d.value, v }),
            None => None,
        }
    } else {
        None
    }
}

pub open spec fn dim_values_of(bs: Seq<DimValueBinding>) -> Seq<DimValue>
    decreases bs.len(),
{
    if bs.len() == 0 {
        Seq::empty()
    } else {
        let rest = dim_values_of(bs.drop_last());
        match dim_value_row(bs.last()) {
            Some(v) => rest.push(v),
            None => rest,
        }
    }
}

pub open spec fn dim_value_wf(v: DimValue) -> bool {
    dec_wf(v.v)
}

/// Parses measurement rows, dropping every row that does not parse.
pub fn dim_values_from_response(response: Response<DimValueBinding>) -> (r: Vec<DimValue>)
    ensures
        r@ == dim_values_of(response.results.bindings@),
        forall|i: int| 0 <= i < r@.len() ==> dim_value_wf(#[trigger] r@[i]),
{
    let ghost orig = response.results.bindings@;
    let mut bs = response.results.bindings;
    let mut out: Vec<DimValue> = Vec::new();
    let ghost mut i: int = 0;
    while bs.len() > 0
        invariant
            0 <= i,
            i + bs.len() == orig.len(),
            bs@ == orig.skip(i),
            out@ == dim_values_of(orig.take(i)),
            forall|k: int| 0 <= k < out@.len() ==> dim_value_wf(#[trigger] out@[k]),
        decreases bs.len(),
    {
        let b = bs.remove(0);
        proof {
            assert(b == orig[i]);
            assert(orig.skip(i).remove(0) =~= orig.skip(i + 1));
            assert(orig.take(i + 1).drop_last() =~= orig.take(i));
            assert(orig.take(i + 1).last() == orig[i]);
            crate::numbers::lemma_dec_parse_wf(orig[i].v.value@);
        }
        if b.d.binding_type == BindingType::Literal && b.v.binding_type == BindingType::Literal {
            match parse_dec(b.v.value.as_str()) {
                Some(v) => {
                    out.push(DimValue { d: b.d.value, v });
                },
                None => {},
            }
        }
        proof {
            i = i + 1;
        }
    }
    proof {
        assert(orig.take(orig.len() as int) =~= orig);
    }
    out
}

/// A spatial row is kept when its entity is a URI and its geometry
/// column is a literal of the recognized GeoJSON datatype whose text
/// decodes to a shape.
pub open spec fn spatial_accepts(b: SpatialEntityBinding) -> bool {
    &&& b.entity.binding_type is Uri
    &&& b.geojson.binding_type is Literal
    &&& b.geojson.datatype@ == geojson_literal_uri()
    &&& geometry_spec(b.geojson.value@) is Some
}

/// The accepted rows, in order: identifier, optional label, shape.
pub open spec fn spatial_rows(bs: Seq<SpatialEntityBinding>) -> Seq<
    (String, Option<String>, ShapeView),
>
    decreases bs.len(),
{
    if bs.len() == 0 {
        Seq::empty()
    } else {
        let rest = spatial_rows(bs.drop_last());
        if spatial_accepts(bs.last()) {
            rest.push(
                (
                    bs.last().entity.value,
                    extract_label_spec(bs.last().label),
                    geometry_spec(bs.last().geojson.value@)->0,
                ),
            )
        } else {
            rest
        }
    }
}

/// How the returned entities relate to the accepted rows: same order,
/// the decoded shape owned by the entity, every other field empty.
pub open spec fn spatial_results_match(
    out: Seq<(String, Entity)>,
    picked: Seq<(String, Option<String>, ShapeView)>,
) -> bool {
    &&& out.len() == picked.len()
    &&& forall|j: int|
        0 <= j < out.len() ==> {
            &&& (#[trigger] out[j]).0 == picked[j].0
            &&& out[j].1.label == picked[j].1
            &&& out[j].1.geometry matches Some(g) && g@ == picked[j].2
            &&& out[j].1.properties@.len() == 0
            &&& out[j].1.was_attributed_to@.len() == 0
            &&& out[j].1.was_derived_from@.len() == 0
            &&& out[j].1.was_generated_by@.len() == 0
        }
}

/// Keeps the spatial rows whose entity is a URI and whose geometry
/// literal carries the recognized datatype and decodes, each as an
/// entity owning its decoded shape.
pub fn spatial_entities_from_response(response: Response<SpatialEntityBinding>) -> (r: Vec<
    (String, Entity),
>)
    ensures
        spatial_results_match(r@, spatial_rows(response.results.bindings@)),
        forall|j: int|
            0 <= j < r@.len() ==> ((#[trigger] r@[j]).1.geometry matches Some(g)
                ==> crate::geom::shape_wf(g@)),
{
    let ghost borig = response.results.bindings@;
    let mut bs = response.results.bindings;
    let mut out: Vec<(String, Entity)> = Vec::new();
    let ghost mut i: int = 0;
    while bs.len() > 0
        invariant
            0 <= i,
            i + bs.len() == borig.len(),
            bs@ == borig.skip(i),
            spatial_results_match(out@, spatial_rows(borig.take(i))),
            forall|j: int|
                0 <= j < out@.len() ==> ((#[trigger] out@[j]).1.geometry matches Some(g)
                    ==> crate::geom::shape_wf(g@)),
        decreases bs.len(),
    {
        let b = bs.remove(0);
        proof {
            assert(b == borig[i]);
            assert(borig.skip(i).remove(0) =~= borig.skip(i + 1));
            assert(borig.take(i + 1).drop_last() =~= borig.take(i));
            assert(borig.take(i + 1).last() == borig[i]);
        }
        if b.entity.binding_type == BindingType::Uri && b.geojson.binding_type
            == BindingType::Literal && str_eq(
            b.geojson.datatype.as_str(),
            "http://www.opengis.net/ont/geosparql#geoJSONLiteral",
        ) {
            match parse_geometry(b.geojson.value.as_str()) {
                Some(shape) => {
                    let label = extract_label(b.label);
                    let entity = Entity {
                        geometry: Some(shape),
                        label,
                        properties: Vec::new(),
                        was_attributed_to: Vec::new(),
                        was_derived_from: Vec::new(),
                        was_generated_by: Vec::new(),
                    };
                    out.push((b.entity.value, entity));
                },
                None => {},
            }
        }
        proof {
            i = i + 1;
        }
    }
    proof {
        assert(borig.take(borig.len() as int) =~= borig);
    }
    out
}

} // verus!
