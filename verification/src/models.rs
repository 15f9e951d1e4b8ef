//! The typed provenance records and chart inputs that the query rows
//! materialize into.

use vstd::prelude::*;

use crate::geom::GeoShape;
use crate::numbers::Dec;

verus! {

/// A labeled reference to another record by identifier.
#[derive(Debug)]
pub struct Link {
    pub label: Option<String>,
    pub target: String,
}

/// An activity record.  Timestamps are microseconds since the Unix
/// epoch, in UTC; a field no row filled stays empty.
#[derive(Debug)]
pub struct Activity {
    pub ended_at: Option<i64>,
    pub generated: Vec<Link>,
    pub influenced: Vec<Link>,
    pub label: Option<String>,
    pub properties: Vec<(String, String)>,
    pub started_at: Option<i64>,
    pub used: Vec<Link>,
    pub was_associated_with: Vec<Link>,
    pub was_influenced_by: Vec<Link>,
}

/// An agent record.
#[derive(Debug)]
pub struct Agent {
    pub influenced: Vec<Link>,
    pub label: Option<String>,
    pub properties: Vec<(String, String)>,
}

/// An entity record, optionally carrying a planar shape.
#[derive(Debug)]
pub struct Entity {
    pub geometry: Option<GeoShape>,
    pub label: Option<String>,
    pub properties: Vec<(String, String)>,
    pub was_attributed_to: Vec<Link>,
    pub was_derived_from: Vec<Link>,
    pub was_generated_by: Vec<Link>,
}

/// A dimension descriptor: a named axis with a display order, the end of
/// its native range `[0, range_end)` and, optionally, the end of a target
/// range `[0, target_range_end)`.
#[derive(Debug)]
pub struct DimDesc {
    pub name: String,
    pub order: u64,
    pub range_end: Dec,
    pub target_range_end: Option<Dec>,
}

/// A raw measurement of the dimension named `d`.
#[derive(Debug)]
pub struct DimValue {
    pub d: String,
    pub v: Dec,
}

/// Exactly one variant is populated per subject.
#[derive(Debug)]
pub enum Provenance {
    Activity(Box<Activity>),
    Agent(Box<Agent>),
    Entity(Box<Entity>),
}

/// Which record variant a subject's rows materialize into.
#[derive(Clone, Copy, Debug, PartialEq, Eq, Structural)]
pub enum ProvenanceKind {
    Activity,
    Agent,
    Entity,
}

} // verus!
