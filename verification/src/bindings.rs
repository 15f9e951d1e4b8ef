//! The shape of a query-result table: rows of typed bindings.
//!
//! Every value a query returns arrives as one binding: a kind (URI,
//! literal or blank node) and its string.  The row structs below mirror
//! the columns of the individual queries.

use vstd::prelude::*;

verus! {

/// The kind of one bound value.
#[derive(Clone, Copy, Debug, PartialEq, Eq, Structural)]
pub enum BindingType {
    Bnode,
    Literal,
    Uri,
}

/// A geometry column: a typed literal whose datatype names the encoding.
#[derive(Debug)]
pub struct GeoJsonBinding {
    pub binding_type: BindingType,
    pub datatype: String,
    pub value: String,
}

/// An ordinary column: a kind and its string.
#[derive(Debug)]
pub struct ObjectPropertyBinding {
    pub binding_type: BindingType,
    pub value: String,
}

/// One row of a dimension-descriptor query.
#[derive(Debug)]
pub struct DimDescBinding {
    pub name: ObjectPropertyBinding,
    pub order: ObjectPropertyBinding,
    pub range: ObjectPropertyBinding,
    pub target_range: Option<ObjectPropertyBinding>,
}

/// One row of a dimension-value query.
#[derive(Debug)]
pub struct DimValueBinding {
    pub d: ObjectPropertyBinding,
    pub v: ObjectPropertyBinding,
}

/// One relationship row: predicate, object and their optional labels.
#[derive(Debug)]
pub struct ObjectBinding {
    pub p: ObjectPropertyBinding,
    pub plabel: Option<ObjectPropertyBinding>,
    pub o: ObjectPropertyBinding,
    pub olabel: Option<ObjectPropertyBinding>,
}

/// One row of a spatial-entity query.
#[derive(Debug)]
pub struct SpatialEntityBinding {
    pub entity: ObjectPropertyBinding,
    pub label: Option<ObjectPropertyBinding>,
    pub geojson: GeoJsonBinding,
}

/// The rows of a query result.
#[derive(Debug)]
pub struct Results<B> {
    pub bindings: Vec<B>,
}

/// A whole query result.
#[derive(Debug)]
pub struct Response<B> {
    pub results: Results<B>,
}

} // verus!
