//! Transforms that turn provenance query results into renderable
//! structures, with proved contracts.
//!
//! Rows of typed bindings (`bindings`) materialize into activity, agent
//! and entity records (`sparql`, `models`); dimension descriptors and
//! measurements normalize onto a radial layout (`radial`); entity
//! shapes compose over a reference raster into a bounded scene
//! (`geom`, `spatial`).  All numbers are exact decimals or fixed-point
//! integers (`numbers`), so every transform is stated and proved
//! without floating point.

pub mod bindings;
pub mod geom;
pub mod geotext;
pub mod models;
pub mod numbers;
pub mod radial;
pub mod seqs;
pub mod sparql;
pub mod spatial;
pub mod text;
