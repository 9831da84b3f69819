//! Core of an OpenStreetMap geocoding pipeline: administrative hierarchies,
//! ring stitching, road merging, name normalization and query-side rules.

pub mod bulk;
pub mod config;
pub mod extract;
pub mod models;
pub mod nodes;
pub mod pip;
pub mod query;
pub mod rings;
pub mod roads;
pub mod synonyms;
pub mod text;
pub mod wikidata;
