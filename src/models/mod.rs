pub mod admin;
pub mod geo;
pub mod level;
pub mod names;
pub mod normalized;
pub mod place;

pub use level::{AdminLevel, Layer, OsmType};
pub use names::NameMap;
pub use geo::{Coord, GeoBbox};
pub use admin::{AdminArea, AdminEntry, AdminEntryScylla, AdminHierarchy};
pub use place::{Address, Place};
pub use normalized::{AdminHierarchyIds, NormalizedPlace};
