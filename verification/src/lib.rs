//! Learns the shape of JSON values from observations made at the same
//! locations of many documents, and writes the commands that build that shape.

pub mod builder;
pub mod commands;
pub mod conversion;
pub mod field_keys;
pub mod field_set;
pub mod id_source;
pub mod identifier_laws;
pub mod json_trail;
pub mod merge_laws;
pub mod observations;
pub mod order;
pub mod prototype;
pub mod reachability;
pub mod shape_laws;
pub mod state;
pub mod synthesis;
pub mod table;
pub mod trail_values;

pub use commands::ShapeCommand;
pub use field_set::FieldSet;
pub use id_source::IdSource;
pub use json_trail::{JsonTrail, JsonTrailPathComponent};
pub use observations::TrailObservationsResult;
pub use state::{ShapeKind, ShapeParameterDescriptor, SpecIdGenerator};
pub use trail_values::TrailValues;
