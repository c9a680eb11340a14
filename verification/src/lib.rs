//! Flight Information Region boundaries: the line grammar of the native
//! record format, validation and repair of rings, and the mapping between
//! records and GeoJSON features.

pub mod boundary;
pub mod collection;
pub mod decimal;
pub mod errors;
pub mod fill;
pub mod geo_json;
pub mod laws;
pub mod parser;
pub mod point;
pub mod ring;
pub mod round_trip;
pub mod text;
