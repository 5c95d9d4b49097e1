//! Fully dynamic hierarchical geospatial clustering, and the logic of a server around it.
pub mod admin;
pub mod answers;
pub mod api;
pub mod asking;
pub mod calls;
pub mod cellhash;
pub mod cells;
pub mod changes;
pub mod clock;
pub mod clusters;
pub mod collection;
pub mod config;
pub mod decimal;
pub mod declaring;
pub mod encoding;
pub mod feature;
pub mod features;
pub mod filtering;
pub mod filters;
pub mod forest;
pub mod geojson;
pub mod geometry;
pub mod grid;
pub mod index;
pub mod json;
pub mod keeping;
pub mod laws;
pub mod layouts;
pub mod mvt;
pub mod net;
pub mod order;
pub mod positions;
pub mod ratio;
pub mod reading;
pub mod register;
pub mod request;
pub mod schema;
pub mod showing;
pub mod snapshot;
pub mod sums;
pub mod taking;
pub mod text;
pub mod tiles;
