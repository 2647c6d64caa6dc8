//! Streaming statemap model: ingests a time-series of per-entity state
//! transitions and coalesces them into a bounded set of rectangles, each
//! carrying per-state and per-tag duration accumulators.

pub mod entity;
pub mod ingest;
pub mod json;
pub mod rect;
pub mod sort;
pub mod statemap;
pub mod weight;

pub use entity::StatemapEntity;
pub use json::JsonValue;
pub use json::line_number;
pub use rect::StatemapRect;
pub use statemap::Config;
pub use statemap::Ingest;
pub use statemap::Metadata;
pub use statemap::Statemap;
pub use statemap::StatemapError;
pub use statemap::StatemapSVGConfig;
pub use statemap::StatemapState;
pub use statemap::TagEntry;
pub use weight::StatemapRectWeight;
pub use weight::WeightIndex;
