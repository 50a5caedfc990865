//! Personal collection manager: schemas, items, shelf marks, CSV import,
//! catalogue hydration and statistics.
pub mod text;
pub mod value;
pub mod model;
pub mod store;
pub mod hydrate;
pub mod import;
pub mod index;
pub mod stats;
pub mod sync;
pub mod export;
pub mod enrich;
pub mod mobile;
pub mod replay;
pub mod json;
