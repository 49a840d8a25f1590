//! Resource catalog, recipe ingestion and recipe profitability.

pub mod doc;
pub mod resource;
pub mod recipe;
pub mod refinery;
