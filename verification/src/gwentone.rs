//! The scraped-catalog side of the engine: the record model, the markup
//! extraction layer, and the snapshot store for extracted records.

pub mod model;
pub mod scrape;
pub mod storage;

pub use model::{CardData, CardFaction, CardGroup, CardRarity, CardType, SchemaError};
