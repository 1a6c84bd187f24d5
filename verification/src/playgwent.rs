//! Record types for the remote deck API: paginated listing responses and
//! per-id guide responses.

pub mod deck;

pub use deck::{Card, Deck, DeckGuideResponse, DeckListResponse, DeckMetadata, Faction, Image, Text};
