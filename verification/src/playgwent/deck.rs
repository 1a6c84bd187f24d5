//! The shapes the deck API returns: a paginated listing wrapper, the
//! per-deck metadata it carries, and the richer guide/deck records of the
//! detail endpoint.

use vstd::prelude::*;

verus! {

/// One page of the paginated listing endpoint.
pub struct DeckListResponse {
    pub guides: Vec<DeckMetadata>,
}

/// Listing metadata for a single deck; `invalid` is a flag set by the
/// source, and entries carrying it are never stored in a snapshot.
pub struct DeckMetadata {
    pub id: usize,
    pub votes: i32,
    pub leader: usize,
    pub faction: Faction,
    pub invalid: bool,
}

/// The faction a deck belongs to, as the short code the source reports.
pub struct Faction {
    pub short: String,
}

/// The detail endpoint's wrapper around a single deck.
pub struct DeckGuideResponse {
    pub deck: Deck,
}

/// A full deck as the detail endpoint reports it.
pub struct Deck {
    /// Provision cost of this deck.
    pub provisions_cost: usize,
    /// Scrap cost of this deck.
    pub crafting_cost: usize,
    /// Leader chosen.
    pub leader: Card,
    /// Stratagem chosen.
    pub strategem: Card,
}

/// One card inside a deck detail record.
pub struct Card {
    pub provisions_cost: usize,
    pub crafting_cost: usize,
    pub repeat_count: usize,
    pub name: String,
    pub power: usize,
    pub slot_img: Image,
    /// One of `bronze`, `gold`.
    pub card_group: String,
    /// Each outer index is one line; empty inner lists are blank lines.
    pub tooltip: Vec<Vec<Text>>,
}

/// The pair of image URLs attached to a card.
pub struct Image {
    pub small: String,
    pub big: String,
}

/// One tooltip segment, tagged as `keyword` or `text`.
pub struct Text {
    pub text_type: String,
    pub value: String,
    /// Only meaningful when `text_type` is `keyword`.
    pub key: String,
}

/// The abstract content of a listing entry.
pub struct MetaView {
    pub id: usize,
    pub votes: i32,
    pub leader: usize,
    pub faction: Seq<char>,
    pub invalid: bool,
}

impl View for DeckMetadata {
    type V = MetaView;

    open spec fn view(&self) -> MetaView {
        MetaView {
            id: self.id,
            votes: self.votes,
            leader: self.leader,
            faction: self.faction.short@,
            invalid: self.invalid,
        }
    }
}

impl Clone for Faction {
    fn clone(&self) -> (r: Self)
        ensures
            r == *self,
    {
        Faction { short: self.short.clone() }
    }
}

impl Clone for DeckMetadata {
    fn clone(&self) -> (r: Self)
        ensures
            r == *self,
    {
        DeckMetadata {
            id: self.id,
            votes: self.votes,
            leader: self.leader,
            faction: self.faction.clone(),
            invalid: self.invalid,
        }
    }
}

} // verus!
