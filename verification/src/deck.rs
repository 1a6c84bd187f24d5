//! Deck listing records for the paginated listing API, and the pure merge
//! of two listings.

use vstd::prelude::*;

verus! {

/// One page of deck listings.
pub struct DeckList {
    pub guides: Vec<DeckListItem>,
}

/// Listing metadata for a single deck.
pub struct DeckListItem {
    pub id: usize,
    pub votes: i32,
    pub leader: usize,
    pub faction: Faction,
    pub invalid: bool,
}

/// The faction a deck belongs to, as the short code the source reports.
pub struct Faction {
    pub short: String,
}

/// A detail record: the ordered list of constituent card ids of one deck.
pub struct Deck {
    pub cards: Vec<usize>,
}

impl View for Deck {
    type V = Seq<usize>;

    open spec fn view(&self) -> Seq<usize> {
        self.cards@
    }
}

impl Clone for Faction {
    fn clone(&self) -> (r: Self)
        ensures
            r == *self,
    {
        Faction { short: self.short.clone() }
    }
}

impl Clone for DeckListItem {
    fn clone(&self) -> (r: Self)
        ensures
            r == *self,
    {
        DeckListItem {
            id: self.id,
            votes: self.votes,
            leader: self.leader,
            faction: self.faction.clone(),
            invalid: self.invalid,
        }
    }
}

impl Clone for Deck {
    fn clone(&self) -> (r: Self)
        ensures
            r.cards@ == self.cards@,
    {
        let cards = self.cards.clone();
        proof {
            assert(cards@ =~= self.cards@);
        }
        Deck { cards }
    }
}

impl DeckList {
    /// Appends the entries of `other` after the entries of `self`.
    pub fn merge(self, other: &DeckList) -> (r: DeckList)
        ensures
            r.guides@ == self.guides@ + other.guides@,
    {
        let ghost orig = self.guides@;
        let mut guides = self.guides;
        let mut i: usize = 0;
        while i < other.guides.len()
            invariant
                0 <= i <= other.guides.len(),
                guides@ == orig + other.guides@.take(i as int),
            decreases other.guides.len() - i,
        {
            guides.push(other.guides[i].clone());
            proof {
                assert(other.guides@.take(i + 1) =~= other.guides@.take(i as int).push(
                    other.guides@[i as int],
                ));
            }
            i = i + 1;
        }
        proof {
            assert(other.guides@.take(other.guides@.len() as int) =~= other.guides@);
        }
        DeckList { guides }
    }
}

impl Default for DeckList {
    /// An empty listing.
    fn default() -> (r: Self)
        ensures
            r.guides@ == Seq::<DeckListItem>::empty(),
    {
        DeckList { guides: Vec::new() }
    }
}

} // verus!
