//! The persisted snapshot of a sync run over the deck API: a pair of page
//! cursors plus the deduplicated, id-keyed metadata and detail maps, with
//! pure merge operations.  Merging never removes keys: it only adds entries
//! or overwrites them with freshly fetched values.

use std::collections::HashMap;

use vstd::prelude::*;

use crate::deck::Deck;
use crate::playgwent::deck::DeckMetadata;

verus! {

broadcast use vstd::std_specs::hash::group_hash_axioms;

/// The snapshot: page cursors and the id-keyed record maps.
pub struct Disk {
    pub page_start: usize,
    pub page_end: usize,
    pub deckmeta: HashMap<usize, DeckMetadata>,
    pub decks: HashMap<usize, Deck>,
}

/// Merges one listing entry into the metadata map: a valid entry is stored
/// under its id (overwriting), an invalid entry is dropped and removes
/// nothing.
pub open spec fn insert_meta(
    m: Map<usize, DeckMetadata>,
    e: DeckMetadata,
) -> Map<usize, DeckMetadata> {
    if e.invalid {
        m
    } else {
        m.insert(e.id, e)
    }
}

/// Merges a page of listing entries in order (last write wins).
pub open spec fn merge_meta_map(
    m: Map<usize, DeckMetadata>,
    es: Seq<DeckMetadata>,
) -> Map<usize, DeckMetadata>
    decreases es.len(),
{
    if es.len() == 0 {
        m
    } else {
        insert_meta(merge_meta_map(m, es.drop_last()), es.last())
    }
}

/// Inserts a sequence of key-value pairs in order (last write wins).
pub open spec fn insert_all<V>(m: Map<usize, V>, es: Seq<(usize, V)>) -> Map<usize, V>
    decreases es.len(),
{
    if es.len() == 0 {
        m
    } else {
        insert_all(m, es.drop_last()).insert(es.last().0, es.last().1)
    }
}

/// Whether the pairs enumerate exactly the map `m`: each pair is an entry
/// of `m`, every key of `m` occurs, and no key occurs twice.
pub open spec fn entries_match<V>(es: Seq<(usize, V)>, m: Map<usize, V>) -> bool {
    &&& forall|i: int, j: int| 0 <= i < j < es.len() ==> es[i].0 != es[j].0
    &&& forall|i: int|
        0 <= i < es.len() ==> #[trigger] m.contains_key(es[i].0) && m[es[i].0] == es[i].1
    &&& forall|k: usize| #[trigger] m.contains_key(k) ==> exists|i: int|
        0 <= i < es.len() && es[i].0 == k
}

/// Inserting pairs that enumerate exactly the map `m` yields the
/// right-preferring union with `m`, whatever the order of the pairs.
pub proof fn lemma_insert_all_enumerates<V>(m0: Map<usize, V>, es: Seq<(usize, V)>, m: Map<usize, V>)
    requires
        entries_match(es, m),
    ensures
        insert_all(m0, es) == m0.union_prefer_right(m),
    decreases es.len(),
{
    if es.len() == 0 {
        assert(m =~= Map::<usize, V>::empty());
        assert(m0.union_prefer_right(m) =~= m0);
    } else {
        let front = es.drop_last();
        let last = es.last();
        let m1 = m.remove(last.0);
        assert forall|k: usize| #[trigger] m1.contains_key(k) implies exists|i: int|
            0 <= i < front.len() && front[i].0 == k by {
            let i = choose|i: int| 0 <= i < es.len() && es[i].0 == k;
            assert(i < es.len() - 1);
            assert(front[i].0 == k);
        }
        lemma_insert_all_enumerates(m0, front, m1);
        assert(insert_all(m0, es) == m0.union_prefer_right(m1).insert(last.0, last.1));
        assert(m0.union_prefer_right(m1).insert(last.0, last.1) =~= m0.union_prefer_right(m));
    }
}

/// Folding the pairs that enumerate `m` into an empty map rebuilds
/// exactly `m`, whatever the order of the pairs.
pub proof fn lemma_entries_rebuild<V>(es: Seq<(usize, V)>, m: Map<usize, V>)
    requires
        entries_match(es, m),
    ensures
        insert_all(Map::<usize, V>::empty(), es) == m,
{
    lemma_insert_all_enumerates(Map::<usize, V>::empty(), es, m);
    assert(Map::<usize, V>::empty().union_prefer_right(m) =~= m);
}

impl Disk {
    /// Folds one fetched page of listing entries into the snapshot:
    /// advances the page cursor to `page` if it is further along, stores
    /// every valid entry by id (overwriting any stale entry) and drops
    /// every invalid one.  No entry is ever removed.
    pub fn merge_meta(self, page: usize, dl: Vec<DeckMetadata>) -> (r: Disk)
        ensures
            r.page_start == self.page_start,
            r.page_end == if page > self.page_end {
                page
            } else {
                self.page_end
            },
            r.deckmeta@ == merge_meta_map(self.deckmeta@, dl@),
            r.decks@ == self.decks@,
    {
        let ghost m0 = self.deckmeta@;
        let ghost all = dl@;
        let mut s = self;
        if page > s.page_end {
            s.page_end = page;
        }
        let mut dl = dl;
        while dl.len() > 0
            invariant
                dl@.len() <= all.len(),
                dl@ =~= all.skip(all.len() - dl@.len()),
                s.deckmeta@ == merge_meta_map(m0, all.take(all.len() - dl@.len())),
                s.page_start == self.page_start,
                s.page_end == if page > self.page_end {
                    page
                } else {
                    self.page_end
                },
                s.decks@ == self.decks@,
            decreases dl.len(),
        {
            let ghost i = all.len() - dl@.len();
            let dm = dl.remove(0);
            proof {
                assert(dm == all[i]);
                assert(all.skip(i).remove(0) =~= all.skip(i + 1));
                assert(all.take(i + 1).drop_last() =~= all.take(i));
                assert(all.take(i + 1).last() == all[i]);
            }
            if !dm.invalid {
                s.deckmeta.insert(dm.id, dm);
            }
        }
        proof {
            assert(all.take(all.len() as int) =~= all);
        }
        s
    }

    /// Folds fetched detail records into the snapshot, keyed by id,
    /// overwriting any stale detail; cursors and metadata are untouched.
    pub fn merge_decks(self, decks: Vec<(usize, Deck)>) -> (r: Disk)
        ensures
            r.page_start == self.page_start,
            r.page_end == self.page_end,
            r.deckmeta@ == self.deckmeta@,
            r.decks@ == insert_all(self.decks@, decks@),
    {
        let ghost m0 = self.decks@;
        let ghost all = decks@;
        let mut s = self;
        let mut decks = decks;
        while decks.len() > 0
            invariant
                decks@.len() <= all.len(),
                decks@ =~= all.skip(all.len() - decks@.len()),
                s.decks@ == insert_all(m0, all.take(all.len() - decks@.len())),
                s.page_start == self.page_start,
                s.page_end == self.page_end,
                s.deckmeta@ == self.deckmeta@,
            decreases decks.len(),
        {
            let ghost i = all.len() - decks@.len();
            let (id, deck) = decks.remove(0);
            proof {
                assert((id, deck) == all[i]);
                assert(all.skip(i).remove(0) =~= all.skip(i + 1));
                assert(all.take(i + 1).drop_last() =~= all.take(i));
                assert(all.take(i + 1).last() == all[i]);
            }
            s.decks.insert(id, deck);
        }
        proof {
            assert(all.take(all.len() as int) =~= all);
        }
        s
    }
}

impl Default for Disk {
    /// An empty snapshot: cursors at zero, no records.
    fn default() -> (r: Self)
        ensures
            r.page_start == 0,
            r.page_end == 0,
            r.deckmeta@ == Map::<usize, DeckMetadata>::empty(),
            r.decks@ == Map::<usize, Deck>::empty(),
    {
        Disk {
            page_start: 0,
            page_end: 0,
            deckmeta: HashMap::new(),
            decks: HashMap::new(),
        }
    }
}

} // verus!
