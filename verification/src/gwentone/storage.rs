//! The snapshot store for the scraped catalog: one id-keyed map of
//! validated records, with a pure overwrite-by-key merge.

use std::collections::HashMap;

use vstd::prelude::*;

use super::model::{CardData, CardView};
use crate::disk::{insert_all, lemma_insert_all_enumerates};
use vstd::std_specs::iter::IteratorSpec;

verus! {

broadcast use vstd::std_specs::hash::group_hash_axioms;

/// The persisted aggregate of all catalog records scraped so far.
pub struct Disk {
    pub cards: HashMap<usize, CardData>,
}

/// The abstract content of a catalog map: each record by its view.
pub open spec fn abs_cards(m: Map<usize, CardData>) -> Map<usize, CardView> {
    Map::new(|k: usize| m.dom().contains(k), |k: usize| m[k]@)
}

/// Key-and-view pairs of the borrowed entries an iterator yields.
pub open spec fn view_pairs(es: Seq<(&usize, &CardData)>) -> Seq<(usize, CardView)> {
    es.map(|i: int, p: (&usize, &CardData)| (*p.0, p.1@))
}

impl Disk {
    /// Merges freshly scraped records into the snapshot, keyed by id,
    /// overwriting any stale record; no record is ever removed.
    pub fn merge(self, cards: HashMap<usize, CardData>) -> (r: Disk)
        ensures
            abs_cards(r.cards@) == abs_cards(self.cards@).union_prefer_right(abs_cards(cards@)),
    {
        let ghost entries = vstd::std_specs::hash::spec_hash_map_iter(&cards).remaining();
        let ghost abs0 = abs_cards(self.cards@);
        let mut s = self;
        for kv in it: cards.iter()
            invariant
                it.seq() == entries,
                entries.no_duplicates(),
                abs_cards(s.cards@) == insert_all(abs0, view_pairs(entries.take(it.index() as int))),
        {
            let ghost idx = it.index() as int;
            let (k, v) = kv;
            s.cards.insert(*k, v.clone());
            proof {
                assert(kv == entries[idx]);
                assert(entries.take(idx + 1).drop_last() =~= entries.take(idx));
                assert(view_pairs(entries.take(idx + 1)).drop_last() =~= view_pairs(
                    entries.take(idx),
                ));
                assert(view_pairs(entries.take(idx + 1)).last() == (*kv.0, kv.1@));
                assert(abs_cards(s.cards@) =~= insert_all(abs0, view_pairs(entries.take(idx + 1))));
            }
        }
        proof {
            assert(entries.take(entries.len() as int) =~= entries);
            vstd::std_specs::hash::axiom_spec_hash_map_iter(&cards);
            lemma_iter_pairs_enumerate(entries, cards@);
            lemma_insert_all_enumerates(abs0, view_pairs(entries), abs_cards(cards@));
        }
        s
    }
}

/// Each record keyed by its own id.
pub open spec fn id_pairs(cs: Seq<CardData>) -> Seq<(usize, CardView)> {
    cs.map(|i: int, c: CardData| (c.id, c@))
}

/// Keys freshly extracted records by their id, in order, a later record
/// overwriting an earlier one with the same id.
pub fn index_by_id(cards: Vec<CardData>) -> (r: HashMap<usize, CardData>)
    ensures
        abs_cards(r@) == insert_all(Map::<usize, CardView>::empty(), id_pairs(cards@)),
{
    let ghost all = id_pairs(cards@);
    let mut m: HashMap<usize, CardData> = HashMap::new();
    let mut cards = cards;
    proof {
        assert(abs_cards(m@) =~= insert_all(Map::<usize, CardView>::empty(), all.take(0)));
    }
    while cards.len() > 0
        invariant
            cards@.len() <= all.len(),
            id_pairs(cards@) =~= all.skip(all.len() - cards@.len()),
            abs_cards(m@) == insert_all(
                Map::<usize, CardView>::empty(),
                all.take(all.len() - cards@.len()),
            ),
        decreases cards.len(),
    {
        let ghost i = all.len() - cards@.len();
        let ghost prev = cards@;
        let c = cards.remove(0);
        proof {
            assert(c == prev[0]);
            assert(id_pairs(prev)[0] == (prev[0].id, prev[0]@));
            assert((c.id, c@) == all[i]);
            assert forall|l: int| 0 <= l < cards@.len() implies id_pairs(cards@)[l] == all.skip(
                i + 1,
            )[l] by {
                assert(cards@[l] == prev[l + 1]);
                assert(id_pairs(prev)[l + 1] == (prev[l + 1].id, prev[l + 1]@));
                assert(id_pairs(cards@)[l] == (cards@[l].id, cards@[l]@));
            }
            assert(id_pairs(cards@) =~= all.skip(i + 1));
            assert(all.take(i + 1).drop_last() =~= all.take(i));
            assert(all.take(i + 1).last() == all[i]);
        }
        let ghost before = m@;
        let id = c.id;
        m.insert(id, c);
        proof {
            assert(abs_cards(m@) =~= abs_cards(before).insert(id, c@));
        }
    }
    proof {
        assert(all.take(all.len() as int) =~= all);
    }
    m
}

/// The entries a map iterator yields enumerate the map: every pair is an
/// entry, every key occurs, and no key occurs twice.
proof fn lemma_iter_pairs_enumerate(es: Seq<(&usize, &CardData)>, m: Map<usize, CardData>)
    requires
        es.len() == m.dom().len(),
        forall|i: int| 0 <= i < es.len() ==> #[trigger] m.contains_key(*es[i].0) && m[*es[i].0]
            == *es[i].1,
        forall|k: usize| #[trigger] m.contains_key(k) ==> es.contains((&k, &m[k])),
        es.no_duplicates(),
    ensures
        forall|i: int, j: int| 0 <= i < j < es.len() ==> view_pairs(es)[i].0 != view_pairs(es)[j].0,
        forall|i: int| 0 <= i < es.len() ==> #[trigger] abs_cards(m).contains_key(
            view_pairs(es)[i].0,
        ) && abs_cards(m)[view_pairs(es)[i].0] == view_pairs(es)[i].1,
        forall|k: usize| #[trigger] abs_cards(m).contains_key(k) ==> exists|i: int|
            0 <= i < view_pairs(es).len() && view_pairs(es)[i].0 == k,
{
    assert forall|i: int, j: int| 0 <= i < j < es.len() implies view_pairs(es)[i].0 != view_pairs(
        es,
    )[j].0 by {
        if *es[i].0 == *es[j].0 {
            assert(m.contains_key(*es[i].0));
            assert(m.contains_key(*es[j].0));
            assert(*es[i].1 == m[*es[i].0]);
            assert(*es[j].1 == m[*es[j].0]);
            assert(es[i] == es[j]);
        }
    }
    assert forall|k: usize| #[trigger] abs_cards(m).contains_key(k) implies exists|i: int|
        0 <= i < view_pairs(es).len() && view_pairs(es)[i].0 == k by {
        assert(m.contains_key(k));
        assert(es.contains((&k, &m[k])));
        let i = choose|i: int| 0 <= i < es.len() && es[i] == (&k, &m[k]);
        assert(view_pairs(es)[i].0 == k);
    }
}

impl Default for Disk {
    /// An empty snapshot.
    fn default() -> (r: Self)
        ensures
            r.cards@ == Map::<usize, CardData>::empty(),
    {
        Disk { cards: HashMap::new() }
    }
}

} // verus!
