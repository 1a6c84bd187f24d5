use gwentdata::deck::{Deck, DeckList, DeckListItem};
use gwentdata::disk::Disk;
use gwentdata::playgwent::{DeckMetadata, Faction};
use gwentdata::sync::FetchOutcome;

fn meta(id: usize, votes: i32, invalid: bool) -> DeckMetadata {
    DeckMetadata {
        id,
        votes,
        leader: id + 1000,
        faction: Faction { short: format!("f{}", id % 7) },
        invalid,
    }
}

#[test]
fn merge_meta_stores_valid_entries() {
    let d = Disk::default();
    let d = d.merge_meta(0, vec![meta(1, 5, false), meta(2, -3, false)]);
    assert_eq!(d.deckmeta.len(), 2);
    assert_eq!(d.deckmeta.get(&1).unwrap().votes, 5);
    assert_eq!(d.deckmeta.get(&2).unwrap().votes, -3);
    assert_eq!(d.page_end, 0);
}

#[test]
fn merge_meta_last_write_wins() {
    let d = Disk::default();
    let d = d.merge_meta(0, vec![meta(1, 5, false)]);
    let d = d.merge_meta(1, vec![meta(1, 9, false)]);
    assert_eq!(d.deckmeta.len(), 1);
    assert_eq!(d.deckmeta.get(&1).unwrap().votes, 9);
    assert_eq!(d.page_end, 1);
}

#[test]
fn merge_is_idempotent() {
    let page = vec![meta(1, 5, false), meta(2, -3, true), meta(3, 7, false)];
    let once = Disk::default().merge_meta(2, page.clone());
    let twice = Disk::default().merge_meta(2, page.clone()).merge_meta(2, page);
    assert_eq!(once.deckmeta.len(), twice.deckmeta.len());
    for (k, v) in &once.deckmeta {
        let w = twice.deckmeta.get(k).unwrap();
        assert_eq!(v.id, w.id);
        assert_eq!(v.votes, w.votes);
        assert_eq!(v.leader, w.leader);
        assert_eq!(v.faction.short, w.faction.short);
        assert_eq!(v.invalid, w.invalid);
    }
    assert_eq!(once.page_end, twice.page_end);
}

#[test]
fn invalid_entries_never_stored() {
    let d = Disk::default().merge_meta(0, vec![meta(1, 5, true)]);
    assert!(d.deckmeta.get(&1).is_none());

    // A prior valid entry survives a later invalid report of the same id.
    let d = Disk::default()
        .merge_meta(0, vec![meta(2, 4, false)])
        .merge_meta(1, vec![meta(2, 8, true)]);
    assert_eq!(d.deckmeta.get(&2).unwrap().votes, 4);
}

#[test]
fn cursor_never_decreases() {
    let d = Disk::default()
        .phase1_step(5, FetchOutcome::Page(vec![meta(1, 0, false)]))
        .phase1_step(2, FetchOutcome::Page(vec![meta(2, 0, false)]));
    assert_eq!(d.page_end, 5);
}

#[test]
fn failed_pages_are_isolated() {
    let pages = vec![
        (0, FetchOutcome::Page(vec![meta(1, 1, false)])),
        (1, FetchOutcome::Failed),
        (2, FetchOutcome::Page(vec![meta(3, 3, false)])),
    ];
    let d = Disk::default().phase1_run(pages);
    assert_eq!(d.deckmeta.len(), 2);
    assert!(d.deckmeta.get(&1).is_some());
    assert!(d.deckmeta.get(&3).is_some());
    assert_eq!(d.page_end, 2);
}

#[test]
fn phase1_example_scenario() {
    // Offsets 0..3 with page size 500: offset 0 full, offset 1 full with
    // three invalid entries, offset 2 empty.
    let page0: Vec<DeckMetadata> = (0..500).map(|i| meta(i, 0, false)).collect();
    let page1: Vec<DeckMetadata> = (500..1000).map(|i| meta(i, 0, i < 503)).collect();
    let pages = vec![
        (0, FetchOutcome::Page(page0)),
        (1, FetchOutcome::Page(page1)),
        (2, FetchOutcome::Page(Vec::new())),
    ];
    let d = Disk::default().phase1_run(pages);
    assert_eq!(d.deckmeta.len(), 997);
    assert_eq!(d.page_end, 1);
}

#[test]
fn phase2_merges_successes_and_skips_failures() {
    let d = Disk::default()
        .phase2_step(1, Some(Deck { cards: vec![10, 20] }))
        .phase2_step(2, None);
    assert_eq!(d.decks.len(), 1);
    assert_eq!(d.decks.get(&1).unwrap().cards, vec![10, 20]);

    let d = d.phase2_run(vec![
        (1, Some(Deck { cards: vec![30] })),
        (3, Some(Deck { cards: vec![] })),
        (4, None),
    ]);
    assert_eq!(d.decks.len(), 2);
    assert_eq!(d.decks.get(&1).unwrap().cards, vec![30]);
    assert_eq!(d.decks.get(&3).unwrap().cards, Vec::<usize>::new());
}

#[test]
fn merge_decks_overwrites_by_key() {
    let d = Disk::default().merge_decks(vec![
        (1, Deck { cards: vec![1, 2] }),
        (1, Deck { cards: vec![3] }),
        (2, Deck { cards: vec![4] }),
    ]);
    assert_eq!(d.decks.len(), 2);
    assert_eq!(d.decks.get(&1).unwrap().cards, vec![3]);
}

#[test]
fn decklist_merge_appends() {
    let a = DeckList {
        guides: vec![DeckListItem {
            id: 1,
            votes: 2,
            leader: 3,
            faction: gwentdata::deck::Faction { short: "ng".to_string() },
            invalid: false,
        }],
    };
    let b = DeckList {
        guides: vec![DeckListItem {
            id: 4,
            votes: 5,
            leader: 6,
            faction: gwentdata::deck::Faction { short: "sk".to_string() },
            invalid: true,
        }],
    };
    let merged = a.merge(&b);
    assert_eq!(merged.guides.len(), 2);
    assert_eq!(merged.guides[0].id, 1);
    assert_eq!(merged.guides[1].id, 4);
    assert_eq!(merged.guides[1].faction.short, "sk");

    let empty = DeckList::default();
    assert_eq!(empty.guides.len(), 0);
}
