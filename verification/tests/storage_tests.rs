use std::collections::HashMap;

use gwentdata::gwentone::model::{CardData, CardFaction, CardGroup, CardRarity, CardType};
use gwentdata::gwentone::storage::Disk;

fn card(id: usize, power: usize) -> CardData {
    CardData {
        id,
        name: format!("card-{}", id),
        categories: vec!["soldier".to_string()],
        keywords: vec!["deploy".to_string()],
        power,
        provisions: 6,
        armor: 0,
        faction: CardFaction::NEUTRAL,
        card_type: CardType::UNIT,
        rarity: CardRarity::COMMON,
        group: CardGroup::BRONZE,
    }
}

#[test]
fn storage_merge_adds_and_overwrites() {
    let mut first: HashMap<usize, CardData> = HashMap::new();
    first.insert(1, card(1, 3));
    first.insert(2, card(2, 4));
    let store = Disk::default().merge(first);
    assert_eq!(store.cards.len(), 2);
    assert_eq!(store.cards.get(&1).unwrap().power, 3);

    let mut second: HashMap<usize, CardData> = HashMap::new();
    second.insert(1, card(1, 9));
    second.insert(3, card(3, 5));
    let store = store.merge(second);
    assert_eq!(store.cards.len(), 3);
    assert_eq!(store.cards.get(&1).unwrap().power, 9);
    assert_eq!(store.cards.get(&2).unwrap().power, 4);
    assert_eq!(store.cards.get(&3).unwrap().power, 5);
}

#[test]
fn storage_default_is_empty() {
    assert!(Disk::default().cards.is_empty());
}
