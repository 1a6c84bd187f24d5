use gwentdata::codec::{
    decode_card_snapshot, decode_snapshot, encode_card_snapshot, encode_snapshot, push_u64,
    read_u64,
};
use gwentdata::gwentone::model::{CardData, CardFaction, CardGroup, CardRarity, CardType};
use gwentdata::gwentone::storage;
use gwentdata::deck::Deck;
use gwentdata::disk::Disk;
use gwentdata::playgwent::{DeckMetadata, Faction};

fn sample_disk() -> Disk {
    Disk::default()
        .merge_meta(
            3,
            vec![
                DeckMetadata {
                    id: 7,
                    votes: -42,
                    leader: 901,
                    faction: Faction { short: "ng".to_string() },
                    invalid: false,
                },
                DeckMetadata {
                    id: 8,
                    votes: 17,
                    leader: 902,
                    faction: Faction { short: "sk\u{00e9}".to_string() },
                    invalid: false,
                },
            ],
        )
        .merge_decks(vec![(7, Deck { cards: vec![1, 2, 3] }), (8, Deck { cards: vec![] })])
}

#[test]
fn round_trip_preserves_snapshot() {
    let d = sample_disk();
    let bytes = encode_snapshot(&d);
    let back = decode_snapshot(&bytes).expect("decoding an encoded snapshot");
    assert_eq!(back.page_start, d.page_start);
    assert_eq!(back.page_end, d.page_end);
    assert_eq!(back.deckmeta.len(), d.deckmeta.len());
    for (k, v) in &d.deckmeta {
        let w = back.deckmeta.get(k).unwrap();
        assert_eq!(v.id, w.id);
        assert_eq!(v.votes, w.votes);
        assert_eq!(v.leader, w.leader);
        assert_eq!(v.faction.short, w.faction.short);
        assert_eq!(v.invalid, w.invalid);
    }
    assert_eq!(back.decks.len(), d.decks.len());
    for (k, v) in &d.decks {
        assert_eq!(&back.decks.get(k).unwrap().cards, &v.cards);
    }
}

#[test]
fn round_trip_of_empty_snapshot() {
    let d = Disk::default();
    let bytes = encode_snapshot(&d);
    let back = decode_snapshot(&bytes).expect("decoding an empty snapshot");
    assert_eq!(back.page_start, 0);
    assert_eq!(back.page_end, 0);
    assert!(back.deckmeta.is_empty());
    assert!(back.decks.is_empty());
}

#[test]
fn truncated_input_is_rejected() {
    let d = sample_disk();
    let bytes = encode_snapshot(&d);
    let cut = &bytes[..bytes.len() - 1];
    assert!(decode_snapshot(cut).is_none());
}

#[test]
fn trailing_garbage_is_rejected() {
    let d = Disk::default();
    let mut bytes = encode_snapshot(&d);
    bytes.push(0);
    assert!(decode_snapshot(&bytes).is_none());
}

#[test]
fn empty_input_is_rejected() {
    assert!(decode_snapshot(&[]).is_none());
}

#[test]
fn vote_extremes_survive_the_round_trip() {
    let d = Disk::default().merge_meta(
        0,
        vec![
            DeckMetadata {
                id: 1,
                votes: i32::MIN,
                leader: 0,
                faction: Faction { short: String::new() },
                invalid: false,
            },
            DeckMetadata {
                id: 2,
                votes: i32::MAX,
                leader: usize::MAX,
                faction: Faction { short: "mo".to_string() },
                invalid: false,
            },
        ],
    );
    let back = decode_snapshot(&encode_snapshot(&d)).expect("round trip");
    assert_eq!(back.deckmeta.get(&1).unwrap().votes, i32::MIN);
    assert_eq!(back.deckmeta.get(&1).unwrap().faction.short, "");
    assert_eq!(back.deckmeta.get(&2).unwrap().votes, i32::MAX);
    assert_eq!(back.deckmeta.get(&2).unwrap().leader, usize::MAX);
}

#[test]
fn integers_round_trip_through_the_byte_layer() {
    let mut buf: Vec<u8> = Vec::new();
    push_u64(&mut buf, 0);
    push_u64(&mut buf, 0x0123_4567_89ab_cdef);
    push_u64(&mut buf, u64::MAX);
    assert_eq!(buf.len(), 24);
    let (a, p) = read_u64(&buf, 0).unwrap();
    let (b, p) = read_u64(&buf, p).unwrap();
    let (c, p) = read_u64(&buf, p).unwrap();
    assert_eq!((a, b, c), (0, 0x0123_4567_89ab_cdef, u64::MAX));
    assert_eq!(p, 24);
    assert!(read_u64(&buf, 17).is_none());
}

fn card(id: usize, power: usize) -> CardData {
    CardData {
        id,
        name: format!("card-{}\u{00e9}", id),
        categories: vec!["soldier".to_string(), "warrior".to_string()],
        keywords: vec!["deploy".to_string()],
        power,
        provisions: 6,
        armor: 1,
        faction: CardFaction::NILFGAARD,
        card_type: CardType::UNIT,
        rarity: CardRarity::EPIC,
        group: CardGroup::GOLD,
    }
}

#[test]
fn catalog_round_trip_preserves_snapshot() {
    let store = storage::Disk::default().merge(storage::index_by_id(vec![
        card(1, 3),
        card(2, 8),
    ]));
    let bytes = encode_card_snapshot(&store);
    let back = decode_card_snapshot(&bytes).expect("decoding an encoded catalog");
    assert_eq!(back.cards.len(), 2);
    for (k, v) in &store.cards {
        let w = back.cards.get(k).unwrap();
        assert_eq!(v.id, w.id);
        assert_eq!(v.name, w.name);
        assert_eq!(v.categories, w.categories);
        assert_eq!(v.keywords, w.keywords);
        assert_eq!(v.power, w.power);
        assert_eq!(v.provisions, w.provisions);
        assert_eq!(v.armor, w.armor);
        assert!(matches!(w.faction, CardFaction::NILFGAARD));
        assert!(matches!(w.card_type, CardType::UNIT));
        assert!(matches!(w.rarity, CardRarity::EPIC));
        assert!(matches!(w.group, CardGroup::GOLD));
    }
}

#[test]
fn truncated_catalog_is_rejected() {
    let store = storage::Disk::default().merge(storage::index_by_id(vec![card(1, 3)]));
    let bytes = encode_card_snapshot(&store);
    assert!(decode_card_snapshot(&bytes[..bytes.len() - 1]).is_none());
}
