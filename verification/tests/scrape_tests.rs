use gwentdata::gwentone::model::{CardData, CardFaction, CardGroup, CardRarity, CardType, SchemaError};
use gwentdata::gwentone::scrape::{extract_cards, extract_pages, parse_usize, CardFragment};

fn full_fragment() -> CardFragment {
    CardFragment {
        name: Some("Geralt".to_string()),
        category: Some("Soldier, &meta, Warrior, Soldier".to_string()),
        keyword_classes: vec![
            vec!["keyword".to_string(), "deploy".to_string()],
            vec!["keyword".to_string(), "deploy".to_string()],
            vec!["keyword".to_string(), "shield".to_string()],
        ],
        id: Some("112101".to_string()),
        power: Some("5".to_string()),
        armor: Some("0".to_string()),
        provision: Some("9".to_string()),
        faction: Some("Neutral".to_string()),
        card_type: Some("Unit".to_string()),
        rarity: Some("Legendary".to_string()),
        color: Some("Gold".to_string()),
    }
}

#[test]
fn fragment_yields_validated_record() {
    let card = CardData::from_fragment(&full_fragment()).expect("complete fragment");
    assert_eq!(card.id, 112101);
    assert_eq!(card.name, "Geralt");
    assert_eq!(card.categories, vec!["soldier".to_string(), "warrior".to_string()]);
    assert_eq!(card.keywords, vec!["deploy".to_string(), "shield".to_string()]);
    assert_eq!(card.power, 5);
    assert_eq!(card.armor, 0);
    assert_eq!(card.provisions, 9);
    assert!(matches!(card.faction, CardFaction::NEUTRAL));
    assert!(matches!(card.card_type, CardType::UNIT));
    assert!(matches!(card.rarity, CardRarity::LEGENDARY));
    assert!(matches!(card.group, CardGroup::GOLD));
}

#[test]
fn missing_rarity_is_a_schema_error() {
    let mut frag = full_fragment();
    frag.rarity = None;
    assert!(matches!(
        CardData::from_fragment(&frag),
        Err(SchemaError::MissingAttribute)
    ));
}

#[test]
fn unknown_enumeration_value_is_a_schema_error() {
    let mut frag = full_fragment();
    frag.faction = Some("dwarves".to_string());
    assert!(matches!(
        CardData::from_fragment(&frag),
        Err(SchemaError::UnknownVariant)
    ));
}

#[test]
fn malformed_number_is_a_schema_error() {
    let mut frag = full_fragment();
    frag.power = Some("5b".to_string());
    assert!(matches!(
        CardData::from_fragment(&frag),
        Err(SchemaError::MalformedNumber)
    ));
}

#[test]
fn parse_usize_accepts_digits_with_optional_sign() {
    assert_eq!(parse_usize("0"), Ok(0));
    assert_eq!(parse_usize("112101"), Ok(112101));
    assert_eq!(parse_usize("+5"), Ok(5));
    assert_eq!(parse_usize(""), Err(SchemaError::MalformedNumber));
    assert_eq!(parse_usize("+"), Err(SchemaError::MalformedNumber));
    assert_eq!(parse_usize("-3"), Err(SchemaError::MalformedNumber));
    assert_eq!(parse_usize("1 2"), Err(SchemaError::MalformedNumber));
    assert_eq!(
        parse_usize("99999999999999999999999999"),
        Err(SchemaError::MalformedNumber)
    );
}

fn card_div(rarity_attr: &str) -> String {
    format!(
        "<div class=\"card-wrap card-data\" data-id=\"7\" data-power=\"5\" data-armor=\"1\" data-provision=\"9\" data-faction=\"Monster\" data-type=\"Unit\"{} data-color=\"Bronze\"><div class=\"card-name\"><a>Nekker</a></div><div class=\"card-category\">Ogroid, &x</div><span class=\"keyword thrive\"></span></div>",
        rarity_attr
    )
}

#[test]
fn extract_cards_reads_a_full_page() {
    let html = format!("<html><body>{}</body></html>", card_div(" data-rarity=\"Rare\""));
    let cards = extract_cards(&html).expect("well-formed page");
    assert_eq!(cards.len(), 1);
    let card = &cards[0];
    assert_eq!(card.id, 7);
    assert_eq!(card.name, "Nekker");
    assert_eq!(card.categories, vec!["ogroid".to_string()]);
    assert_eq!(card.keywords, vec!["thrive".to_string()]);
    assert_eq!(card.power, 5);
    assert_eq!(card.armor, 1);
    assert_eq!(card.provisions, 9);
    assert!(matches!(card.faction, CardFaction::MONSTER));
    assert!(matches!(card.rarity, CardRarity::RARE));
    assert!(matches!(card.group, CardGroup::BRONZE));
}

#[test]
fn missing_attribute_aborts_the_page() {
    let good = format!("<html><body>{}</body></html>", card_div(" data-rarity=\"Rare\""));
    let bad = format!("<html><body>{}</body></html>", card_div(""));
    // A well-formed page extracts; a page whose fragment lacks the rarity
    // attribute fails as a whole, leaving earlier pages' results untouched.
    let earlier = extract_cards(&good).expect("well-formed page");
    assert!(matches!(extract_cards(&bad), Err(SchemaError::MissingAttribute)));
    assert_eq!(earlier.len(), 1);
}

#[test]
fn extract_pages_reads_the_page_index() {
    let html = "<html><body><div id=\"pages-top\"><a class=\"page-link\" href=\"#pages-top\">1</a><a class=\"page-link\" href=\"#pages-top\">2</a><a class=\"page-link\" href=\"/elsewhere\">3</a></div></body></html>";
    let pages = extract_pages(html);
    assert_eq!(pages, vec!["1".to_string(), "2".to_string()]);
}

#[test]
fn empty_page_yields_no_cards() {
    let cards = extract_cards("<html><body></body></html>").expect("empty page");
    assert!(cards.is_empty());
}
