use gwentdata::gwentone::{CardFaction, CardGroup, CardRarity, CardType, SchemaError};

#[test]
fn card_type_parses_known_values() {
    assert_eq!(CardType::from_str("unit"), Ok(CardType::UNIT));
    assert_eq!(CardType::from_str("ability"), Ok(CardType::ABILITY));
    assert_eq!(CardType::from_str("spell"), Ok(CardType::SPELL));
    assert_eq!(CardType::from_str("stratagem"), Ok(CardType::STRATEGEM));
    assert_eq!(CardType::from_str("artifact"), Ok(CardType::ARTIFACT));
    assert_eq!(CardType::from_str("special"), Ok(CardType::SPECIAL));
}

#[test]
fn parsing_ignores_case_and_whitespace() {
    assert_eq!(CardType::from_str("  UNIT \n"), Ok(CardType::UNIT));
    assert_eq!(CardFaction::from_str("\tMonster"), Ok(CardFaction::MONSTER));
    assert_eq!(CardRarity::from_str("EPIC "), Ok(CardRarity::EPIC));
    assert_eq!(CardGroup::from_str(" GoLd"), Ok(CardGroup::GOLD));
}

#[test]
fn parsing_trims_all_unicode_whitespace() {
    assert_eq!(CardType::from_str("\u{000B}unit\u{000C}"), Ok(CardType::UNIT));
    assert_eq!(CardType::from_str("\u{3000}unit\u{00A0}"), Ok(CardType::UNIT));
    assert_eq!(CardRarity::from_str("\u{2028}rare\u{2009}"), Ok(CardRarity::RARE));
}

#[test]
fn unknown_values_are_schema_errors() {
    assert_eq!(CardType::from_str("tower"), Err(SchemaError::UnknownVariant));
    assert_eq!(CardFaction::from_str(""), Err(SchemaError::UnknownVariant));
    assert_eq!(CardRarity::from_str("mythic"), Err(SchemaError::UnknownVariant));
    assert_eq!(CardGroup::from_str("silver"), Err(SchemaError::UnknownVariant));
}

#[test]
fn card_faction_parses_all_values() {
    assert_eq!(CardFaction::from_str("neutral"), Ok(CardFaction::NEUTRAL));
    assert_eq!(CardFaction::from_str("skellige"), Ok(CardFaction::SKELLIGE));
    assert_eq!(CardFaction::from_str("syndicate"), Ok(CardFaction::SYNDICATE));
    assert_eq!(CardFaction::from_str("scoiatael"), Ok(CardFaction::SCOIATAEL));
    assert_eq!(CardFaction::from_str("nilfgaard"), Ok(CardFaction::NILFGAARD));
    assert_eq!(
        CardFaction::from_str("northern_realms"),
        Ok(CardFaction::NORTHERNREALMS)
    );
    assert_eq!(CardFaction::from_str("monster"), Ok(CardFaction::MONSTER));
}

#[test]
fn card_rarity_parses_all_values() {
    assert_eq!(CardRarity::from_str("legendary"), Ok(CardRarity::LEGENDARY));
    assert_eq!(CardRarity::from_str("epic"), Ok(CardRarity::EPIC));
    assert_eq!(CardRarity::from_str("rare"), Ok(CardRarity::RARE));
    assert_eq!(CardRarity::from_str("common"), Ok(CardRarity::COMMON));
}

#[test]
fn leader_maps_to_neutral_group() {
    assert_eq!(CardGroup::from_str("leader"), Ok(CardGroup::NONE));
    assert_eq!(CardGroup::from_str("bronze"), Ok(CardGroup::BRONZE));
}
