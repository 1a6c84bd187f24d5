//! Record model for the scraped catalog: the closed categorical attributes,
//! the catalog record itself, and the fallible parsers for the categorical
//! attributes.  Parsing ignores surrounding whitespace and letter case —
//! as Unicode defines both — and any value outside the closed sets is a
//! hard schema error, never a silent default.

use vstd::prelude::*;
use vstd::string::StrSliceExecFns;

verus! {

/// Extraction failed because the markup does not match the expected schema.
///
/// A schema error is fatal for the page being extracted: it signals that the
/// remote markup changed shape, which per-record skipping cannot paper over.
#[derive(Debug, Clone, Copy, PartialEq, Eq, Structural)]
pub enum SchemaError {
    /// A required attribute or sub-element is absent.
    MissingAttribute,
    /// A numeric attribute does not parse as an unsigned integer.
    MalformedNumber,
    /// A categorical attribute is outside its closed value set.
    UnknownVariant,
}

#[derive(Debug, Clone, Copy, PartialEq, Eq, Structural)]
pub enum CardType {
    UNIT,
    ABILITY,
    SPELL,
    STRATEGEM,
    ARTIFACT,
    SPECIAL,
}

#[derive(Debug, Clone, Copy, PartialEq, Eq, Structural)]
pub enum CardRarity {
    LEGENDARY,
    EPIC,
    RARE,
    COMMON,
}

#[derive(Debug, Clone, Copy, PartialEq, Eq, Structural)]
pub enum CardGroup {
    GOLD,
    BRONZE,
    NONE,
}

#[derive(Debug, Clone, Copy, PartialEq, Eq, Structural)]
pub enum CardFaction {
    NEUTRAL,
    SKELLIGE,
    SYNDICATE,
    SCOIATAEL,
    NILFGAARD,
    NORTHERNREALMS,
    MONSTER,
}

/// One validated catalog record, extracted from a single markup fragment.
///
/// `categories` and `keywords` carry set semantics: their order is
/// irrelevant and they hold no duplicates.
#[derive(Debug)]
pub struct CardData {
    pub id: usize,
    pub name: String,
    pub categories: Vec<String>,
    pub keywords: Vec<String>,
    pub power: usize,
    pub provisions: usize,
    pub armor: usize,
    pub faction: CardFaction,
    pub card_type: CardType,
    pub rarity: CardRarity,
    pub group: CardGroup,
}

/// The abstract content of a catalog record: every text field as its
/// character sequence.
pub struct CardView {
    pub id: usize,
    pub name: Seq<char>,
    pub categories: Seq<Seq<char>>,
    pub keywords: Seq<Seq<char>>,
    pub power: usize,
    pub provisions: usize,
    pub armor: usize,
    pub faction: CardFaction,
    pub card_type: CardType,
    pub rarity: CardRarity,
    pub group: CardGroup,
}

impl View for CardData {
    type V = CardView;

    open spec fn view(&self) -> CardView {
        CardView {
            id: self.id,
            name: self.name@,
            categories: self.categories.deep_view(),
            keywords: self.keywords.deep_view(),
            power: self.power,
            provisions: self.provisions,
            armor: self.armor,
            faction: self.faction,
            card_type: self.card_type,
            rarity: self.rarity,
            group: self.group,
        }
    }
}

/// Clones a list of strings, character for character.
pub fn clone_strings(v: &Vec<String>) -> (r: Vec<String>)
    ensures
        r@ == v@,
{
    let mut r: Vec<String> = Vec::new();
    let mut i: usize = 0;
    while i < v.len()
        invariant
            0 <= i <= v@.len(),
            r@ == v@.take(i as int),
        decreases v@.len() - i,
    {
        r.push(v[i].clone());
        proof {
            assert(v@.take(i + 1) =~= v@.take(i as int).push(v@[i as int]));
        }
        i = i + 1;
    }
    proof {
        assert(v@.take(v@.len() as int) =~= v@);
    }
    r
}

impl Clone for CardData {
    fn clone(&self) -> (r: Self)
        ensures
            r@ == self@,
    {
        let r = CardData {
            id: self.id,
            name: self.name.clone(),
            categories: clone_strings(&self.categories),
            keywords: clone_strings(&self.keywords),
            power: self.power,
            provisions: self.provisions,
            armor: self.armor,
            faction: self.faction,
            card_type: self.card_type,
            rarity: self.rarity,
            group: self.group,
        };
        proof {
            assert(r.categories.deep_view() =~= self.categories.deep_view());
            assert(r.keywords.deep_view() =~= self.keywords.deep_view());
        }
        r
    }
}

/// Whether `c` carries the Unicode `White_Space` property — exactly the
/// characters that trimming removes.
pub open spec fn is_space_char(c: char) -> bool {
    let u = c as u32;
    u == 0x09 || u == 0x0A || u == 0x0B || u == 0x0C || u == 0x0D || u == 0x20 || u == 0x85 || u
        == 0xA0 || u == 0x1680 || (0x2000 <= u && u <= 0x200A) || u == 0x2028 || u == 0x2029 || u
        == 0x202F || u == 0x205F || u == 0x3000
}

pub fn is_space(c: char) -> (r: bool)
    ensures
        r == is_space_char(c),
{
    let u = c as u32;
    u == 0x09 || u == 0x0A || u == 0x0B || u == 0x0C || u == 0x0D || u == 0x20 || u == 0x85 || u
        == 0xA0 || u == 0x1680 || (0x2000 <= u && u <= 0x200A) || u == 0x2028 || u == 0x2029 || u
        == 0x202F || u == 0x205F || u == 0x3000
}

pub open spec fn trim_front(s: Seq<char>) -> Seq<char>
    decreases s.len(),
{
    if s.len() > 0 && is_space_char(s[0]) {
        trim_front(s.skip(1))
    } else {
        s
    }
}

pub open spec fn trim_back(s: Seq<char>) -> Seq<char>
    decreases s.len(),
{
    if s.len() > 0 && is_space_char(s[s.len() - 1]) {
        trim_back(s.take(s.len() - 1))
    } else {
        s
    }
}

/// The sequence with leading and trailing whitespace removed.
pub open spec fn trim_seq(s: Seq<char>) -> Seq<char> {
    trim_back(trim_front(s))
}

proof fn lemma_trim_front_at(s: Seq<char>, i: int)
    requires
        0 <= i <= s.len(),
        forall|j: int| 0 <= j < i ==> is_space_char(s[j]),
        i < s.len() ==> !is_space_char(s[i]),
    ensures
        trim_front(s) == s.skip(i),
    decreases i,
{
    if i == 0 {
        assert(s.skip(0) =~= s);
    } else {
        assert(is_space_char(s[0]));
        lemma_trim_front_at(s.skip(1), i - 1);
        assert(s.skip(1).skip(i - 1) =~= s.skip(i));
    }
}

proof fn lemma_trim_back_at(s: Seq<char>, i: int)
    requires
        0 <= i <= s.len(),
        forall|j: int| i <= j < s.len() ==> is_space_char(s[j]),
        i > 0 ==> !is_space_char(s[i - 1]),
    ensures
        trim_back(s) == s.take(i),
    decreases s.len(),
{
    if i == s.len() {
        if s.len() > 0 {
            assert(!is_space_char(s[s.len() - 1]));
        }
        assert(s.take(i) =~= s);
    } else {
        assert(is_space_char(s[s.len() - 1]));
        lemma_trim_back_at(s.take(s.len() - 1), i);
        assert(s.take(s.len() - 1).take(i) =~= s.take(i));
    }
}

proof fn lemma_trim_front_clean(s: Seq<char>)
    ensures
        trim_front(s).len() > 0 ==> !is_space_char(trim_front(s)[0]),
    decreases s.len(),
{
    if s.len() > 0 && is_space_char(s[0]) {
        lemma_trim_front_clean(s.skip(1));
    }
}

proof fn lemma_trim_back_clean(s: Seq<char>)
    ensures
        trim_back(s).len() > 0 ==> !is_space_char(trim_back(s).last()),
    decreases s.len(),
{
    if s.len() > 0 && is_space_char(s[s.len() - 1]) {
        lemma_trim_back_clean(s.take(s.len() - 1));
    }
}

proof fn lemma_trim_back_keeps_first(s: Seq<char>)
    ensures
        trim_back(s).len() > 0 ==> s.len() > 0 && trim_back(s)[0] == s[0],
    decreases s.len(),
{
    if s.len() > 0 && is_space_char(s[s.len() - 1]) {
        lemma_trim_back_keeps_first(s.take(s.len() - 1));
    }
}

/// Trimming is idempotent: the trimmed middle of a string carries no
/// surrounding whitespace of its own.
pub proof fn lemma_trim_idempotent(s: Seq<char>)
    ensures
        trim_seq(trim_seq(s)) == trim_seq(s),
{
    let f = trim_front(s);
    let t = trim_back(f);
    lemma_trim_front_clean(s);
    lemma_trim_back_clean(f);
    lemma_trim_back_keeps_first(f);
    assert(trim_front(t) == t);
    assert(trim_back(t) == t);
}

/// Parsing is unchanged by surrounding whitespace: each categorical
/// parser sees only the trimmed middle of its input, so trimming the
/// input first never changes the result.
pub proof fn lemma_parse_trim_invariant(s: Seq<char>)
    ensures
        spec_card_type(trim_seq(s)) == spec_card_type(s),
        spec_card_faction(trim_seq(s)) == spec_card_faction(s),
        spec_card_rarity(trim_seq(s)) == spec_card_rarity(s),
        spec_card_group(trim_seq(s)) == spec_card_group(s),
{
    lemma_trim_idempotent(s);
}

/// The bounds of the whitespace-trimmed middle of `s`, as character indices.
pub fn trim_bounds(s: &str) -> (r: (usize, usize))
    ensures
        0 <= r.0 <= r.1 <= s@.len(),
        trim_seq(s@) == s@.subrange(r.0 as int, r.1 as int),
{
    let n = s.unicode_len();
    let mut lo: usize = 0;
    while lo < n && is_space(s.get_char(lo))
        invariant
            0 <= lo <= n,
            n == s@.len(),
            forall|j: int| 0 <= j < lo ==> is_space_char(s@[j]),
        decreases n - lo,
    {
        lo = lo + 1;
    }
    let mut hi: usize = n;
    while hi > lo && is_space(s.get_char(hi - 1))
        invariant
            lo <= hi <= n,
            n == s@.len(),
            forall|j: int| hi <= j < n ==> is_space_char(s@[j]),
        decreases hi,
    {
        hi = hi - 1;
    }
    proof {
        lemma_trim_front_at(s@, lo as int);
        lemma_trim_back_at(s@.skip(lo as int), hi - lo as int);
        assert(s@.skip(lo as int).take(hi - lo as int) =~= s@.subrange(
            lo as int,
            hi as int,
        ));
    }
    (lo, hi)
}

/// The Unicode lowercase of a character sequence; a function of the
/// characters alone.
pub uninterp spec fn lower_of(s: Seq<char>) -> Seq<char>;

/// Relies on str::to_lowercase: the Unicode lowercase of `s`, which
/// depends on the characters of `s` alone.
#[verifier::external_body]
pub(crate) fn lowercase(s: &str) -> (r: String)
    ensures
        r@ == lower_of(s@),
{
    s.to_lowercase()
}

/// Whether the string spells exactly the literal.
fn string_eq_lit(t: &String, lit: &str) -> (b: bool)
    ensures
        b == (t@ == lit@),
{
    t.eq(&lit.to_owned())
}

/// Lowercases the whitespace-trimmed middle of `s`, as the parsers
/// compare it.
fn normalized(s: &str) -> (r: String)
    ensures
        r@ == lower_of(trim_seq(s@)),
{
    let (lo, hi) = trim_bounds(s);
    lowercase(s.substring_char(lo, hi))
}

/// The member of the type enumeration that `s` names, if any: the
/// comparison ignores surrounding whitespace and letter case.
pub open spec fn spec_card_type(s: Seq<char>) -> Option<CardType> {
    let t = lower_of(trim_seq(s));
    if t == "unit"@ {
        Some(CardType::UNIT)
    } else if t == "ability"@ {
        Some(CardType::ABILITY)
    } else if t == "spell"@ {
        Some(CardType::SPELL)
    } else if t == "stratagem"@ {
        Some(CardType::STRATEGEM)
    } else if t == "artifact"@ {
        Some(CardType::ARTIFACT)
    } else if t == "special"@ {
        Some(CardType::SPECIAL)
    } else {
        None
    }
}

pub open spec fn spec_card_faction(s: Seq<char>) -> Option<CardFaction> {
    let t = lower_of(trim_seq(s));
    if t == "monster"@ {
        Some(CardFaction::MONSTER)
    } else if t == "neutral"@ {
        Some(CardFaction::NEUTRAL)
    } else if t == "skellige"@ {
        Some(CardFaction::SKELLIGE)
    } else if t == "syndicate"@ {
        Some(CardFaction::SYNDICATE)
    } else if t == "scoiatael"@ {
        Some(CardFaction::SCOIATAEL)
    } else if t == "nilfgaard"@ {
        Some(CardFaction::NILFGAARD)
    } else if t == "northern_realms"@ {
        Some(CardFaction::NORTHERNREALMS)
    } else {
        None
    }
}

pub open spec fn spec_card_rarity(s: Seq<char>) -> Option<CardRarity> {
    let t = lower_of(trim_seq(s));
    if t == "legendary"@ {
        Some(CardRarity::LEGENDARY)
    } else if t == "epic"@ {
        Some(CardRarity::EPIC)
    } else if t == "rare"@ {
        Some(CardRarity::RARE)
    } else if t == "common"@ {
        Some(CardRarity::COMMON)
    } else {
        None
    }
}

pub open spec fn spec_card_group(s: Seq<char>) -> Option<CardGroup> {
    let t = lower_of(trim_seq(s));
    if t == "gold"@ {
        Some(CardGroup::GOLD)
    } else if t == "bronze"@ {
        Some(CardGroup::BRONZE)
    } else if t == "leader"@ {
        Some(CardGroup::NONE)
    } else {
        None
    }
}

impl CardType {
    /// Parses a type attribute; unknown values are a schema error.
    pub fn from_str(s: &str) -> (r: Result<CardType, SchemaError>)
        ensures
            match r {
                Ok(t) => spec_card_type(s@) == Some(t),
                Err(e) => spec_card_type(s@) is None && e == SchemaError::UnknownVariant,
            },
    {
        let t = normalized(s);
        if string_eq_lit(&t, "unit") {
            Ok(CardType::UNIT)
        } else if string_eq_lit(&t, "ability") {
            Ok(CardType::ABILITY)
        } else if string_eq_lit(&t, "spell") {
            Ok(CardType::SPELL)
        } else if string_eq_lit(&t, "stratagem") {
            Ok(CardType::STRATEGEM)
        } else if string_eq_lit(&t, "artifact") {
            Ok(CardType::ARTIFACT)
        } else if string_eq_lit(&t, "special") {
            Ok(CardType::SPECIAL)
        } else {
            Err(SchemaError::UnknownVariant)
        }
    }
}

impl CardFaction {
    /// Parses a faction attribute; unknown values are a schema error.
    pub fn from_str(s: &str) -> (r: Result<CardFaction, SchemaError>)
        ensures
            match r {
                Ok(t) => spec_card_faction(s@) == Some(t),
                Err(e) => spec_card_faction(s@) is None && e == SchemaError::UnknownVariant,
            },
    {
        let t = normalized(s);
        if string_eq_lit(&t, "monster") {
            Ok(CardFaction::MONSTER)
        } else if string_eq_lit(&t, "neutral") {
            Ok(CardFaction::NEUTRAL)
        } else if string_eq_lit(&t, "skellige") {
            Ok(CardFaction::SKELLIGE)
        } else if string_eq_lit(&t, "syndicate") {
            Ok(CardFaction::SYNDICATE)
        } else if string_eq_lit(&t, "scoiatael") {
            Ok(CardFaction::SCOIATAEL)
        } else if string_eq_lit(&t, "nilfgaard") {
            Ok(CardFaction::NILFGAARD)
        } else if string_eq_lit(&t, "northern_realms") {
            Ok(CardFaction::NORTHERNREALMS)
        } else {
            Err(SchemaError::UnknownVariant)
        }
    }
}

impl CardRarity {
    /// Parses a rarity attribute; unknown values are a schema error.
    pub fn from_str(s: &str) -> (r: Result<CardRarity, SchemaError>)
        ensures
            match r {
                Ok(t) => spec_card_rarity(s@) == Some(t),
                Err(e) => spec_card_rarity(s@) is None && e == SchemaError::UnknownVariant,
            },
    {
        let t = normalized(s);
        if string_eq_lit(&t, "legendary") {
            Ok(CardRarity::LEGENDARY)
        } else if string_eq_lit(&t, "epic") {
            Ok(CardRarity::EPIC)
        } else if string_eq_lit(&t, "rare") {
            Ok(CardRarity::RARE)
        } else if string_eq_lit(&t, "common") {
            Ok(CardRarity::COMMON)
        } else {
            Err(SchemaError::UnknownVariant)
        }
    }
}

impl CardGroup {
    /// Parses a group attribute; a literal `leader` maps to the neutral
    /// group, and unknown values are a schema error.
    pub fn from_str(s: &str) -> (r: Result<CardGroup, SchemaError>)
        ensures
            match r {
                Ok(t) => spec_card_group(s@) == Some(t),
                Err(e) => spec_card_group(s@) is None && e == SchemaError::UnknownVariant,
            },
    {
        let t = normalized(s);
        if string_eq_lit(&t, "gold") {
            Ok(CardGroup::GOLD)
        } else if string_eq_lit(&t, "bronze") {
            Ok(CardGroup::BRONZE)
        } else if string_eq_lit(&t, "leader") {
            Ok(CardGroup::NONE)
        } else {
            Err(SchemaError::UnknownVariant)
        }
    }
}

} // verus!
