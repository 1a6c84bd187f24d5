//! The structured extraction layer: turns one page of rendered markup into
//! validated catalog records, and reads the page index list off the first
//! page.  The markup is parsed and queried by the `scraper` crate behind
//! trusted wrappers; everything from the raw fragment fields onwards —
//! number parsing, category splitting, keyword assembly, enumeration
//! checking — is verified against exact contracts.

use vstd::prelude::*;

use super::model::{
    lower_of, lowercase, spec_card_faction, spec_card_group, spec_card_rarity, spec_card_type,
    trim_bounds, trim_seq, CardData, CardFaction, CardGroup, CardRarity, CardType, CardView,
    SchemaError,
};
use vstd::string::StrSliceExecFns;
use vstd::string::StringExecFns;

verus! {

#[verifier::external_type_specification]
#[verifier::external_body]
pub struct ExHtml(scraper::Html);

#[verifier::external_type_specification]
#[verifier::external_body]
pub struct ExSelector(scraper::Selector);

#[verifier::external_type_specification]
#[verifier::external_body]
pub struct ExElementRef<'a>(scraper::ElementRef<'a>);

/// Relies on scraper::ElementRef::select: the element's descendant
/// elements matching the selector, in document order.
#[verifier::external_body]
fn select_in_element<'a>(el: &scraper::ElementRef<'a>, sel: &scraper::Selector) -> Vec<
    scraper::ElementRef<'a>,
> {
    el.select(sel).collect()
}

/// Relies on scraper::ElementRef::inner_html: the serialized markup of the
/// element's children.
#[verifier::external_body]
fn inner_html(el: &scraper::ElementRef<'_>) -> String {
    el.inner_html()
}

/// Relies on scraper::ElementRef::attr (via Element::attr): the value of
/// the named attribute, if present.
#[verifier::external_body]
fn element_attr(el: &scraper::ElementRef<'_>, name: &str) -> Option<String> {
    el.attr(name).map(|v| v.to_string())
}

/// Relies on scraper::node::Element::classes (via ElementRef::value): the
/// element's style classes.
#[verifier::external_body]
fn element_classes(el: &scraper::ElementRef<'_>) -> Vec<String> {
    el.value().classes().map(|c| c.to_string()).collect()
}

pub open spec fn is_digit_char(c: char) -> bool {
    48 <= c as u32 <= 57
}

/// Whether `s` is one or more decimal digits and nothing else.
pub open spec fn all_digits(s: Seq<char>) -> bool {
    s.len() > 0 && forall|i: int| 0 <= i < s.len() ==> is_digit_char(s[i])
}

/// The numeric value of a digit sequence.
pub open spec fn digits_value(s: Seq<char>) -> nat
    decreases s.len(),
{
    if s.len() == 0 {
        0
    } else {
        digits_value(s.drop_last()) * 10 + (s.last() as u32 - 48) as nat
    }
}

/// The digit part of a numeric attribute: the text with one optional
/// leading `+` sign removed.
pub open spec fn digits_of(s: Seq<char>) -> Seq<char> {
    if s.len() > 0 && s[0] == '+' {
        s.skip(1)
    } else {
        s
    }
}

/// What an unsigned numeric attribute parses to: the value of its digits
/// after an optional `+` sign, if they are digits only and the value fits
/// the machine.
pub open spec fn spec_parse_usize(s: Seq<char>) -> Option<usize> {
    if all_digits(digits_of(s)) && digits_value(digits_of(s)) <= usize::MAX {
        Some(digits_value(digits_of(s)) as usize)
    } else {
        None
    }
}

proof fn lemma_digits_value_grows(s: Seq<char>, k: int)
    requires
        0 <= k <= s.len(),
    ensures
        digits_value(s) >= digits_value(s.take(k)),
    decreases s.len(),
{
    if k < s.len() {
        lemma_digits_value_grows(s.drop_last(), k);
        assert(s.drop_last().take(k) =~= s.take(k));
        assert(digits_value(s.drop_last()) * 10 >= digits_value(s.drop_last()));
    } else {
        assert(s.take(k) =~= s);
    }
}

/// Parses a required numeric attribute: an optional `+` sign and one or
/// more decimal digits whose value fits the machine word; anything else
/// is a schema error.
pub fn parse_usize(s: &str) -> (r: Result<usize, SchemaError>)
    ensures
        match r {
            Ok(v) => spec_parse_usize(s@) == Some(v),
            Err(e) => spec_parse_usize(s@) is None && e == SchemaError::MalformedNumber,
        },
{
    let n = s.unicode_len();
    let start: usize = if n > 0 && s.get_char(0) == '+' {
        1
    } else {
        0
    };
    let ghost ds = digits_of(s@);
    proof {
        if start == 1 {
            assert(ds =~= s@.skip(1));
        } else {
            assert(s@.skip(0) =~= s@);
        }
    }
    if n == start {
        return Err(SchemaError::MalformedNumber);
    }
    let mut val: usize = 0;
    let mut i: usize = start;
    while i < n
        invariant
            start <= i <= n,
            n == s@.len(),
            ds == digits_of(s@),
            ds == s@.skip(start as int),
            ds.len() == n - start,
            forall|j: int| 0 <= j < i - start ==> is_digit_char(ds[j]),
            val == digits_value(ds.take(i - start)),
        decreases n - i,
    {
        let ghost k = i - start;
        let c = s.get_char(i);
        let u = c as u32;
        proof {
            assert(ds[k] == s@[i as int]);
        }
        if u < 48 || u > 57 {
            proof {
                assert(!is_digit_char(ds[k]));
            }
            return Err(SchemaError::MalformedNumber);
        }
        let d = (u - 48) as usize;
        if val > (usize::MAX - d) / 10 {
            proof {
                let max = usize::MAX as int;
                assert(10 * ((max - d) / 10) + (max - d) % 10 == max - d);
                assert(val * 10 + d > usize::MAX);
                assert(ds.take(k + 1).drop_last() =~= ds.take(k));
                assert(ds.take(k + 1).last() == ds[k]);
                assert(digits_value(ds.take(k + 1)) == val * 10 + d);
                if all_digits(ds) {
                    lemma_digits_value_grows(ds, k + 1);
                    assert(digits_value(ds) > usize::MAX);
                }
            }
            return Err(SchemaError::MalformedNumber);
        }
        proof {
            let max = usize::MAX as int;
            assert(10 * ((max - d) / 10) + (max - d) % 10 == max - d);
            assert(val * 10 + d <= usize::MAX);
            assert(ds.take(k + 1).drop_last() =~= ds.take(k));
            assert(ds.take(k + 1).last() == ds[k]);
        }
        val = val * 10 + d;
        i = i + 1;
    }
    proof {
        assert(ds.take(ds.len() as int) =~= ds);
        assert(all_digits(ds));
    }
    Ok(val)
}

/// The position of the first `", "` separator in `s`, or past the end if
/// there is none.
pub open spec fn first_sep_pos(s: Seq<char>) -> nat
    decreases s.len(),
{
    if s.len() < 2 {
        s.len()
    } else if s[0] == ',' && s[1] == ' ' {
        0
    } else {
        1 + first_sep_pos(s.skip(1))
    }
}

/// The tokens of `s` split on `", "`, leftmost separator first; a string
/// with no separator is one token, and an empty string is one empty token.
pub open spec fn split_commas(s: Seq<char>) -> Seq<Seq<char>>
    decreases s.len(),
{
    let p = first_sep_pos(s);
    if p + 2 <= s.len() {
        seq![s.take(p as int)] + split_commas(s.skip((p + 2) as int))
    } else {
        seq![s]
    }
}

/// Whether a `", "` separator starts at position `j`.
pub open spec fn sep_at(s: Seq<char>, j: int) -> bool {
    0 <= j && j + 1 < s.len() && s[j] == ',' && s[j + 1] == ' '
}

proof fn lemma_first_sep_found(s: Seq<char>, k: int)
    requires
        0 <= k,
        k + 1 < s.len(),
        forall|j: int| 0 <= j < k ==> !sep_at(s, j),
        sep_at(s, k),
    ensures
        first_sep_pos(s) == k,
    decreases k,
{
    if k == 0 {
    } else {
        assert(!sep_at(s, 0));
        assert forall|j: int| 0 <= j < k - 1 implies !sep_at(s.skip(1), j) by {
            assert(!sep_at(s, j + 1));
        }
        assert(sep_at(s.skip(1), k - 1));
        lemma_first_sep_found(s.skip(1), k - 1);
    }
}

proof fn lemma_first_sep_none(s: Seq<char>)
    requires
        forall|j: int| 0 <= j ==> !sep_at(s, j),
    ensures
        first_sep_pos(s) + 2 > s.len(),
    decreases s.len(),
{
    if s.len() >= 2 {
        assert(!sep_at(s, 0));
        assert forall|j: int| 0 <= j implies !sep_at(s.skip(1), j) by {
            assert(!sep_at(s, j + 1));
        }
        lemma_first_sep_none(s.skip(1));
    }
}

/// Splits `s` on `", "`, token strings in order.
pub fn split_commas_exec(s: &str) -> (r: Vec<String>)
    ensures
        r.deep_view() == split_commas(s@),
{
    let n = s.unicode_len();
    let mut r: Vec<String> = Vec::new();
    let mut from: usize = 0;
    let mut i: usize = 0;
    proof {
        assert(s@.skip(0) =~= s@);
        assert(r.deep_view() =~= Seq::<Seq<char>>::empty());
        assert(Seq::<Seq<char>>::empty() + split_commas(s@) =~= split_commas(s@));
    }
    while n - i > 1
        invariant
            0 <= from <= i <= n,
            n == s@.len(),
            forall|j: int| from <= j < i ==> !sep_at(s@, j),
            r.deep_view() + split_commas(s@.skip(from as int)) =~= split_commas(s@),
        decreases n - i,
    {
        if s.get_char(i) == ',' && s.get_char(i + 1) == ' ' {
            let token = s.substring_char(from, i).to_owned();
            proof {
                let rest = s@.skip(from as int);
                assert forall|j: int| 0 <= j < i - from implies !sep_at(rest, j) by {
                    assert(!sep_at(s@, from + j));
                }
                assert(sep_at(rest, i - from));
                lemma_first_sep_found(rest, i - from);
                assert(rest.take(i - from) =~= s@.subrange(from as int, i as int));
                assert(rest.skip(i - from + 2) =~= s@.skip(i + 2));
                assert(split_commas(rest) == seq![s@.subrange(from as int, i as int)]
                    + split_commas(s@.skip(i + 2)));
                assert((r.deep_view().push(token@)) =~= r.deep_view() + seq![token@]);
                assert(r.deep_view().push(token@) + split_commas(s@.skip(i + 2)) =~= split_commas(
                    s@,
                ));
            }
            r.push(token);
            from = i + 2;
            i = i + 2;
        } else {
            proof {
                assert(!sep_at(s@, i as int));
            }
            i = i + 1;
        }
    }
    let last = s.substring_char(from, n).to_owned();
    proof {
        let rest = s@.skip(from as int);
        assert forall|j: int| 0 <= j implies !sep_at(rest, j) by {
            if j < rest.len() - 1 {
                assert(!sep_at(s@, from + j));
            }
        }
        lemma_first_sep_none(rest);
        assert(split_commas(rest) == seq![rest]);
        assert(rest =~= s@.subrange(from as int, n as int));
        assert(r.deep_view().push(last@) =~= r.deep_view() + seq![last@]);
    }
    r.push(last);
    proof {
        assert(r.deep_view() =~= split_commas(s@));
    }
    r
}

/// The categories a raw category string yields: each `", "`-separated
/// token that does not begin with the reserved `&` marker, trimmed and
/// lowercased, first occurrence kept.
pub open spec fn category_values(tokens: Seq<Seq<char>>) -> Seq<Seq<char>>
    decreases tokens.len(),
{
    if tokens.len() == 0 {
        Seq::empty()
    } else {
        let front = category_values(tokens.drop_last());
        let t = tokens.last();
        if t.len() > 0 && t[0] == '&' {
            front
        } else {
            let v = lower_of(trim_seq(t));
            if front.contains(v) {
                front
            } else {
                front.push(v)
            }
        }
    }
}

/// Whether the list already holds a string with these characters.
fn contains_string(v: &Vec<String>, x: &String) -> (b: bool)
    ensures
        b == v.deep_view().contains(x@),
{
    let mut i: usize = 0;
    while i < v.len()
        invariant
            0 <= i <= v@.len(),
            forall|j: int| 0 <= j < i ==> v.deep_view()[j] != x@,
        decreases v@.len() - i,
    {
        if v[i].eq(x) {
            proof {
                assert(v.deep_view()[i as int] == x@);
            }
            return true;
        }
        i = i + 1;
    }
    proof {
        if v.deep_view().contains(x@) {
            let j = choose|j: int| 0 <= j < v.deep_view().len() && v.deep_view()[j] == x@;
            assert(v.deep_view()[j] != x@);
        }
    }
    false
}

/// The category set of a raw category string, in first-occurrence order.
pub fn categories_of(raw: &str) -> (r: Vec<String>)
    ensures
        r.deep_view() == category_values(split_commas(raw@)),
{
    let tokens = split_commas_exec(raw);
    let mut r: Vec<String> = Vec::new();
    let mut i: usize = 0;
    while i < tokens.len()
        invariant
            0 <= i <= tokens@.len(),
            tokens.deep_view() == split_commas(raw@),
            r.deep_view() == category_values(tokens.deep_view().take(i as int)),
        decreases tokens@.len() - i,
    {
        let ghost toks = tokens.deep_view();
        proof {
            assert(toks.take(i + 1).drop_last() =~= toks.take(i as int));
            assert(toks.take(i + 1).last() == toks[i as int]);
            assert(toks[i as int] == tokens@[i as int]@);
        }
        let t = &tokens[i];
        let skip = t.unicode_len() > 0 && t.as_str().get_char(0) == '&';
        if !skip {
            let (lo, hi) = trim_bounds(t.as_str());
            let low = lowercase(t.as_str().substring_char(lo, hi));
            if !contains_string(&r, &low) {
                proof {
                    assert(r.deep_view().push(low@) =~= category_values(toks.take(i + 1)));
                }
                r.push(low);
            }
        }
        i = i + 1;
    }
    proof {
        assert(tokens.deep_view().take(tokens@.len() as int) =~= tokens.deep_view());
    }
    r
}

/// The keyword a list of style classes yields: the concatenation, in
/// order, of every class other than the `keyword` marker itself.
pub open spec fn keyword_of(classes: Seq<Seq<char>>) -> Seq<char>
    decreases classes.len(),
{
    if classes.len() == 0 {
        Seq::empty()
    } else {
        keyword_of(classes.drop_last()) + (if classes.last() == "keyword"@ {
            Seq::empty()
        } else {
            classes.last()
        })
    }
}

/// The keyword set of the keyword elements of one fragment, each element
/// contributing the keyword its classes spell, first occurrence kept.
pub open spec fn keyword_values(els: Seq<Seq<Seq<char>>>) -> Seq<Seq<char>>
    decreases els.len(),
{
    if els.len() == 0 {
        Seq::empty()
    } else {
        let front = keyword_values(els.drop_last());
        let v = keyword_of(els.last());
        if front.contains(v) {
            front
        } else {
            front.push(v)
        }
    }
}

/// Concatenates every class other than the `keyword` marker.
fn keyword_of_exec(classes: &Vec<String>) -> (r: String)
    ensures
        r@ == keyword_of(classes.deep_view()),
{
    let marker = "keyword".to_owned();
    let mut r = String::new();
    let mut i: usize = 0;
    while i < classes.len()
        invariant
            0 <= i <= classes@.len(),
            marker@ == "keyword"@,
            r@ == keyword_of(classes.deep_view().take(i as int)),
        decreases classes@.len() - i,
    {
        let ghost cls = classes.deep_view();
        proof {
            assert(cls.take(i + 1).drop_last() =~= cls.take(i as int));
            assert(cls.take(i + 1).last() == cls[i as int]);
            assert(cls[i as int] == classes@[i as int]@);
        }
        if !classes[i].eq(&marker) {
            r.append(classes[i].as_str());
        } else {
            proof {
                assert(r@ + Seq::<char>::empty() =~= r@);
            }
        }
        i = i + 1;
    }
    proof {
        assert(classes.deep_view().take(classes@.len() as int) =~= classes.deep_view());
    }
    r
}

/// The keyword set of one fragment, in first-occurrence order.
pub fn keywords_of(keyword_classes: &Vec<Vec<String>>) -> (r: Vec<String>)
    ensures
        r.deep_view() == keyword_values(keyword_classes.deep_view()),
{
    let mut r: Vec<String> = Vec::new();
    let mut i: usize = 0;
    while i < keyword_classes.len()
        invariant
            0 <= i <= keyword_classes@.len(),
            r.deep_view() == keyword_values(keyword_classes.deep_view().take(i as int)),
        decreases keyword_classes@.len() - i,
    {
        let ghost els = keyword_classes.deep_view();
        proof {
            assert(els.take(i + 1).drop_last() =~= els.take(i as int));
            assert(els.take(i + 1).last() == els[i as int]);
            assert(els[i as int] == keyword_classes@[i as int].deep_view());
        }
        let v = keyword_of_exec(&keyword_classes[i]);
        if !contains_string(&r, &v) {
            proof {
                assert(r.deep_view().push(v@) =~= keyword_values(els.take(i + 1)));
            }
            r.push(v);
        }
        i = i + 1;
    }
    proof {
        assert(keyword_classes.deep_view().take(keyword_classes@.len() as int)
            =~= keyword_classes.deep_view());
    }
    r
}

/// The raw, untyped content of one card fragment, as the markup query
/// layer hands it over: sub-element contents, style classes, and the
/// required data attributes, each absent when the markup lacks it.
pub struct CardFragment {
    pub name: Option<String>,
    pub category: Option<String>,
    pub keyword_classes: Vec<Vec<String>>,
    pub id: Option<String>,
    pub power: Option<String>,
    pub armor: Option<String>,
    pub provision: Option<String>,
    pub faction: Option<String>,
    pub card_type: Option<String>,
    pub rarity: Option<String>,
    pub color: Option<String>,
}

pub open spec fn opt_view(o: Option<String>) -> Option<Seq<char>> {
    match o {
        Some(s) => Some(s@),
        None => None,
    }
}

/// The abstract content of a raw fragment.
pub struct FragView {
    pub name: Option<Seq<char>>,
    pub category: Option<Seq<char>>,
    pub keyword_classes: Seq<Seq<Seq<char>>>,
    pub id: Option<Seq<char>>,
    pub power: Option<Seq<char>>,
    pub armor: Option<Seq<char>>,
    pub provision: Option<Seq<char>>,
    pub faction: Option<Seq<char>>,
    pub card_type: Option<Seq<char>>,
    pub rarity: Option<Seq<char>>,
    pub color: Option<Seq<char>>,
}

impl View for CardFragment {
    type V = FragView;

    open spec fn view(&self) -> FragView {
        FragView {
            name: opt_view(self.name),
            category: opt_view(self.category),
            keyword_classes: self.keyword_classes.deep_view(),
            id: opt_view(self.id),
            power: opt_view(self.power),
            armor: opt_view(self.armor),
            provision: opt_view(self.provision),
            faction: opt_view(self.faction),
            card_type: opt_view(self.card_type),
            rarity: opt_view(self.rarity),
            color: opt_view(self.color),
        }
    }
}

/// The first schema violation a fragment exhibits, if any, in the order
/// the fields are read: a missing sub-element or attribute, a numeric
/// attribute that is not an unsigned integer, or a categorical attribute
/// outside its closed set.
pub open spec fn spec_card_error(f: FragView) -> Option<SchemaError> {
    if f.name is None {
        Some(SchemaError::MissingAttribute)
    } else if f.category is None {
        Some(SchemaError::MissingAttribute)
    } else if f.id is None {
        Some(SchemaError::MissingAttribute)
    } else if spec_parse_usize(f.id.unwrap()) is None {
        Some(SchemaError::MalformedNumber)
    } else if f.power is None {
        Some(SchemaError::MissingAttribute)
    } else if spec_parse_usize(f.power.unwrap()) is None {
        Some(SchemaError::MalformedNumber)
    } else if f.armor is None {
        Some(SchemaError::MissingAttribute)
    } else if spec_parse_usize(f.armor.unwrap()) is None {
        Some(SchemaError::MalformedNumber)
    } else if f.provision is None {
        Some(SchemaError::MissingAttribute)
    } else if spec_parse_usize(f.provision.unwrap()) is None {
        Some(SchemaError::MalformedNumber)
    } else if f.faction is None {
        Some(SchemaError::MissingAttribute)
    } else if spec_card_faction(f.faction.unwrap()) is None {
        Some(SchemaError::UnknownVariant)
    } else if f.card_type is None {
        Some(SchemaError::MissingAttribute)
    } else if spec_card_type(f.card_type.unwrap()) is None {
        Some(SchemaError::UnknownVariant)
    } else if f.rarity is None {
        Some(SchemaError::MissingAttribute)
    } else if spec_card_rarity(f.rarity.unwrap()) is None {
        Some(SchemaError::UnknownVariant)
    } else if f.color is None {
        Some(SchemaError::MissingAttribute)
    } else if spec_card_group(f.color.unwrap()) is None {
        Some(SchemaError::UnknownVariant)
    } else {
        None
    }
}

/// The record a schema-conforming fragment yields.
pub open spec fn spec_card_ok(f: FragView) -> CardView
    recommends
        spec_card_error(f) is None,
{
    CardView {
        id: spec_parse_usize(f.id.unwrap()).unwrap(),
        name: f.name.unwrap(),
        categories: category_values(split_commas(f.category.unwrap())),
        keywords: keyword_values(f.keyword_classes),
        power: spec_parse_usize(f.power.unwrap()).unwrap(),
        provisions: spec_parse_usize(f.provision.unwrap()).unwrap(),
        armor: spec_parse_usize(f.armor.unwrap()).unwrap(),
        faction: spec_card_faction(f.faction.unwrap()).unwrap(),
        card_type: spec_card_type(f.card_type.unwrap()).unwrap(),
        rarity: spec_card_rarity(f.rarity.unwrap()).unwrap(),
        group: spec_card_group(f.color.unwrap()).unwrap(),
    }
}

impl CardData {
    /// Validates one raw fragment into a catalog record.  Every required
    /// field must be present and well-formed; the first violation, in
    /// field order, is returned as the schema error.
    pub fn from_fragment(f: &CardFragment) -> (r: Result<CardData, SchemaError>)
        ensures
            match r {
                Ok(c) => spec_card_error(f@) is None && c@ == spec_card_ok(f@),
                Err(e) => spec_card_error(f@) == Some(e),
            },
    {
        let name = match &f.name {
            Some(s) => s.clone(),
            None => {
                return Err(SchemaError::MissingAttribute);
            },
        };
        let raw_category = match &f.category {
            Some(s) => s,
            None => {
                return Err(SchemaError::MissingAttribute);
            },
        };
        let categories = categories_of(raw_category.as_str());
        let keywords = keywords_of(&f.keyword_classes);
        let id = match &f.id {
            Some(s) => match parse_usize(s.as_str()) {
                Ok(v) => v,
                Err(e) => {
                    return Err(e);
                },
            },
            None => {
                return Err(SchemaError::MissingAttribute);
            },
        };
        let power = match &f.power {
            Some(s) => match parse_usize(s.as_str()) {
                Ok(v) => v,
                Err(e) => {
                    return Err(e);
                },
            },
            None => {
                return Err(SchemaError::MissingAttribute);
            },
        };
        let armor = match &f.armor {
            Some(s) => match parse_usize(s.as_str()) {
                Ok(v) => v,
                Err(e) => {
                    return Err(e);
                },
            },
            None => {
                return Err(SchemaError::MissingAttribute);
            },
        };
        let provisions = match &f.provision {
            Some(s) => match parse_usize(s.as_str()) {
                Ok(v) => v,
                Err(e) => {
                    return Err(e);
                },
            },
            None => {
                return Err(SchemaError::MissingAttribute);
            },
        };
        let faction = match &f.faction {
            Some(s) => match CardFaction::from_str(s.as_str()) {
                Ok(v) => v,
                Err(e) => {
                    return Err(e);
                },
            },
            None => {
                return Err(SchemaError::MissingAttribute);
            },
        };
        let card_type = match &f.card_type {
            Some(s) => match CardType::from_str(s.as_str()) {
                Ok(v) => v,
                Err(e) => {
                    return Err(e);
                },
            },
            None => {
                return Err(SchemaError::MissingAttribute);
            },
        };
        let rarity = match &f.rarity {
            Some(s) => match CardRarity::from_str(s.as_str()) {
                Ok(v) => v,
                Err(e) => {
                    return Err(e);
                },
            },
            None => {
                return Err(SchemaError::MissingAttribute);
            },
        };
        let group = match &f.color {
            Some(s) => match CardGroup::from_str(s.as_str()) {
                Ok(v) => v,
                Err(e) => {
                    return Err(e);
                },
            },
            None => {
                return Err(SchemaError::MissingAttribute);
            },
        };
        Ok(
            CardData {
                id,
                name,
                categories,
                keywords,
                power,
                provisions,
                armor,
                faction,
                card_type,
                rarity,
                group,
            },
        )
    }
}

/// Collects the raw content of one card fragment through the markup
/// query wrappers.
fn fragment_of(
    el: &scraper::ElementRef<'_>,
    name_sel: &scraper::Selector,
    cat_sel: &scraper::Selector,
    kw_sel: &scraper::Selector,
) -> CardFragment {
    let names = select_in_element(el, name_sel);
    let name = if names.len() == 0 {
        None
    } else {
        Some(inner_html(&names[0]))
    };
    let cats = select_in_element(el, cat_sel);
    let category = if cats.len() == 0 {
        None
    } else {
        Some(inner_html(&cats[0]))
    };
    let kws = select_in_element(el, kw_sel);
    let mut keyword_classes: Vec<Vec<String>> = Vec::new();
    let mut i: usize = 0;
    while i < kws.len()
        decreases kws@.len() - i,
    {
        keyword_classes.push(element_classes(&kws[i]));
        i = i + 1;
    }
    CardFragment {
        name,
        category,
        keyword_classes,
        id: element_attr(el, "data-id"),
        power: element_attr(el, "data-power"),
        armor: element_attr(el, "data-armor"),
        provision: element_attr(el, "data-provision"),
        faction: element_attr(el, "data-faction"),
        card_type: element_attr(el, "data-type"),
        rarity: element_attr(el, "data-rarity"),
        color: element_attr(el, "data-color"),
    }
}
/// The raw card fragments of a page of markup, in document order, as the
/// markup query layer reads them.
pub uninterp spec fn fragments_of(html: Seq<char>) -> Seq<FragView>;

/// The labels of the pagination control's page links of a page of markup,
/// in document order.
pub uninterp spec fn page_links_of(html: Seq<char>) -> Seq<Seq<char>>;

/// The abstract content of a list of raw fragments.
pub open spec fn frag_views(fs: Seq<CardFragment>) -> Seq<FragView> {
    fs.map(|i: int, f: CardFragment| f@)
}

/// The abstract content of a list of validated records.
pub open spec fn card_views(cs: Seq<CardData>) -> Seq<CardView> {
    cs.map(|i: int, c: CardData| c@)
}

/// Relies on scraper's Html::parse_document, Selector::parse and
/// Html::select: locates every card-container fragment of the markup, in
/// document order; the content of each is read through [`fragment_of`].
/// The result is a function of the markup text alone.  The selector
/// literals are fixed and valid, so compiling them cannot fail.
#[verifier::external_body]
fn card_fragments(html: &str) -> (r: Vec<CardFragment>)
    ensures
        frag_views(r@) == fragments_of(html@),
{
    let doc = scraper::Html::parse_document(html);
    let wrap = scraper::Selector::parse(".card-wrap.card-data").unwrap();
    let name = scraper::Selector::parse(".card-name > a").unwrap();
    let cat = scraper::Selector::parse(".card-category").unwrap();
    let kw = scraper::Selector::parse(".keyword").unwrap();
    doc.select(&wrap).map(|el| fragment_of(&el, &name, &cat, &kw)).collect()
}

/// Relies on scraper's Html::parse_document, Selector::parse, Html::select
/// and ElementRef::inner_html: the labels of the pagination control's page
/// links, in document order; a function of the markup text alone.  The
/// selector literal is fixed and valid, so compiling it cannot fail.
#[verifier::external_body]
fn page_link_labels(html: &str) -> (r: Vec<String>)
    ensures
        r.deep_view() == page_links_of(html@),
{
    let doc = scraper::Html::parse_document(html);
    let sel = scraper::Selector::parse("#pages-top a.page-link[href=\"#pages-top\"]").unwrap();
    doc.select(&sel).map(|el| el.inner_html()).collect()
}

/// What extracting a page's fragments yields: the validated record of
/// each fragment, in order — or the first fragment's schema violation,
/// which aborts the whole page.
pub open spec fn spec_extract(fs: Seq<FragView>) -> Result<Seq<CardView>, SchemaError>
    decreases fs.len(),
{
    if fs.len() == 0 {
        Ok(Seq::empty())
    } else {
        match spec_card_error(fs[0]) {
            Some(e) => Err(e),
            None => match spec_extract(fs.skip(1)) {
                Err(e) => Err(e),
                Ok(rest) => Ok(seq![spec_card_ok(fs[0])] + rest),
            },
        }
    }
}

proof fn lemma_spec_extract_push(fs: Seq<FragView>, f: FragView)
    ensures
        spec_extract(fs) is Err ==> spec_extract(fs.push(f)) == spec_extract(fs),
        spec_extract(fs) is Ok && spec_card_error(f) is Some ==> spec_extract(fs.push(f))
            == Err::<Seq<CardView>, SchemaError>(spec_card_error(f).unwrap()),
        spec_extract(fs) is Ok && spec_card_error(f) is None ==> spec_extract(fs.push(f))
            == Ok::<Seq<CardView>, SchemaError>(spec_extract(fs).unwrap().push(spec_card_ok(f))),
    decreases fs.len(),
{
    if fs.len() == 0 {
        assert(fs.push(f)[0] == f);
        assert(fs.push(f).skip(1) =~= Seq::<FragView>::empty());
        assert(spec_extract(fs) == Ok::<Seq<CardView>, SchemaError>(Seq::empty()));
        assert(spec_extract(fs.push(f).skip(1)) == Ok::<Seq<CardView>, SchemaError>(Seq::empty()));
        if spec_card_error(f) is None {
            assert(spec_extract(fs.push(f)) == Ok::<Seq<CardView>, SchemaError>(
                seq![spec_card_ok(f)] + Seq::<CardView>::empty(),
            ));
            assert(seq![spec_card_ok(f)] + Seq::<CardView>::empty() =~= Seq::<
                CardView,
            >::empty().push(spec_card_ok(f)));
        }
    } else {
        assert(fs.push(f)[0] == fs[0]);
        assert(fs.push(f).skip(1) =~= fs.skip(1).push(f));
        assert(spec_extract(fs.push(f).skip(1)) == spec_extract(fs.skip(1).push(f)));
        lemma_spec_extract_push(fs.skip(1), f);
        if spec_extract(fs) is Ok && spec_card_error(fs[0]) is None && spec_card_error(f)
            is None {
            assert(seq![spec_card_ok(fs[0])] + spec_extract(fs.skip(1)).unwrap().push(
                spec_card_ok(f),
            ) =~= (seq![spec_card_ok(fs[0])] + spec_extract(fs.skip(1)).unwrap()).push(
                spec_card_ok(f),
            ));
        }
    }
}

proof fn lemma_spec_extract_err_prefix(fs: Seq<FragView>, k: int)
    requires
        0 <= k <= fs.len(),
        spec_extract(fs.take(k)) is Err,
    ensures
        spec_extract(fs) == spec_extract(fs.take(k)),
    decreases fs.len() - k,
{
    if k < fs.len() {
        assert(fs.take(k + 1) =~= fs.take(k).push(fs[k]));
        lemma_spec_extract_push(fs.take(k), fs[k]);
        lemma_spec_extract_err_prefix(fs, k + 1);
    } else {
        assert(fs.take(k) =~= fs);
    }
}

/// Extracts every card fragment of one page of markup into validated
/// records, in document order.  The result is exactly what the page's
/// fragments dictate: the records of the conforming fragments, or the
/// first fragment's schema violation, which aborts the whole page.
pub fn extract_cards(html: &str) -> (r: Result<Vec<CardData>, SchemaError>)
    ensures
        match r {
            Ok(v) => spec_extract(fragments_of(html@)) == Ok::<Seq<CardView>, SchemaError>(
                card_views(v@),
            ),
            Err(e) => spec_extract(fragments_of(html@)) == Err::<Seq<CardView>, SchemaError>(e),
        },
{
    let frags = card_fragments(html);
    let ghost fv = fragments_of(html@);
    let mut out: Vec<CardData> = Vec::new();
    let mut i: usize = 0;
    proof {
        assert(fv.take(0) =~= Seq::<FragView>::empty());
        assert(card_views(out@) =~= Seq::<CardView>::empty());
    }
    while i < frags.len()
        invariant
            0 <= i <= frags@.len(),
            fv == fragments_of(html@),
            frag_views(frags@) == fv,
            spec_extract(fv.take(i as int)) == Ok::<Seq<CardView>, SchemaError>(card_views(out@)),
        decreases frags@.len() - i,
    {
        proof {
            assert(frag_views(frags@)[i as int] == frags@[i as int]@);
            assert(fv[i as int] == frags@[i as int]@);
            assert(fv.take(i + 1) =~= fv.take(i as int).push(fv[i as int]));
        }
        match CardData::from_fragment(&frags[i]) {
            Ok(c) => {
                let ghost prev = out@;
                out.push(c);
                proof {
                    lemma_spec_extract_push(fv.take(i as int), fv[i as int]);
                    assert(card_views(out@) =~= card_views(prev).push(c@));
                }
            },
            Err(e) => {
                proof {
                    lemma_spec_extract_push(fv.take(i as int), fv[i as int]);
                    lemma_spec_extract_err_prefix(fv, i + 1);
                }
                return Err(e);
            },
        }
        i = i + 1;
    }
    proof {
        assert(fv.take(fv.len() as int) =~= fv);
    }
    Ok(out)
}

/// Reads the page index list off the pagination control of a page of
/// markup: the label of every page link, in document order.
pub fn extract_pages(html: &str) -> (r: Vec<String>)
    ensures
        r.deep_view() == page_links_of(html@),
{
    page_link_labels(html)
}

} // verus!
