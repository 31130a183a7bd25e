//! A pool's taste profile: signed weights on keywords, tags, single items and sets.
//!
//! The station resolves what an entry refers to; a script does all that is done with the
//! weights. Nothing here adds, nets or spreads a weight.

use vstd::prelude::*;

use crate::catalog::{lemma_row, Answer, Catalog, Entry, ExternalNs, Reply};
use crate::fault::{comma_list, join_names};
use crate::names::{same_text, texts};
use crate::score::{field, item_fields, item_map, item_maps, load_items, Halt, Halted};
use crate::script::{fields, scripts, Field, Script, ScriptValue};
use crate::text::{
    chars_of, concat, decimal, find_first, first_at, is_squeezed, lowercase, quoted, quoted_text,
    squeeze, squeezed, squeezing_keeps_the_words, squeezing_settles, text_of, trim, words,
    trimmed, write_decimal,
};

verus! {

/// A weight as it was authored.
#[derive(Debug)]
pub struct Weight {
    /// The number, written out.
    pub text: String,
    pub finite: bool,
    pub zero: bool,
}

impl Weight {
    /// The same weight again.
    pub fn copy(&self) -> (out: Weight)
        ensures
            out == *self,
    {
        Weight { text: self.text.clone(), finite: self.finite, zero: self.zero }
    }
}

/// One entry as it was authored: exactly one reference, and a weight.
#[derive(Debug)]
pub struct ProfileEntry {
    pub keyword: Option<String>,
    pub genre: Option<String>,
    pub label: Option<String>,
    pub cast: Option<String>,
    pub director: Option<String>,
    pub writer: Option<String>,
    pub producer: Option<String>,
    pub country: Option<String>,
    pub studio: Option<String>,
    pub content_rating: Option<String>,
    /// An external identity, or a title and its year.
    pub item: Option<String>,
    /// A query.
    pub set: Option<String>,
    pub weight: Option<Weight>,
}

/// A key under which an entry names what it weights.
#[derive(Clone, Copy, Debug, PartialEq, Eq, Structural)]
pub enum RefKey {
    Keyword,
    Genre,
    Label,
    Cast,
    Director,
    Writer,
    Producer,
    Country,
    Studio,
    ContentRating,
    Item,
    Query,
}

impl RefKey {
    /// How the key is written.
    pub open spec fn text(self) -> Seq<char> {
        match self {
            RefKey::Keyword => "keyword"@,
            RefKey::Genre => "genre"@,
            RefKey::Label => "label"@,
            RefKey::Cast => "cast"@,
            RefKey::Director => "director"@,
            RefKey::Writer => "writer"@,
            RefKey::Producer => "producer"@,
            RefKey::Country => "country"@,
            RefKey::Studio => "studio"@,
            RefKey::ContentRating => "content_rating"@,
            RefKey::Item => "item"@,
            RefKey::Query => "set"@,
        }
    }

    /// How the key is written.
    pub fn name(self) -> (out: &'static str)
        ensures
            out@ == self.text(),
    {
        match self {
            RefKey::Keyword => "keyword",
            RefKey::Genre => "genre",
            RefKey::Label => "label",
            RefKey::Cast => "cast",
            RefKey::Director => "director",
            RefKey::Writer => "writer",
            RefKey::Producer => "producer",
            RefKey::Country => "country",
            RefKey::Studio => "studio",
            RefKey::ContentRating => "content_rating",
            RefKey::Item => "item",
            RefKey::Query => "set",
        }
    }

    /// The field of an item, as a script sees it, that the values of a tag stand in.
    pub open spec fn field_text(self) -> Seq<char> {
        match self {
            RefKey::Genre => "genres"@,
            RefKey::Label => "labels"@,
            RefKey::Cast => "cast"@,
            RefKey::Director => "directors"@,
            RefKey::Writer => "writers"@,
            RefKey::Producer => "producers"@,
            RefKey::Country => "countries"@,
            RefKey::Studio => "studio"@,
            RefKey::ContentRating => "content_rating"@,
            _ => "keywords"@,
        }
    }

    /// The field of an item, as a script sees it, that the values of a tag stand in.
    pub fn namespace(self) -> (out: &'static str)
        ensures
            out@ == self.field_text(),
    {
        match self {
            RefKey::Genre => "genres",
            RefKey::Label => "labels",
            RefKey::Cast => "cast",
            RefKey::Director => "directors",
            RefKey::Writer => "writers",
            RefKey::Producer => "producers",
            RefKey::Country => "countries",
            RefKey::Studio => "studio",
            RefKey::ContentRating => "content_rating",
            _ => "keywords",
        }
    }
}

/// A reference to one item.
#[derive(Debug, PartialEq, Eq)]
pub enum ItemRef {
    External { ns: ExternalNs, value: String },
    TitleYear { title: String, year: i64 },
}

/// What one entry points at.
#[derive(Debug, PartialEq, Eq)]
pub enum Reference {
    /// A keyword, in the form `normalize_keyword` gives it.
    Keyword(String),
    /// A tag, and the field of an item that its values stand in.
    Tag { namespace: &'static str, value: String },
    Item(ItemRef),
    /// A query.
    Query(String),
}

/// A reference to one item, as mathematical values.
pub enum ItemRefModel {
    External { ns: ExternalNs, value: Seq<char> },
    TitleYear { title: Seq<char>, year: int },
}

/// What one entry points at, as mathematical values.
pub enum ReferenceModel {
    Keyword(Seq<char>),
    Tag { namespace: Seq<char>, value: Seq<char> },
    Item(ItemRefModel),
    Query(Seq<char>),
}

impl View for ItemRef {
    type V = ItemRefModel;

    open spec fn view(&self) -> ItemRefModel {
        match *self {
            ItemRef::External { ns, value } => ItemRefModel::External { ns, value: value@ },
            ItemRef::TitleYear { title, year } => ItemRefModel::TitleYear {
                title: title@,
                year: year as int,
            },
        }
    }
}

impl View for Reference {
    type V = ReferenceModel;

    open spec fn view(&self) -> ReferenceModel {
        match *self {
            Reference::Keyword(word) => ReferenceModel::Keyword(word@),
            Reference::Tag { namespace, value } => ReferenceModel::Tag {
                namespace: namespace@,
                value: value@,
            },
            Reference::Item(item) => ReferenceModel::Item(item@),
            Reference::Query(query) => ReferenceModel::Query(query@),
        }
    }
}

/// A keyword in the one form that references are compared in: lower case, without white
/// space at its ends, and single spaces between its words.
pub open spec fn normal_keyword(raw: Seq<char>) -> Seq<char> {
    lowercase(squeezed(raw))
}

/// A keyword in the one form that references are compared in: lower case, without white
/// space at its ends, and single spaces between its words.
///
/// Its words are those of the keyword in lower case, in their order. It has that form already:
/// lower-casing it, bringing its white space down or normalizing it once more changes nothing.
pub fn normalize_keyword(raw: &str) -> (out: String)
    ensures
        out@ == normal_keyword(raw@),
        words(out@) == words(lowercase(raw@)),
        lowercase(out@) == out@,
        is_squeezed(out@),
        normal_keyword(out@) == out@,
{
    let lower: String = raw.to_lowercase();
    let out: String = squeeze(lower.as_str());
    proof {
        squeezing_keeps_the_words(lower@);
        squeezing_settles(lower@);
    }
    out
}

/// The reference that a key holds, if it holds one.
pub open spec fn named_by(key: RefKey, value: Option<String>) -> Seq<(RefKey, Seq<char>)> {
    match value {
        Some(text) => seq![(key, text@)],
        None => Seq::empty(),
    }
}

/// The references that an entry names, in the order of the keys.
pub open spec fn named_refs(e: ProfileEntry) -> Seq<(RefKey, Seq<char>)> {
    named_by(RefKey::Keyword, e.keyword) + named_by(RefKey::Genre, e.genre) + named_by(
        RefKey::Label,
        e.label,
    ) + named_by(RefKey::Cast, e.cast) + named_by(RefKey::Director, e.director) + named_by(
        RefKey::Writer,
        e.writer,
    ) + named_by(RefKey::Producer, e.producer) + named_by(RefKey::Country, e.country) + named_by(
        RefKey::Studio,
        e.studio,
    ) + named_by(RefKey::ContentRating, e.content_rating) + named_by(RefKey::Item, e.item)
        + named_by(RefKey::Query, e.set)
}

/// References as mathematical values.
pub open spec fn refs(list: Seq<(RefKey, &String)>) -> Seq<(RefKey, Seq<char>)> {
    list.map_values(|r: (RefKey, &String)| (r.0, r.1@))
}

fn push_named<'a>(list: &mut Vec<(RefKey, &'a String)>, key: RefKey, value: &'a Option<String>)
    ensures
        refs(final(list)@) == refs(old(list)@) + named_by(key, *value),
{
    let ghost before = refs(list@);
    match value {
        Some(text) => {
            list.push((key, text));
            assert(refs(list@) =~= before + seq![(key, text@)]);
        },
        None => {
            assert(refs(list@) =~= before + Seq::<(RefKey, Seq<char>)>::empty());
        },
    }
}

fn name_refs(e: &ProfileEntry) -> (out: Vec<(RefKey, &String)>)
    ensures
        refs(out@) == named_refs(*e),
{
    let mut out: Vec<(RefKey, &String)> = Vec::new();
    assert(refs(out@) =~= Seq::<(RefKey, Seq<char>)>::empty());
    push_named(&mut out, RefKey::Keyword, &e.keyword);
    push_named(&mut out, RefKey::Genre, &e.genre);
    push_named(&mut out, RefKey::Label, &e.label);
    push_named(&mut out, RefKey::Cast, &e.cast);
    push_named(&mut out, RefKey::Director, &e.director);
    push_named(&mut out, RefKey::Writer, &e.writer);
    push_named(&mut out, RefKey::Producer, &e.producer);
    push_named(&mut out, RefKey::Country, &e.country);
    push_named(&mut out, RefKey::Studio, &e.studio);
    push_named(&mut out, RefKey::ContentRating, &e.content_rating);
    push_named(&mut out, RefKey::Item, &e.item);
    push_named(&mut out, RefKey::Query, &e.set);
    assert(Seq::<(RefKey, Seq<char>)>::empty() + named_by(RefKey::Keyword, e.keyword) =~= named_by(
        RefKey::Keyword,
        e.keyword,
    ));
    out
}

/// The keys of references, parted by commas.
pub open spec fn key_list(named: Seq<(RefKey, Seq<char>)>) -> Seq<char>
    decreases named.len(),
{
    if named.len() == 0 {
        Seq::empty()
    } else if named.len() == 1 {
        named[0].0.text()
    } else {
        key_list(named.drop_last()) + ", "@ + named.last().0.text()
    }
}

fn join_keys(named: &Vec<(RefKey, &String)>) -> (out: String)
    ensures
        out@ == key_list(refs(named@)),
{
    let ghost all = refs(named@);
    let mut out: String = String::new();
    let mut i: usize = 0;
    assert(all.take(0) =~= Seq::<(RefKey, Seq<char>)>::empty());
    while i < named.len()
        invariant
            i <= named.len(),
            all == refs(named@),
            out@ == key_list(all.take(i as int)),
        decreases named.len() - i,
    {
        assert(all.take(i + 1).drop_last() =~= all.take(i as int));
        assert(all.take(i + 1).last().0 == named@[i as int].0);
        if i > 0 {
            out.append(", ");
        }
        let ghost before = out@;
        out.append(named[i].0.name());
        if i == 0 {
            assert(out@ =~= named@[0].0.text());
        }
        i += 1;
    }
    assert(all.take(i as int) =~= all);
    out
}

/// Where a space and an opening bracket stand last in a text.
pub open spec fn last_open(s: Seq<char>) -> Option<int>
    decreases s.len(),
{
    if s.len() < 2 {
        None
    } else if s[s.len() - 2] == ' ' && s[s.len() - 1] == '(' {
        Some(s.len() - 2)
    } else {
        last_open(s.drop_last())
    }
}

fn find_last_open(chars: &Vec<char>, to: usize) -> (out: Option<usize>)
    requires
        to <= chars.len(),
    ensures
        match (out, last_open(chars@.take(to as int))) {
            (Some(got), Some(want)) => got == want && got + 2 <= to,
            (None, None) => true,
            _ => false,
        },
{
    let mut n: usize = to;
    while n >= 2
        invariant
            n <= to <= chars.len(),
            last_open(chars@.take(to as int)) == last_open(chars@.take(n as int)),
        decreases n,
    {
        if chars[n - 2] == ' ' && chars[n - 1] == '(' {
            return Some(n - 2);
        }
        assert(chars@.take(n as int).drop_last() =~= chars@.take(n - 1));
        n -= 1;
    }
    None
}

/// The value of a digit.
pub open spec fn digit_value(c: char) -> Option<int> {
    if '0' <= c <= '9' {
        Some(c as int - '0' as int)
    } else {
        None
    }
}

fn read_digit(c: char) -> (out: Option<i64>)
    ensures
        match (out, digit_value(c)) {
            (Some(got), Some(want)) => got == want && 0 <= got <= 9,
            (None, None) => true,
            _ => false,
        },
{
    if '0' <= c && c <= '9' {
        Some(c as i64 - '0' as i64)
    } else {
        None
    }
}

/// The number that four characters write: four digits, or a sign and three.
pub open spec fn four_number(s: Seq<char>) -> Option<int> {
    if s.len() != 4 {
        None
    } else {
        match (digit_value(s[1]), digit_value(s[2]), digit_value(s[3])) {
            (Some(b), Some(c), Some(d)) => {
                let rest = b * 100 + c * 10 + d;
                if s[0] == '-' {
                    Some(-rest)
                } else if s[0] == '+' {
                    Some(rest)
                } else {
                    match digit_value(s[0]) {
                        Some(a) => Some(a * 1000 + rest),
                        None => None,
                    }
                }
            },
            _ => None,
        }
    }
}

fn read_four(chars: &Vec<char>, from: usize, to: usize) -> (out: Option<i64>)
    requires
        from <= to <= chars.len(),
    ensures
        match (out, four_number(chars@.subrange(from as int, to as int))) {
            (Some(got), Some(want)) => got == want,
            (None, None) => true,
            _ => false,
        },
{
    if to - from != 4 {
        return None;
    }
    match (
        read_digit(chars[from + 1]),
        read_digit(chars[from + 2]),
        read_digit(chars[from + 3]),
    ) {
        (Some(b), Some(c), Some(d)) => {
            let rest: i64 = b * 100 + c * 10 + d;
            if chars[from] == '-' {
                Some(-rest)
            } else if chars[from] == '+' {
                Some(rest)
            } else {
                match read_digit(chars[from]) {
                    Some(a) => Some(a * 1000 + rest),
                    None => None,
                }
            }
        },
        _ => None,
    }
}

impl ExternalNs {
    /// How the namespace is written.
    pub open spec fn text(self) -> Seq<char> {
        match self {
            ExternalNs::Imdb => "imdb"@,
            ExternalNs::Tmdb => "tmdb"@,
            ExternalNs::Tvdb => "tvdb"@,
        }
    }

    /// How the namespace is written.
    pub fn as_str(self) -> (out: &'static str)
        ensures
            out@ == self.text(),
    {
        match self {
            ExternalNs::Imdb => "imdb",
            ExternalNs::Tmdb => "tmdb",
            ExternalNs::Tvdb => "tvdb",
        }
    }
}

/// The namespace that a text names.
pub open spec fn external_ns(name: Seq<char>) -> Option<ExternalNs> {
    if name == "imdb"@ {
        Some(ExternalNs::Imdb)
    } else if name == "tmdb"@ {
        Some(ExternalNs::Tmdb)
    } else if name == "tvdb"@ {
        Some(ExternalNs::Tvdb)
    } else {
        None
    }
}

fn read_ns(name: &str) -> (out: Option<ExternalNs>)
    ensures
        out == external_ns(name@),
{
    if same_text(name, "imdb") {
        Some(ExternalNs::Imdb)
    } else if same_text(name, "tmdb") {
        Some(ExternalNs::Tmdb)
    } else if same_text(name, "tvdb") {
        Some(ExternalNs::Tvdb)
    } else {
        None
    }
}

/// The external identity that a text is: a namespace, a colon and a value.
pub open spec fn external_ref(s: Seq<char>) -> Option<ItemRefModel> {
    let at = first_at(s, ':');
    if at >= s.len() {
        None
    } else {
        let value = trimmed(s.skip(at + 1));
        match external_ns(s.take(at)) {
            Some(ns) => if value.len() > 0 {
                Some(ItemRefModel::External { ns, value })
            } else {
                None
            },
            None => None,
        }
    }
}

/// The title and the year that a text is: the title, a space, and the year in brackets.
pub open spec fn title_ref(s: Seq<char>) -> Option<ItemRefModel> {
    if s.len() == 0 || s.last() != ')' {
        None
    } else {
        let body = s.drop_last();
        match last_open(body) {
            None => None,
            Some(at) => match four_number(body.skip(at + 2)) {
                Some(year) => {
                    let title = trimmed(body.take(at));
                    if title.len() > 0 {
                        Some(ItemRefModel::TitleYear { title, year })
                    } else {
                        None
                    }
                },
                None => None,
            },
        }
    }
}

/// The item that a text refers to: an external identity, or a title and its year.
pub open spec fn item_ref(raw: Seq<char>) -> Result<ItemRefModel, Seq<char>> {
    let s = trimmed(raw);
    match external_ref(s) {
        Some(item) => Ok(item),
        None => match title_ref(s) {
            Some(item) => Ok(item),
            None => Err(
                "`item: "@ + s
                    + "` is neither an external id (`imdb:tt0113277`, `tmdb:949`) nor `Title (Year)`"@,
            ),
        },
    }
}

fn read_external(chars: &Vec<char>) -> (out: Option<ItemRef>)
    ensures
        match (out, external_ref(chars@)) {
            (Some(got), Some(want)) => got@ == want,
            (None, None) => true,
            _ => false,
        },
{
    let at: usize = find_first(chars, ':');
    if at >= chars.len() {
        return None;
    }
    let name: String = text_of(chars, 0, at);
    assert(name@ =~= chars@.take(at as int));
    let rest: String = text_of(chars, at + 1, chars.len());
    assert(rest@ =~= chars@.skip(at + 1));
    match read_ns(name.as_str()) {
        Some(ns) => {
            let value: String = trim(rest.as_str());
            if value.as_str().unicode_len() > 0 {
                Some(ItemRef::External { ns, value })
            } else {
                None
            }
        },
        None => None,
    }
}

fn read_title(chars: &Vec<char>) -> (out: Option<ItemRef>)
    ensures
        match (out, title_ref(chars@)) {
            (Some(got), Some(want)) => got@ == want,
            (None, None) => true,
            _ => false,
        },
{
    let n: usize = chars.len();
    if n == 0 || chars[n - 1] != ')' {
        return None;
    }
    let ghost body = chars@.drop_last();
    assert(body =~= chars@.take(n - 1));
    let at: usize = match find_last_open(chars, n - 1) {
        Some(at) => at,
        None => return None,
    };
    assert(body.skip(at + 2) =~= chars@.subrange(at + 2, n - 1));
    match read_four(chars, at + 2, n - 1) {
        Some(year) => {
            let head: String = text_of(chars, 0, at);
            assert(head@ =~= body.take(at as int));
            let title: String = trim(head.as_str());
            if title.as_str().unicode_len() > 0 {
                Some(ItemRef::TitleYear { title, year })
            } else {
                None
            }
        },
        None => None,
    }
}

/// Reads a reference to an item: an external identity such as `imdb:tt0113277`, or a title
/// and its year.
pub fn parse_item(raw: &str) -> (out: Result<ItemRef, String>)
    ensures
        match (out, item_ref(raw@)) {
            (Ok(got), Ok(want)) => got@ == want,
            (Err(got), Err(want)) => got@ == want,
            _ => false,
        },
{
    let text: String = trim(raw);
    let chars: Vec<char> = chars_of(text.as_str());
    match read_external(&chars) {
        Some(item) => return Ok(item),
        None => {},
    }
    match read_title(&chars) {
        Some(item) => return Ok(item),
        None => {},
    }
    Err(
        concat(
            "`item: ",
            text.as_str(),
            "` is neither an external id (`imdb:tt0113277`, `tmdb:949`) nor `Title (Year)`",
        ),
    )
}

/// How an error quotes what an entry refers to.
pub open spec fn written_as(key: RefKey, value: Seq<char>) -> Seq<char> {
    "`"@ + key.text() + ": "@ + value + "`"@
}

/// What an entry refers to, when it names exactly one thing.
pub open spec fn referred(key: RefKey, value: Seq<char>) -> Result<ReferenceModel, Seq<char>> {
    match key {
        RefKey::Keyword => Ok(ReferenceModel::Keyword(normal_keyword(value))),
        RefKey::Item => match item_ref(value) {
            Ok(item) => Ok(ReferenceModel::Item(item)),
            Err(why) => Err(why),
        },
        RefKey::Query => Ok(ReferenceModel::Query(value)),
        _ => Ok(
            ReferenceModel::Tag { namespace: key.field_text(), value: lowercase(trimmed(value)) },
        ),
    }
}

/// What an entry that names exactly one thing comes to: it has a value, and a weight that is
/// finite and not zero.
pub open spec fn checked_one(key: RefKey, value: Seq<char>, weight: Option<Weight>) -> Result<
    (ReferenceModel, Seq<char>, Weight),
    Seq<char>,
> {
    if trimmed(value).len() == 0 {
        Err("has an empty `"@ + key.text() + "`"@)
    } else {
        match weight {
            None => Err(written_as(key, value) + " has no `weight`"@),
            Some(w) => if !w.finite {
                Err(written_as(key, value) + " has a non-finite weight"@)
            } else if w.zero {
                Err(
                    written_as(key, value)
                        + " has weight 0, which weights nothing — remove the entry"@,
                )
            } else {
                match referred(key, value) {
                    Err(why) => Err(why),
                    Ok(reference) => Ok((reference, value, w)),
                }
            },
        }
    }
}

/// What an entry comes to: exactly one reference, as it was written, and its weight.
pub open spec fn checked(e: ProfileEntry) -> Result<(ReferenceModel, Seq<char>, Weight), Seq<char>> {
    let named = named_refs(e);
    if named.len() == 0 {
        Err(
            "names no reference — give exactly one of `keyword`, `item`, `set`, or a catalog tag (`genre`, `label`, `cast`, `director`, `writer`, `producer`, `country`, `studio`, `content_rating`)"@,
        )
    } else if named.len() > 1 {
        Err(
            "names "@ + decimal(named.len()) + " references ("@ + key_list(named)
                + ") — an entry weights exactly one thing"@,
        )
    } else {
        checked_one(named[0].0, named[0].1, e.weight)
    }
}

/// Whether an entry was checked as told.
pub open spec fn agrees(
    out: Result<(Reference, String, Weight), String>,
    want: Result<(ReferenceModel, Seq<char>, Weight), Seq<char>>,
) -> bool {
    match (out, want) {
        (Ok(got), Ok(w)) => got.0@ == w.0 && got.1@ == w.1 && got.2 == w.2,
        (Err(got), Err(w)) => got@ == w,
        _ => false,
    }
}

fn quote_ref(key: RefKey, value: &str) -> (out: String)
    ensures
        out@ == written_as(key, value@),
{
    let mut out: String = concat("`", key.name(), ": ");
    out.append(value);
    out.append("`");
    out
}

fn refer(key: RefKey, value: &String) -> (out: Result<Reference, String>)
    ensures
        match (out, referred(key, value@)) {
            (Ok(got), Ok(want)) => got@ == want,
            (Err(got), Err(want)) => got@ == want,
            _ => false,
        },
{
    match key {
        RefKey::Keyword => Ok(Reference::Keyword(normalize_keyword(value.as_str()))),
        RefKey::Item => match parse_item(value.as_str()) {
            Ok(item) => Ok(Reference::Item(item)),
            Err(why) => Err(why),
        },
        RefKey::Query => Ok(Reference::Query(value.clone())),
        _ => Ok(
            Reference::Tag {
                namespace: key.namespace(),
                value: trim(value.as_str()).as_str().to_lowercase(),
            },
        ),
    }
}

fn check_one(key: RefKey, value: &String, weight: &Option<Weight>) -> (out: Result<
    (Reference, String, Weight),
    String,
>)
    ensures
        agrees(out, checked_one(key, value@, *weight)),
{
    if trim(value.as_str()).as_str().unicode_len() == 0 {
        return Err(concat("has an empty `", key.name(), "`"));
    }
    let w: &Weight = match weight {
        Some(w) => w,
        None => {
            let mut out: String = quote_ref(key, value.as_str());
            out.append(" has no `weight`");
            return Err(out);
        },
    };
    if !w.finite {
        let mut out: String = quote_ref(key, value.as_str());
        out.append(" has a non-finite weight");
        return Err(out);
    }
    if w.zero {
        let mut out: String = quote_ref(key, value.as_str());
        out.append(" has weight 0, which weights nothing — remove the entry");
        return Err(out);
    }
    match refer(key, value) {
        Ok(reference) => Ok((reference, value.clone(), w.copy())),
        Err(why) => Err(why),
    }
}

/// Checks one authored entry: exactly one reference with a value, a weight that is finite
/// and not zero, and an item in one of its two shapes.
pub fn check(entry: &ProfileEntry) -> (out: Result<(Reference, String, Weight), String>)
    ensures
        agrees(out, checked(*entry)),
{
    let named: Vec<(RefKey, &String)> = name_refs(entry);
    assert(refs(named@).len() == named.len());
    if named.len() == 0 {
        return Err(
            "names no reference — give exactly one of `keyword`, `item`, `set`, or a catalog tag (`genre`, `label`, `cast`, `director`, `writer`, `producer`, `country`, `studio`, `content_rating`)".to_owned(),
        );
    }
    if named.len() > 1 {
        let mut out: String = "names ".to_owned();
        out.append(write_decimal(named.len() as u64).as_str());
        out.append(" references (");
        out.append(join_keys(&named).as_str());
        out.append(") — an entry weights exactly one thing");
        return Err(out);
    }
    assert(refs(named@)[0] == (named@[0].0, named@[0].1@));
    check_one(named[0].0, named[0].1, &entry.weight)
}

/// One checked entry, and where it came from.
#[derive(Debug)]
pub struct LoadedEntry {
    pub reference: Reference,
    /// The reference as it was authored.
    pub written: String,
    pub weight: Weight,
    /// The file the entry stands in, as the pool names it, or `inline`.
    pub origin: String,
    /// The entry's place in its origin, from one on.
    pub position: usize,
}

/// One checked entry, as mathematical values.
pub struct Loaded {
    pub reference: ReferenceModel,
    pub written: Seq<char>,
    pub weight: Weight,
    pub origin: Seq<char>,
    pub position: nat,
}

impl View for LoadedEntry {
    type V = Loaded;

    open spec fn view(&self) -> Loaded {
        Loaded {
            reference: self.reference@,
            written: self.written@,
            weight: self.weight,
            origin: self.origin@,
            position: self.position as nat,
        }
    }
}

/// Checked entries as mathematical values.
pub open spec fn loaded(list: Seq<LoadedEntry>) -> Seq<Loaded> {
    list.map_values(|e: LoadedEntry| e@)
}

/// How an error names an entry.
pub open spec fn place(position: nat, origin: Seq<char>) -> Seq<char> {
    "profile entry "@ + decimal(position) + " in "@ + origin
}

fn write_place(position: usize, origin: &str) -> (out: String)
    ensures
        out@ == place(position as nat, origin@),
{
    let mut out: String = "profile entry ".to_owned();
    out.append(write_decimal(position as u64).as_str());
    out.append(" in ");
    out.append(origin);
    out
}

impl LoadedEntry {
    /// How an error names this entry.
    pub fn locate(&self) -> (out: String)
        ensures
            out@ == place(self.position as nat, self.origin@),
    {
        write_place(self.position, self.origin.as_str())
    }
}

/// The entries of one origin, checked; the first at fault counts.
pub open spec fn checked_all(entries: Seq<ProfileEntry>, origin: Seq<char>) -> Result<
    Seq<Loaded>,
    Seq<char>,
>
    decreases entries.len(),
{
    if entries.len() == 0 {
        Ok(Seq::empty())
    } else {
        match checked_all(entries.drop_last(), origin) {
            Err(why) => Err(why),
            Ok(list) => match checked(entries.last()) {
                Err(why) => Err(place(entries.len(), origin) + " "@ + why),
                Ok((reference, written, weight)) => Ok(
                    list.push(
                        Loaded { reference, written, weight, origin, position: entries.len() },
                    ),
                ),
            },
        }
    }
}

proof fn lemma_checked_all_err(entries: Seq<ProfileEntry>, origin: Seq<char>, i: int)
    requires
        0 <= i <= entries.len(),
        checked_all(entries.take(i), origin) is Err,
    ensures
        checked_all(entries, origin) == checked_all(entries.take(i), origin),
    decreases entries.len() - i,
{
    if i < entries.len() {
        assert(entries.take(i + 1).drop_last() =~= entries.take(i));
        lemma_checked_all_err(entries, origin, i + 1);
    } else {
        assert(entries.take(i) =~= entries);
    }
}

/// Checks the entries of one origin and adds them to those that were checked before.
fn push_checked(out: &mut Vec<LoadedEntry>, entries: &Vec<ProfileEntry>, origin: &str) -> (done:
    Result<(), String>)
    ensures
        match (done, checked_all(entries@, origin@)) {
            (Ok(_), Ok(list)) => loaded(final(out)@) == loaded(old(out)@) + list,
            (Err(got), Err(why)) => got@ == why,
            _ => false,
        },
{
    let ghost start = loaded(out@);
    let mut i: usize = 0;
    assert(entries@.take(0) =~= Seq::<ProfileEntry>::empty());
    assert(loaded(out@) =~= start + Seq::<Loaded>::empty());
    while i < entries.len()
        invariant
            i <= entries.len(),
            start == loaded(old(out)@),
            checked_all(entries@.take(i as int), origin@) is Ok,
            loaded(out@) == start + checked_all(entries@.take(i as int), origin@)->Ok_0,
        decreases entries.len() - i,
    {
        assert(entries@.take(i + 1).drop_last() =~= entries@.take(i as int));
        assert(entries@.take(i + 1).last() == entries@[i as int]);
        match check(&entries[i]) {
            Ok((reference, written, weight)) => {
                let ghost before = loaded(out@);
                let one: LoadedEntry = LoadedEntry {
                    reference,
                    written,
                    weight,
                    origin: origin.to_owned(),
                    position: i + 1,
                };
                out.push(one);
                assert(loaded(out@) =~= before.push(one@));
                assert(loaded(out@) =~= start + checked_all(
                    entries@.take(i + 1),
                    origin@,
                )->Ok_0);
            },
            Err(why) => {
                proof {
                    lemma_checked_all_err(entries@, origin@, i + 1);
                }
                let mut message: String = write_place(i + 1, origin);
                message.append(" ");
                message.append(why.as_str());
                return Err(message);
            },
        }
        i += 1;
    }
    assert(entries@.take(i as int) =~= entries@);
    Ok(())
}

/// What reading a profile file gave.
#[derive(Debug)]
pub enum ProfileRead {
    Entries(Vec<ProfileEntry>),
    /// The file could not be read or taken apart.
    Failed(String),
}

/// One profile file: its path as the pool names it, and what reading it gave.
#[derive(Debug)]
pub struct ProfileFile {
    pub origin: String,
    pub read: ProfileRead,
}

/// The entries of one file, checked.
pub open spec fn file_entries(file: ProfileFile) -> Result<Seq<Loaded>, Seq<char>> {
    match file.read {
        ProfileRead::Failed(why) => Err("profile file "@ + file.origin@ + ": "@ + why@),
        ProfileRead::Entries(entries) => checked_all(entries@, file.origin@),
    }
}

/// The entries of all files, in their order, checked; the first file at fault counts.
pub open spec fn files_entries(files: Seq<ProfileFile>) -> Result<Seq<Loaded>, Seq<char>>
    decreases files.len(),
{
    if files.len() == 0 {
        Ok(Seq::empty())
    } else {
        match files_entries(files.drop_last()) {
            Err(why) => Err(why),
            Ok(list) => match file_entries(files.last()) {
                Err(why) => Err(why),
                Ok(more) => Ok(list + more),
            },
        }
    }
}

/// A pool's whole profile: the entries of its files, and then its own.
pub open spec fn profile_of(files: Seq<ProfileFile>, inline: Seq<ProfileEntry>) -> Result<
    Seq<Loaded>,
    Seq<char>,
> {
    match files_entries(files) {
        Err(why) => Err(why),
        Ok(list) => match checked_all(inline, "inline"@) {
            Err(why) => Err(why),
            Ok(more) => Ok(list + more),
        },
    }
}

proof fn lemma_files_err(files: Seq<ProfileFile>, i: int)
    requires
        0 <= i <= files.len(),
        files_entries(files.take(i)) is Err,
    ensures
        files_entries(files) == files_entries(files.take(i)),
    decreases files.len() - i,
{
    if i < files.len() {
        assert(files.take(i + 1).drop_last() =~= files.take(i));
        lemma_files_err(files, i + 1);
    } else {
        assert(files.take(i) =~= files);
    }
}

fn push_file(out: &mut Vec<LoadedEntry>, file: &ProfileFile) -> (done: Result<(), String>)
    ensures
        match (done, file_entries(*file)) {
            (Ok(_), Ok(list)) => loaded(final(out)@) == loaded(old(out)@) + list,
            (Err(got), Err(why)) => got@ == why,
            _ => false,
        },
{
    match &file.read {
        ProfileRead::Failed(why) => {
            let mut message: String = concat("profile file ", file.origin.as_str(), ": ");
            message.append(why.as_str());
            Err(message)
        },
        ProfileRead::Entries(entries) => push_checked(out, entries, file.origin.as_str()),
    }
}

/// Checks a pool's profile: its files in their order, and then the entries of its own.
pub fn load(files: &Vec<ProfileFile>, inline: &Vec<ProfileEntry>) -> (out: Result<
    Vec<LoadedEntry>,
    String,
>)
    ensures
        match (out, profile_of(files@, inline@)) {
            (Ok(got), Ok(want)) => loaded(got@) == want,
            (Err(got), Err(want)) => got@ == want,
            _ => false,
        },
{
    let mut out: Vec<LoadedEntry> = Vec::new();
    let mut i: usize = 0;
    assert(files@.take(0) =~= Seq::<ProfileFile>::empty());
    assert(loaded(out@) =~= Seq::<Loaded>::empty());
    while i < files.len()
        invariant
            i <= files.len(),
            files_entries(files@.take(i as int)) == Ok::<Seq<Loaded>, Seq<char>>(loaded(out@)),
        decreases files.len() - i,
    {
        assert(files@.take(i + 1).drop_last() =~= files@.take(i as int));
        assert(files@.take(i + 1).last() == files@[i as int]);
        match push_file(&mut out, &files[i]) {
            Ok(_) => {},
            Err(why) => {
                proof {
                    lemma_files_err(files@, i + 1);
                }
                return Err(why);
            },
        }
        i += 1;
    }
    assert(files@.take(i as int) =~= files@);
    match push_checked(&mut out, inline, "inline") {
        Ok(_) => Ok(out),
        Err(why) => Err(why),
    }
}

/// Whether some keyword to exclude is empty.
pub open spec fn has_empty(words: Seq<String>) -> bool {
    exists|i: int| 0 <= i < words.len() && trimmed(#[trigger] words[i]@).len() == 0
}

/// Checks the keywords that a pool excludes: none may be empty.
pub fn check_exclude_keywords(words: &Vec<String>) -> (out: Result<(), String>)
    ensures
        match out {
            Ok(_) => !has_empty(words@),
            Err(why) => has_empty(words@) && why@ == "`exclude_keywords` has an empty entry"@,
        },
{
    let mut i: usize = 0;
    while i < words.len()
        invariant
            i <= words.len(),
            forall|j: int| 0 <= j < i ==> trimmed(#[trigger] words@[j]@).len() > 0,
        decreases words.len() - i,
    {
        if trim(words[i].as_str()).as_str().unicode_len() == 0 {
            assert(trimmed(words@[i as int]@).len() == 0);
            return Err("`exclude_keywords` has an empty entry".to_owned());
        }
        i += 1;
    }
    Ok(())
}

/// Whether a row carries an external identity.
pub open spec fn carries(e: Entry, ns: ExternalNs, value: Seq<char>) -> bool {
    exists|i: int|
        0 <= i < e.external@.len() && (#[trigger] e.external@[i]).0 == ns && e.external@[i].1@
            == value
}

/// Whether a row is what a reference points at.
pub open spec fn is_meant(e: Entry, item: ItemRefModel) -> bool {
    match item {
        ItemRefModel::External { ns, value } => carries(e, ns, value),
        ItemRefModel::TitleYear { title, year } => e.title@ == title && (e.year matches Some(y)
            && y == year),
    }
}

/// The identities of the rows that a reference points at.
pub open spec fn meant_ids(entries: Seq<Entry>, item: ItemRefModel) -> Seq<String>
    decreases entries.len(),
{
    if entries.len() == 0 {
        Seq::empty()
    } else {
        let ids = meant_ids(entries.drop_last(), item);
        if is_meant(entries.last(), item) {
            ids.push(entries.last().entry_id)
        } else {
            ids
        }
    }
}

/// The one identity among those that were found.
pub open spec fn only_one(ids: Seq<String>) -> Result<Seq<char>, Seq<char>> {
    if ids.len() == 1 {
        Ok(ids[0]@)
    } else if ids.len() == 0 {
        Err("matches no catalog item"@)
    } else {
        Err(
            "matches "@ + decimal(ids.len()) + " catalog items ("@ + comma_list(ids)
                + ") — use an external id to name one"@,
        )
    }
}

/// The identity that a catalog row made from an external identity has.
pub open spec fn external_id(ns: ExternalNs, value: Seq<char>) -> Seq<char> {
    ns.text() + ":"@ + value
}

/// The one item of the catalog that a reference points at. An external identity that is a
/// row's own identity counts before the rows that carry it.
pub open spec fn found_item(catalog: Catalog, item: ItemRefModel) -> Result<Seq<char>, Seq<char>> {
    match item {
        ItemRefModel::External { ns, value } => if catalog.row(external_id(ns, value)) is Some {
            Ok(external_id(ns, value))
        } else {
            only_one(meant_ids(catalog.entries@, item))
        },
        ItemRefModel::TitleYear { .. } => only_one(meant_ids(catalog.entries@, item)),
    }
}

fn row_carries(e: &Entry, ns: ExternalNs, value: &String) -> (out: bool)
    ensures
        out == carries(*e, ns, value@),
{
    let mut i: usize = 0;
    while i < e.external.len()
        invariant
            i <= e.external.len(),
            forall|j: int|
                0 <= j < i ==> !((#[trigger] e.external@[j]).0 == ns && e.external@[j].1@
                    == value@),
        decreases e.external.len() - i,
    {
        if e.external[i].0 == ns && e.external[i].1 == *value {
            assert(e.external@[i as int].0 == ns);
            return true;
        }
        i += 1;
    }
    false
}

fn row_is_meant(e: &Entry, item: &ItemRef) -> (out: bool)
    ensures
        out == is_meant(*e, item@),
{
    match item {
        ItemRef::External { ns, value } => row_carries(e, *ns, value),
        ItemRef::TitleYear { title, year } => match e.year {
            Some(y) => e.title == *title && y == *year,
            None => false,
        },
    }
}

fn find_meant(catalog: &Catalog, item: &ItemRef) -> (out: Vec<String>)
    ensures
        out@ == meant_ids(catalog.entries@, item@),
{
    let mut out: Vec<String> = Vec::new();
    let mut i: usize = 0;
    assert(catalog.entries@.take(0) =~= Seq::<Entry>::empty());
    while i < catalog.entries.len()
        invariant
            i <= catalog.entries.len(),
            out@ == meant_ids(catalog.entries@.take(i as int), item@),
        decreases catalog.entries.len() - i,
    {
        assert(catalog.entries@.take(i + 1).drop_last() =~= catalog.entries@.take(i as int));
        assert(catalog.entries@.take(i + 1).last() == catalog.entries@[i as int]);
        if row_is_meant(&catalog.entries[i], item) {
            out.push(catalog.entries[i].entry_id.clone());
        }
        i += 1;
    }
    assert(catalog.entries@.take(i as int) =~= catalog.entries@);
    out
}

fn take_only(ids: &Vec<String>) -> (out: Result<String, String>)
    ensures
        match (out, only_one(ids@)) {
            (Ok(got), Ok(want)) => got@ == want,
            (Err(got), Err(want)) => got@ == want,
            _ => false,
        },
{
    if ids.len() == 1 {
        return Ok(ids[0].clone());
    }
    if ids.len() == 0 {
        return Err("matches no catalog item".to_owned());
    }
    let mut out: String = "matches ".to_owned();
    out.append(write_decimal(ids.len() as u64).as_str());
    out.append(" catalog items (");
    out.append(join_names(ids).as_str());
    out.append(") — use an external id to name one");
    Err(out)
}

/// Finds the one item of the catalog that a reference points at; none and several are
/// refused.
pub fn resolve_item(catalog: &Catalog, item: &ItemRef) -> (out: Result<String, String>)
    ensures
        match (out, found_item(*catalog, item@)) {
            (Ok(got), Ok(want)) => got@ == want,
            (Err(got), Err(want)) => got@ == want,
            _ => false,
        },
{
    match item {
        ItemRef::External { ns, value } => {
            let id: String = concat(ns.as_str(), ":", value.as_str());
            if catalog.entry(&id).is_some() {
                return Ok(id);
            }
        },
        ItemRef::TitleYear { .. } => {},
    }
    take_only(&find_meant(catalog, item))
}

/// The fields of an entry that say what it refers to.
pub open spec fn reference_fields(catalog: Catalog, e: Loaded) -> Result<
    Seq<(Seq<char>, Script)>,
    Halted,
> {
    let at = place(e.position, e.origin);
    match e.reference {
        ReferenceModel::Keyword(word) => Ok(
            seq![
                ("kind"@, Script::Text("keyword"@)),
                ("namespace"@, Script::Text("keywords"@)),
                ("value"@, Script::Text(word)),
            ],
        ),
        ReferenceModel::Tag { namespace, value } => Ok(
            seq![
                ("kind"@, Script::Text("tag"@)),
                ("namespace"@, Script::Text(namespace)),
                ("value"@, Script::Text(value)),
            ],
        ),
        ReferenceModel::Item(item) => match found_item(catalog, item) {
            Err(why) => Err(Halted::Failed(at + ": `item: "@ + e.written + "` "@ + why)),
            Ok(id) => match catalog.row(id) {
                None => Err(
                    Halted::Failed(
                        "entry "@ + quoted_text(id) + " vanished from the catalog mid-resolution"@,
                    ),
                ),
                Some(row) => Ok(
                    seq![
                        ("kind"@, Script::Text("item"@)),
                        ("items"@, Script::List(seq![Script::Table(item_fields(row))])),
                    ],
                ),
            },
        },
        ReferenceModel::Query(query) => match catalog.query_answer(query) {
            Answer::Unasked => Err(Halted::Unasked(query)),
            Answer::Failed(why) => Err(
                Halted::Failed(
                    at + ": channel-authored `set` "@ + quoted_text(query) + ": "@ + why@,
                ),
            ),
            Answer::Items(ids) => if ids.len() == 0 {
                Err(
                    Halted::Failed(
                        at + ": `set` "@ + quoted_text(query)
                            + " matches no catalog items, so it would weight nothing"@,
                    ),
                )
            } else {
                match item_maps(catalog, ids) {
                    Err(why) => Err(Halted::Failed(why)),
                    Ok(maps) => Ok(
                        seq![("kind"@, Script::Text("set"@)), ("items"@, Script::List(maps))],
                    ),
                }
            },
        },
    }
}

/// One entry as a script sees it: what it refers to, its weight as it was authored, how it
/// was written, and where.
pub open spec fn profile_map(catalog: Catalog, e: Loaded) -> Result<Script, Halted> {
    match reference_fields(catalog, e) {
        Err(halted) => Err(halted),
        Ok(list) => Ok(
            Script::Table(
                list + seq![
                    ("weight"@, Script::Float(e.weight.text@, e.weight.finite)),
                    ("reference"@, Script::Text(e.written)),
                    ("origin"@, Script::Text(e.origin)),
                ],
            ),
        ),
    }
}

/// The entries as a script sees them; the first at fault counts.
pub open spec fn profile_maps(catalog: Catalog, entries: Seq<Loaded>) -> Result<Seq<Script>, Halted>
    decreases entries.len(),
{
    if entries.len() == 0 {
        Ok(Seq::empty())
    } else {
        match profile_maps(catalog, entries.drop_last()) {
            Err(halted) => Err(halted),
            Ok(maps) => match profile_map(catalog, entries.last()) {
                Err(halted) => Err(halted),
                Ok(map) => Ok(maps.push(map)),
            },
        }
    }
}

proof fn lemma_profile_maps_err(catalog: Catalog, entries: Seq<Loaded>, i: int)
    requires
        0 <= i <= entries.len(),
        profile_maps(catalog, entries.take(i)) is Err,
    ensures
        profile_maps(catalog, entries) == profile_maps(catalog, entries.take(i)),
    decreases entries.len() - i,
{
    if i < entries.len() {
        assert(entries.take(i + 1).drop_last() =~= entries.take(i));
        lemma_profile_maps_err(catalog, entries, i + 1);
    } else {
        assert(entries.take(i) =~= entries);
    }
}

fn text_field(name: &str, value: &str) -> (out: Field)
    ensures
        out.name@ == name@,
        out.value@ == Script::Text(value@),
{
    field(name, ScriptValue::of_text(value))
}

fn word_table(kind: &str, namespace: &str, value: &String) -> (out: Vec<Field>)
    ensures
        fields(out@) == seq![
            ("kind"@, Script::Text(kind@)),
            ("namespace"@, Script::Text(namespace@)),
            ("value"@, Script::Text(value@)),
        ],
{
    let mut out: Vec<Field> = Vec::new();
    out.push(text_field("kind", kind));
    out.push(text_field("namespace", namespace));
    out.push(text_field("value", value.as_str()));
    assert(fields(out@) =~= seq![
        ("kind"@, Script::Text(kind@)),
        ("namespace"@, Script::Text(namespace@)),
        ("value"@, Script::Text(value@)),
    ]);
    out
}

fn items_table(kind: &str, items: Vec<ScriptValue>) -> (out: Vec<Field>)
    ensures
        fields(out@) == seq![
            ("kind"@, Script::Text(kind@)),
            ("items"@, Script::List(scripts(items@))),
        ],
{
    let mut out: Vec<Field> = Vec::new();
    out.push(text_field("kind", kind));
    out.push(field("items", ScriptValue::of_list(items)));
    assert(fields(out@) =~= seq![
        ("kind"@, Script::Text(kind@)),
        ("items"@, Script::List(scripts(items@))),
    ]);
    out
}

fn item_table(catalog: &Catalog, e: &LoadedEntry, item: &ItemRef) -> (out: Result<Vec<Field>, Halt>)
    requires
        e.reference == Reference::Item(*item),
    ensures
        match (out, reference_fields(*catalog, e@)) {
            (Ok(got), Ok(want)) => fields(got@) == want,
            (Err(got), Err(want)) => got@ == want,
            _ => false,
        },
{
    let id: String = match resolve_item(catalog, item) {
        Ok(id) => id,
        Err(why) => {
            let mut message: String = e.locate();
            message.append(": `item: ");
            message.append(e.written.as_str());
            message.append("` ");
            message.append(why.as_str());
            return Err(Halt::Failed(message));
        },
    };
    match catalog.entry(&id) {
        None => Err(
            Halt::Failed(
                concat(
                    "entry ",
                    quoted(id.as_str()).as_str(),
                    " vanished from the catalog mid-resolution",
                ),
            ),
        ),
        Some(row) => {
            let mut items: Vec<ScriptValue> = Vec::new();
            items.push(item_map(row));
            assert(scripts(items@) =~= seq![Script::Table(item_fields(*row))]);
            Ok(items_table("item", items))
        },
    }
}

fn set_table(catalog: &Catalog, e: &LoadedEntry, query: &String) -> (out: Result<Vec<Field>, Halt>)
    requires
        e.reference == Reference::Query(*query),
    ensures
        match (out, reference_fields(*catalog, e@)) {
            (Ok(got), Ok(want)) => fields(got@) == want,
            (Err(got), Err(want)) => got@ == want,
            _ => false,
        },
{
    match catalog.resolve_query(query) {
        None => Err(Halt::Unasked(query.clone())),
        Some(Reply::Failed(why)) => {
            let mut message: String = e.locate();
            message.append(": channel-authored `set` ");
            message.append(quoted(query.as_str()).as_str());
            message.append(": ");
            message.append(why.as_str());
            Err(Halt::Failed(message))
        },
        Some(Reply::Items(ids)) => {
            if ids.len() == 0 {
                let mut message: String = e.locate();
                message.append(": `set` ");
                message.append(quoted(query.as_str()).as_str());
                message.append(" matches no catalog items, so it would weight nothing");
                return Err(Halt::Failed(message));
            }
            match load_items(catalog, &ids) {
                Err(why) => Err(Halt::Failed(why)),
                Ok(maps) => Ok(items_table("set", maps)),
            }
        },
    }
}

fn resolve_entry(catalog: &Catalog, e: &LoadedEntry) -> (out: Result<ScriptValue, Halt>)
    ensures
        match (out, profile_map(*catalog, e@)) {
            (Ok(got), Ok(want)) => got@ == want,
            (Err(got), Err(want)) => got@ == want,
            _ => false,
        },
{
    let made: Result<Vec<Field>, Halt> = match &e.reference {
        Reference::Keyword(word) => Ok(word_table("keyword", "keywords", word)),
        Reference::Tag { namespace, value } => Ok(word_table("tag", *namespace, value)),
        Reference::Item(item) => item_table(catalog, e, item),
        Reference::Query(query) => set_table(catalog, e, query),
    };
    let mut table: Vec<Field> = match made {
        Ok(table) => table,
        Err(halt) => return Err(halt),
    };
    let ghost before = fields(table@);
    table.push(field("weight", ScriptValue::Float(e.weight.text.clone(), e.weight.finite)));
    table.push(text_field("reference", e.written.as_str()));
    table.push(text_field("origin", e.origin.as_str()));
    assert(fields(table@) =~= before + seq![
        ("weight"@, Script::Float(e.weight.text@, e.weight.finite)),
        ("reference"@, Script::Text(e.written@)),
        ("origin"@, Script::Text(e.origin@)),
    ]);
    Ok(ScriptValue::of_table(table))
}

/// A pool's profile, resolved against the catalog.
#[derive(Debug)]
pub struct ResolvedProfile {
    pub entries: Vec<ScriptValue>,
    pub exclude_keywords: Vec<String>,
}

fn normalize_all(words: &Vec<String>) -> (out: Vec<String>)
    ensures
        texts(out@) == words@.map_values(|w: String| normal_keyword(w@)),
{
    let mut out: Vec<String> = Vec::new();
    let mut i: usize = 0;
    while i < words.len()
        invariant
            i <= words.len(),
            out.len() == i,
            forall|j: int| 0 <= j < i ==> (#[trigger] out@[j])@ == normal_keyword(words@[j]@),
        decreases words.len() - i,
    {
        out.push(normalize_keyword(words[i].as_str()));
        i += 1;
    }
    assert(texts(out@) =~= words@.map_values(|w: String| normal_keyword(w@)));
    out
}

/// Resolves every entry of a profile against the catalog, and brings the keywords to exclude
/// into the form that keywords are compared in. An entry that cannot be resolved fails it,
/// by its name.
pub fn resolve(catalog: &Catalog, entries: &Vec<LoadedEntry>, exclude_keywords: &Vec<String>) -> (out:
    Result<ResolvedProfile, Halt>)
    ensures
        match (out, profile_maps(*catalog, loaded(entries@))) {
            (Ok(got), Ok(want)) => scripts(got.entries@) == want && texts(got.exclude_keywords@)
                == exclude_keywords@.map_values(|w: String| normal_keyword(w@)),
            (Err(got), Err(want)) => got@ == want,
            _ => false,
        },
{
    let ghost all = loaded(entries@);
    let mut out: Vec<ScriptValue> = Vec::new();
    let mut i: usize = 0;
    assert(all.take(0) =~= Seq::<Loaded>::empty());
    assert(scripts(out@) =~= Seq::<Script>::empty());
    while i < entries.len()
        invariant
            i <= entries.len(),
            all == loaded(entries@),
            profile_maps(*catalog, all.take(i as int)) == Ok::<Seq<Script>, Halted>(scripts(out@)),
        decreases entries.len() - i,
    {
        assert(all.take(i + 1).drop_last() =~= all.take(i as int));
        assert(all.take(i + 1).last() == entries@[i as int]@);
        match resolve_entry(catalog, &entries[i]) {
            Ok(map) => {
                let ghost before = scripts(out@);
                out.push(map);
                assert(scripts(out@) =~= before.push(map@));
            },
            Err(halt) => {
                proof {
                    lemma_profile_maps_err(*catalog, all, i + 1);
                }
                return Err(halt);
            },
        }
        i += 1;
    }
    assert(all.take(i as int) =~= all);
    Ok(ResolvedProfile { entries: out, exclude_keywords: normalize_all(exclude_keywords) })
}

proof fn lemma_meant_ids(entries: Seq<Entry>, item: ItemRefModel, i: int)
    requires
        0 <= i < meant_ids(entries, item).len(),
    ensures
        exists|j: int|
            0 <= j < entries.len() && #[trigger] entries[j].entry_id == meant_ids(
                entries,
                item,
            )[i] && is_meant(entries[j], item),
    decreases entries.len(),
{
    let shorter = entries.drop_last();
    if i < meant_ids(shorter, item).len() {
        lemma_meant_ids(shorter, item, i);
        let j = choose|j: int|
            0 <= j < shorter.len() && #[trigger] shorter[j].entry_id == meant_ids(
                shorter,
                item,
            )[i] && is_meant(shorter[j], item);
        assert(entries[j] == shorter[j]);
    } else {
        let j = entries.len() - 1;
        assert(entries[j].entry_id == meant_ids(entries, item)[i]);
    }
}

/// The item that a reference points at is always in the catalog.
pub proof fn a_found_item_is_in_the_catalog(catalog: Catalog, item: ItemRefModel)
    ensures
        found_item(catalog, item) matches Ok(id) ==> catalog.row(id) is Some,
{
    let ids = meant_ids(catalog.entries@, item);
    if ids.len() == 1 {
        lemma_meant_ids(catalog.entries@, item, 0);
        lemma_row(catalog.entries@, ids[0]@);
        let j = choose|j: int|
            0 <= j < catalog.entries@.len() && #[trigger] catalog.entries@[j].entry_id == ids[0]
                && is_meant(catalog.entries@[j], item);
        assert(catalog.entries@[j].entry_id@ == ids[0]@);
    }
}

} // verus!
