//! Items ready to be scheduled: what they play, what the guide says of them, and how they
//! are made from catalog rows and from what an author wrote.

use vstd::prelude::*;

use std::sync::Arc;

use crate::catalog::{usable_length, slot_length, Catalog, Entry, EntrySource, Source};
use crate::fault::{Fault, ResolveError};
use crate::identity::{canonical, canonical_path, derive_entry_id, file_identity};
use crate::names::{copy_names, entry_of, lookup, same_text};
use crate::script::ScriptValue;

verus! {

/// What an item plays.
#[derive(Debug)]
pub enum SourceConfig {
    Local { path: String },
    Lavfi { params: String },
    Http { uri: String, headers: Vec<(String, String)>, user_agent: Option<String> },
}

/// What an item plays, as mathematical values.
pub enum SourceModel {
    Local { path: Seq<char> },
    Lavfi { params: Seq<char> },
    Http { uri: Seq<char>, headers: Seq<(String, String)>, user_agent: Option<String> },
}

impl View for SourceConfig {
    type V = SourceModel;

    open spec fn view(&self) -> SourceModel {
        match *self {
            SourceConfig::Local { path } => SourceModel::Local { path: path@ },
            SourceConfig::Lavfi { params } => SourceModel::Lavfi { params: params@ },
            SourceConfig::Http { uri, headers, user_agent } => SourceModel::Http {
                uri: uri@,
                headers: headers@,
                user_agent,
            },
        }
    }
}

/// What the guide says of an item.
#[derive(Debug)]
pub struct ProgramMetadata {
    pub title: Option<String>,
    pub sub_title: Option<String>,
    pub description: Option<String>,
    pub season: Option<u32>,
    pub episode: Option<u32>,
    pub categories: Option<Vec<String>>,
    pub content_rating: Option<String>,
    pub artwork_url: Option<String>,
    pub year: Option<u32>,
    pub credits: Option<String>,
    pub country: Option<String>,
    pub star_rating: Option<String>,
}

/// What the guide says of an item, as mathematical values.
pub struct ProgramModel {
    pub title: Option<Seq<char>>,
    pub sub_title: Option<Seq<char>>,
    pub description: Option<Seq<char>>,
    pub season: Option<u32>,
    pub episode: Option<u32>,
    pub categories: Option<Seq<String>>,
    pub content_rating: Option<Seq<char>>,
    pub artwork_url: Option<Seq<char>>,
    pub year: Option<u32>,
    pub credits: Option<Seq<char>>,
    pub country: Option<Seq<char>>,
    pub star_rating: Option<Seq<char>>,
}

/// The text of a value that may be absent.
pub open spec fn text(value: Option<String>) -> Option<Seq<char>> {
    match value {
        Some(s) => Some(s@),
        None => None,
    }
}

/// The names of a list that may be absent.
pub open spec fn list(value: Option<Vec<String>>) -> Option<Seq<String>> {
    match value {
        Some(v) => Some(v@),
        None => None,
    }
}

impl View for ProgramMetadata {
    type V = ProgramModel;

    open spec fn view(&self) -> ProgramModel {
        ProgramModel {
            title: text(self.title),
            sub_title: text(self.sub_title),
            description: text(self.description),
            season: self.season,
            episode: self.episode,
            categories: list(self.categories),
            content_rating: text(self.content_rating),
            artwork_url: text(self.artwork_url),
            year: self.year,
            credits: text(self.credits),
            country: text(self.country),
            star_rating: text(self.star_rating),
        }
    }
}

/// What is said of an item, or what is said by default where it says nothing.
pub open spec fn or_default<T>(own: Option<T>, default: Option<T>) -> Option<T> {
    match own {
        Some(v) => Some(v),
        None => default,
    }
}

impl ProgramModel {
    /// A guide entry that says nothing.
    pub open spec fn blank() -> ProgramModel {
        ProgramModel {
            title: None,
            sub_title: None,
            description: None,
            season: None,
            episode: None,
            categories: None,
            content_rating: None,
            artwork_url: None,
            year: None,
            credits: None,
            country: None,
            star_rating: None,
        }
    }

    /// A guide entry, with what it leaves out taken from `defaults`, field by field.
    pub open spec fn over(self, defaults: ProgramModel) -> ProgramModel {
        ProgramModel {
            title: or_default(self.title, defaults.title),
            sub_title: or_default(self.sub_title, defaults.sub_title),
            description: or_default(self.description, defaults.description),
            season: or_default(self.season, defaults.season),
            episode: or_default(self.episode, defaults.episode),
            categories: or_default(self.categories, defaults.categories),
            content_rating: or_default(self.content_rating, defaults.content_rating),
            artwork_url: or_default(self.artwork_url, defaults.artwork_url),
            year: or_default(self.year, defaults.year),
            credits: or_default(self.credits, defaults.credits),
            country: or_default(self.country, defaults.country),
            star_rating: or_default(self.star_rating, defaults.star_rating),
        }
    }
}

/// The guide entry of an item under the defaults of its block.
pub open spec fn merged(item: Option<ProgramModel>, defaults: Option<ProgramModel>) -> Option<
    ProgramModel,
> {
    match (item, defaults) {
        (None, None) => None,
        (Some(p), None) => Some(p),
        (None, Some(d)) => Some(d),
        (Some(p), Some(d)) => Some(p.over(d)),
    }
}

/// The guide entry behind a reference that may be absent, as mathematical values.
pub open spec fn program(value: Option<&ProgramMetadata>) -> Option<ProgramModel> {
    match value {
        Some(p) => Some(p@),
        None => None,
    }
}

/// A copy of a text that may be absent.
pub fn copy_text(value: &Option<String>) -> (out: Option<String>)
    ensures
        out == *value,
{
    match value {
        Some(s) => Some(s.clone()),
        None => None,
    }
}

fn copy_list(value: &Option<Vec<String>>) -> (out: Option<Vec<String>>)
    ensures
        list(out) == list(*value),
{
    match value {
        Some(v) => Some(copy_names(v)),
        None => None,
    }
}

fn text_or(own: &Option<String>, default: &Option<String>) -> (out: Option<String>)
    ensures
        text(out) == or_default(text(*own), text(*default)),
{
    match own {
        Some(s) => Some(s.clone()),
        None => copy_text(default),
    }
}

fn list_or(own: &Option<Vec<String>>, default: &Option<Vec<String>>) -> (out: Option<Vec<String>>)
    ensures
        list(out) == or_default(list(*own), list(*default)),
{
    match own {
        Some(v) => Some(copy_names(v)),
        None => copy_list(default),
    }
}

fn number_or(own: Option<u32>, default: Option<u32>) -> (out: Option<u32>)
    ensures
        out == or_default(own, default),
{
    match own {
        Some(n) => Some(n),
        None => default,
    }
}

impl ProgramMetadata {
    /// A guide entry that says nothing.
    pub fn blank() -> (out: ProgramMetadata)
        ensures
            out@ == ProgramModel::blank(),
    {
        ProgramMetadata {
            title: None,
            sub_title: None,
            description: None,
            season: None,
            episode: None,
            categories: None,
            content_rating: None,
            artwork_url: None,
            year: None,
            credits: None,
            country: None,
            star_rating: None,
        }
    }

    /// The same guide entry again.
    pub fn copy(&self) -> (out: ProgramMetadata)
        ensures
            out@ == self@,
    {
        ProgramMetadata {
            title: copy_text(&self.title),
            sub_title: copy_text(&self.sub_title),
            description: copy_text(&self.description),
            season: self.season,
            episode: self.episode,
            categories: copy_list(&self.categories),
            content_rating: copy_text(&self.content_rating),
            artwork_url: copy_text(&self.artwork_url),
            year: self.year,
            credits: copy_text(&self.credits),
            country: copy_text(&self.country),
            star_rating: copy_text(&self.star_rating),
        }
    }
}

/// The guide entry of an item under the defaults of its block: its own fields win, and the
/// defaults fill the rest.
pub fn merge_program(item: Option<&ProgramMetadata>, defaults: Option<&ProgramMetadata>) -> (out:
    Option<ProgramMetadata>)
    ensures
        (match out {
            Some(p) => Some(p@),
            None => None,
        }) == merged(program(item), program(defaults)),
{
    match (item, defaults) {
        (None, None) => None,
        (Some(p), None) => Some(p.copy()),
        (None, Some(d)) => Some(d.copy()),
        (Some(p), Some(d)) => Some(
            ProgramMetadata {
                title: text_or(&p.title, &d.title),
                sub_title: text_or(&p.sub_title, &d.sub_title),
                description: text_or(&p.description, &d.description),
                season: number_or(p.season, d.season),
                episode: number_or(p.episode, d.episode),
                categories: list_or(&p.categories, &d.categories),
                content_rating: text_or(&p.content_rating, &d.content_rating),
                artwork_url: text_or(&p.artwork_url, &d.artwork_url),
                year: number_or(p.year, d.year),
                credits: text_or(&p.credits, &d.credits),
                country: text_or(&p.country, &d.country),
                star_rating: text_or(&p.star_rating, &d.star_rating),
            },
        ),
    }
}

/// Templates for the guide, where an author wrote any.
#[derive(Debug)]
pub struct GuideConfig {
    pub title: Option<String>,
    pub sub_title: Option<String>,
    pub description: Option<String>,
    pub categories: Option<String>,
}

/// Templates, with what they leave out taken from `broader`, field by field.
pub open spec fn guide_over(own: Option<GuideConfig>, broader: Option<GuideConfig>) -> Option<
    GuideConfig,
> {
    match (own, broader) {
        (None, None) => None,
        (Some(g), None) => Some(g),
        (None, Some(b)) => Some(b),
        (Some(g), Some(b)) => Some(
            GuideConfig {
                title: or_default(g.title, b.title),
                sub_title: or_default(g.sub_title, b.sub_title),
                description: or_default(g.description, b.description),
                categories: or_default(g.categories, b.categories),
            },
        ),
    }
}

/// What stands behind a reference that may be absent.
pub open spec fn unref<T>(value: Option<&T>) -> Option<T> {
    match value {
        Some(v) => Some(*v),
        None => None,
    }
}

fn own_or(own: &Option<String>, default: &Option<String>) -> (out: Option<String>)
    ensures
        out == or_default(*own, *default),
{
    match own {
        Some(s) => Some(s.clone()),
        None => copy_text(default),
    }
}

impl GuideConfig {
    /// The same templates again.
    pub fn copy(&self) -> (out: GuideConfig)
        ensures
            out == *self,
    {
        GuideConfig {
            title: copy_text(&self.title),
            sub_title: copy_text(&self.sub_title),
            description: copy_text(&self.description),
            categories: copy_text(&self.categories),
        }
    }

    /// The templates that hold for an item: the most specific level that says something
    /// wins, field by field.
    pub fn cascade(
        item: Option<&GuideConfig>,
        block: Option<&GuideConfig>,
        channel: Option<&GuideConfig>,
    ) -> (out: Option<GuideConfig>)
        ensures
            out == guide_over(unref(item), guide_over(unref(block), unref(channel))),
    {
        let broader: Option<GuideConfig> = match (block, channel) {
            (None, None) => None,
            (Some(b), None) => Some(b.copy()),
            (None, Some(c)) => Some(c.copy()),
            (Some(b), Some(c)) => Some(
                GuideConfig {
                    title: own_or(&b.title, &c.title),
                    sub_title: own_or(&b.sub_title, &c.sub_title),
                    description: own_or(&b.description, &c.description),
                    categories: own_or(&b.categories, &c.categories),
                },
            ),
        };
        match (item, broader) {
            (None, broader) => broader,
            (Some(g), None) => Some(g.copy()),
            (Some(g), Some(b)) => Some(
                GuideConfig {
                    title: own_or(&g.title, &b.title),
                    sub_title: own_or(&g.sub_title, &b.sub_title),
                    description: own_or(&g.description, &b.description),
                    categories: own_or(&g.categories, &b.categories),
                },
            ),
        }
    }
}

/// What the catalog knows of an item that a guide template can name.
#[derive(Debug)]
pub struct GuideFields {
    pub show: Option<String>,
    pub absolute_episode: Option<i64>,
    pub release_date: Option<String>,
    pub studio: Option<String>,
    pub edition: Option<String>,
    pub library: Option<String>,
    /// In milliseconds.
    pub duration_ms: Option<i64>,
    pub cast: Vec<String>,
    pub directors: Vec<String>,
    pub writers: Vec<String>,
    pub countries: Vec<String>,
    pub genres: Vec<String>,
    pub summary: Option<String>,
}

/// What the catalog knows of an item, as mathematical values.
pub struct FieldsModel {
    pub show: Option<String>,
    pub absolute_episode: Option<i64>,
    pub release_date: Option<String>,
    pub studio: Option<String>,
    pub edition: Option<String>,
    pub library: Option<String>,
    pub duration_ms: Option<i64>,
    pub cast: Seq<String>,
    pub directors: Seq<String>,
    pub writers: Seq<String>,
    pub countries: Seq<String>,
    pub genres: Seq<String>,
    pub summary: Option<String>,
}

impl View for GuideFields {
    type V = FieldsModel;

    open spec fn view(&self) -> FieldsModel {
        FieldsModel {
            show: self.show,
            absolute_episode: self.absolute_episode,
            release_date: self.release_date,
            studio: self.studio,
            edition: self.edition,
            library: self.library,
            duration_ms: self.duration_ms,
            cast: self.cast@,
            directors: self.directors@,
            writers: self.writers@,
            countries: self.countries@,
            genres: self.genres@,
            summary: self.summary,
        }
    }
}

impl FieldsModel {
    /// What is known of an item that has no catalog row.
    pub open spec fn nothing() -> FieldsModel {
        FieldsModel {
            show: None,
            absolute_episode: None,
            release_date: None,
            studio: None,
            edition: None,
            library: None,
            duration_ms: None,
            cast: Seq::empty(),
            directors: Seq::empty(),
            writers: Seq::empty(),
            countries: Seq::empty(),
            genres: Seq::empty(),
            summary: None,
        }
    }

    /// What a catalog row says of an item.
    pub open spec fn of(entry: Entry) -> FieldsModel {
        FieldsModel {
            show: entry.show,
            absolute_episode: entry.absolute_episode,
            release_date: entry.release_date,
            studio: entry.studio,
            edition: entry.edition,
            library: entry.library,
            duration_ms: match entry.duration_ms {
                Some(ms) => if ms > 0 {
                    Some(ms)
                } else {
                    None
                },
                None => None,
            },
            cast: entry.tags.cast@,
            directors: entry.tags.directors@,
            writers: entry.tags.writers@,
            countries: entry.tags.countries@,
            genres: entry.tags.genres@,
            summary: entry.summary,
        }
    }
}

/// An item ready to be scheduled.
#[derive(Debug)]
pub struct ResolvedItem {
    pub id: String,
    pub source: SourceConfig,
    /// In nanoseconds.
    pub in_point: Option<u64>,
    /// In nanoseconds.
    pub out_point: Option<u64>,
    pub program: Option<ProgramMetadata>,
    /// How long the catalog says the item runs, in nanoseconds.
    pub catalog_duration: Option<u64>,
    /// Whether the slot was given over to an error card.
    pub error_card: bool,
    /// What a plugin attached to the pick.
    pub metadata: Option<Arc<ScriptValue>>,
    pub guide: Option<GuideConfig>,
    pub guide_fields: GuideFields,
}

/// An item ready to be scheduled, as mathematical values.
pub struct ItemModel {
    pub id: Seq<char>,
    pub source: SourceModel,
    pub in_point: Option<u64>,
    pub out_point: Option<u64>,
    pub program: Option<ProgramModel>,
    pub catalog_duration: Option<u64>,
    pub error_card: bool,
    pub metadata: Option<Arc<ScriptValue>>,
    pub guide: Option<GuideConfig>,
    pub guide_fields: FieldsModel,
}

impl View for ResolvedItem {
    type V = ItemModel;

    open spec fn view(&self) -> ItemModel {
        ItemModel {
            id: self.id@,
            source: self.source@,
            in_point: self.in_point,
            out_point: self.out_point,
            program: match self.program {
                Some(p) => Some(p@),
                None => None,
            },
            catalog_duration: self.catalog_duration,
            error_card: self.error_card,
            metadata: self.metadata,
            guide: self.guide,
            guide_fields: self.guide_fields@,
        }
    }
}

/// The items of a list as mathematical values.
pub open spec fn items(all: Seq<ResolvedItem>) -> Seq<ItemModel> {
    all.map_values(|i: ResolvedItem| i@)
}

/// The identities of a list of items.
pub open spec fn item_ids(all: Seq<ItemModel>) -> Seq<Seq<char>> {
    all.map_values(|i: ItemModel| i.id)
}

/// A catalog number that the guide can hold.
pub open spec fn as_u32(n: Option<i64>) -> Option<u32> {
    match n {
        Some(v) => if 0 <= v <= u32::MAX {
            Some(v as u32)
        } else {
            None
        },
        None => None,
    }
}

fn fit_u32(n: Option<i64>) -> (out: Option<u32>)
    ensures
        out == as_u32(n),
{
    match n {
        Some(v) => if v >= 0 && v <= 0xFFFF_FFFF {
            Some(v as u32)
        } else {
            None
        },
        None => None,
    }
}

/// The first source that is on the local file system, where that is asked, and not stale, where
/// that is asked.
pub open spec fn first_source(sources: Seq<EntrySource>, local: bool, live: bool) -> Option<
    EntrySource,
>
    decreases sources.len(),
{
    if sources.len() == 0 {
        None
    } else if (local ==> sources[0].source == Source::LocalFs) && (live ==> !sources[0].stale) {
        Some(sources[0])
    } else {
        first_source(sources.drop_first(), local, live)
    }
}

/// The source an entry is played from: one that is not stale before one that is, and of those
/// the first on the local file system, else the first.
pub open spec fn playback(sources: Seq<EntrySource>) -> Option<EntrySource> {
    match first_source(sources, true, true) {
        Some(s) => Some(s),
        None => match first_source(sources, false, true) {
            Some(s) => Some(s),
            None => match first_source(sources, true, false) {
                Some(s) => Some(s),
                None => first_source(sources, false, false),
            },
        },
    }
}

fn find_source(sources: &Vec<EntrySource>, local: bool, live: bool) -> (out: Option<&EntrySource>)
    ensures
        match (out, first_source(sources@, local, live)) {
            (Some(got), Some(want)) => *got == want,
            (None, None) => true,
            _ => false,
        },
{
    let mut i: usize = 0;
    assert(sources@.skip(0) =~= sources@);
    while i < sources.len()
        invariant
            i <= sources.len(),
            first_source(sources@, local, live) == first_source(
                sources@.skip(i as int),
                local,
                live,
            ),
        decreases sources.len() - i,
    {
        assert(sources@.skip(i as int)[0] == sources@[i as int]);
        if (!local || sources[i].source == Source::LocalFs) && (!live || !sources[i].stale) {
            return Some(&sources[i]);
        }
        assert(sources@.skip(i as int).drop_first() =~= sources@.skip(i + 1));
        i += 1;
    }
    None
}

/// The source an entry is played from: one that is not stale before one that is, and of those
/// the first on the local file system, else the first.
pub fn pick_playback_source(sources: &Vec<EntrySource>) -> (out: Option<&EntrySource>)
    ensures
        out is Some <==> playback(sources@) is Some,
        out matches Some(s) ==> playback(sources@) == Some(*s),
{
    match find_source(sources, true, true) {
        Some(s) => return Some(s),
        None => {},
    }
    match find_source(sources, false, true) {
        Some(s) => return Some(s),
        None => {},
    }
    match find_source(sources, true, false) {
        Some(s) => return Some(s),
        None => {},
    }
    find_source(sources, false, false)
}

/// What the guide says of a catalog row. An episode goes under the name of its show, with
/// its own name below it; the genres are its categories.
pub open spec fn entry_program(entry: Entry) -> ProgramModel {
    let episode = entry.kind@ == "episode"@;
    ProgramModel {
        title: Some(
            match (episode, entry.show) {
                (true, Some(show)) => show@,
                _ => entry.title@,
            },
        ),
        sub_title: if episode {
            Some(entry.title@)
        } else {
            None
        },
        description: text(entry.summary),
        season: as_u32(entry.season),
        episode: as_u32(entry.episode),
        categories: if entry.tags.genres@.len() == 0 {
            None
        } else {
            Some(entry.tags.genres@)
        },
        content_rating: text(entry.content_rating),
        artwork_url: match entry.artwork_cache_path {
            Some(file) => Some("/artwork/"@ + file@),
            None => None,
        },
        year: as_u32(entry.year),
        credits: None,
        country: None,
        star_rating: None,
    }
}

/// The item that a catalog row makes; none when nothing can play it.
pub open spec fn entry_item(
    entry: Entry,
    defaults: Option<ProgramModel>,
    guide: Option<GuideConfig>,
) -> Option<ItemModel> {
    match playback(entry.sources@) {
        None => None,
        Some(source) => Some(
            ItemModel {
                id: entry.entry_id@,
                source: SourceModel::Local { path: source.playback_path@ },
                in_point: None,
                out_point: None,
                program: merged(Some(entry_program(entry)), defaults),
                catalog_duration: slot_length(entry.duration_ms),
                error_card: false,
                metadata: None,
                guide,
                guide_fields: FieldsModel::of(entry),
            },
        ),
    }
}

/// The item that an identity of the catalog makes.
pub open spec fn catalog_entry_item(
    catalog: Catalog,
    id: String,
    defaults: Option<ProgramModel>,
    guide: Option<GuideConfig>,
) -> Result<Option<ItemModel>, Fault> {
    match catalog.row(id@) {
        None => Err(Fault::Vanished { id }),
        Some(entry) => Ok(entry_item(entry, defaults, guide)),
    }
}

fn program_of(entry: &Entry) -> (out: ProgramMetadata)
    ensures
        out@ == entry_program(*entry),
{
    let episode: bool = same_text(entry.kind.as_str(), "episode");
    let title: String = match (episode, &entry.show) {
        (true, Some(show)) => show.clone(),
        _ => entry.title.clone(),
    };
    let sub_title: Option<String> = if episode {
        Some(entry.title.clone())
    } else {
        None
    };
    let categories: Option<Vec<String>> = if entry.tags.genres.len() == 0 {
        None
    } else {
        Some(copy_names(&entry.tags.genres))
    };
    let artwork_url: Option<String> = match &entry.artwork_cache_path {
        Some(file) => {
            let mut url: String = "/artwork/".to_owned();
            url.append(file.as_str());
            Some(url)
        },
        None => None,
    };
    ProgramMetadata {
        title: Some(title),
        sub_title,
        description: copy_text(&entry.summary),
        season: fit_u32(entry.season),
        episode: fit_u32(entry.episode),
        categories,
        content_rating: copy_text(&entry.content_rating),
        artwork_url,
        year: fit_u32(entry.year),
        credits: None,
        country: None,
        star_rating: None,
    }
}

fn fields_of(entry: &Entry) -> (out: GuideFields)
    ensures
        out@ == FieldsModel::of(*entry),
{
    let duration_ms: Option<i64> = match entry.duration_ms {
        Some(ms) => if ms > 0 {
            Some(ms)
        } else {
            None
        },
        None => None,
    };
    GuideFields {
        show: copy_text(&entry.show),
        absolute_episode: entry.absolute_episode,
        release_date: copy_text(&entry.release_date),
        studio: copy_text(&entry.studio),
        edition: copy_text(&entry.edition),
        library: copy_text(&entry.library),
        duration_ms,
        cast: copy_names(&entry.tags.cast),
        directors: copy_names(&entry.tags.directors),
        writers: copy_names(&entry.tags.writers),
        countries: copy_names(&entry.tags.countries),
        genres: copy_names(&entry.tags.genres),
        summary: copy_text(&entry.summary),
    }
}

/// Whether two outcomes of making an item agree.
pub open spec fn same_outcome(
    out: Result<Option<ResolvedItem>, ResolveError>,
    want: Result<Option<ItemModel>, Fault>,
) -> bool {
    match (out, want) {
        (Ok(Some(got)), Ok(Some(want))) => got@ == want,
        (Ok(None), Ok(None)) => true,
        (Err(got), Err(want)) => got@ == want,
        _ => false,
    }
}

/// Makes an item of a catalog row. A row that nothing can play makes none; an identity that
/// the catalog does not hold is an error.
pub fn catalog_item(
    catalog: &Catalog,
    id: &String,
    defaults: Option<&ProgramMetadata>,
    guide: Option<&GuideConfig>,
) -> (out: Result<Option<ResolvedItem>, ResolveError>)
    ensures
        same_outcome(out, catalog_entry_item(*catalog, *id, program(defaults), unref(guide))),
{
    let entry: &Entry = match catalog.entry(id) {
        Some(entry) => entry,
        None => return Err(ResolveError::Vanished { id: id.clone() }),
    };
    let path: String = match pick_playback_source(&entry.sources) {
        Some(source) => source.playback_path.clone(),
        None => return Ok(None),
    };
    let own: ProgramMetadata = program_of(entry);
    let guide: Option<GuideConfig> = match guide {
        Some(g) => Some(g.copy()),
        None => None,
    };
    Ok(
        Some(
            ResolvedItem {
                id: entry.entry_id.clone(),
                source: SourceConfig::Local { path },
                in_point: None,
                out_point: None,
                program: merge_program(Some(&own), defaults),
                catalog_duration: usable_length(entry.duration_ms),
                error_card: false,
                metadata: None,
                guide,
                guide_fields: fields_of(entry),
            },
        ),
    )
}

/// An item as an author wrote it.
#[derive(Debug)]
pub struct ItemEntry {
    pub source: SourceConfig,
    /// In nanoseconds.
    pub in_point: Option<u64>,
    /// In nanoseconds.
    pub out_point: Option<u64>,
    pub program: Option<ProgramMetadata>,
    pub guide: Option<GuideConfig>,
}

/// The identity of an authored item. A local file has that of the catalog row for the same
/// file, where there is one.
pub open spec fn authored_identity(
    source: SourceModel,
    roots: Seq<String>,
    index: Option<Seq<(String, String)>>,
) -> Seq<char> {
    match source {
        SourceModel::Local { path } => {
            let name = canonical(path, roots);
            let known = match index {
                Some(index) => entry_of(index, name),
                None => None,
            };
            match known {
                Some(id) => id@,
                None => file_identity(name),
            }
        },
        SourceModel::Lavfi { params } => "lavfi:"@ + params,
        SourceModel::Http { uri, .. } => "http:"@ + uri,
    }
}

/// The rows behind a reference to a table that may be absent.
pub open spec fn rows(index: Option<&Vec<(String, String)>>) -> Option<Seq<(String, String)>> {
    match index {
        Some(index) => Some(index@),
        None => None,
    }
}

/// The identity of an authored item: a local file inherits that of the catalog row for the
/// same file and else hashes its canonical path; any other source keys on its defining
/// field.
pub fn derive_item_id(
    source: &SourceConfig,
    identity_roots: &Vec<String>,
    path_index: Option<&Vec<(String, String)>>,
) -> (out: String)
    ensures
        out@ == authored_identity(source@, identity_roots@, rows(path_index)),
{
    match source {
        SourceConfig::Local { path } => {
            let name: String = canonical_path(path.as_str(), identity_roots);
            let known: Option<&String> = match path_index {
                Some(index) => lookup(index, &name),
                None => None,
            };
            match known {
                Some(id) => id.clone(),
                None => derive_entry_id(name.as_str()),
            }
        },
        SourceConfig::Lavfi { params } => {
            let mut out: String = "lavfi:".to_owned();
            out.append(params.as_str());
            out
        },
        SourceConfig::Http { uri, .. } => {
            let mut out: String = "http:".to_owned();
            out.append(uri.as_str());
            out
        },
    }
}

impl SourceConfig {
    /// The same source again.
    pub fn copy(&self) -> (out: SourceConfig)
        ensures
            out@ == self@,
    {
        match self {
            SourceConfig::Local { path } => SourceConfig::Local { path: path.clone() },
            SourceConfig::Lavfi { params } => SourceConfig::Lavfi { params: params.clone() },
            SourceConfig::Http { uri, headers, user_agent } => SourceConfig::Http {
                uri: uri.clone(),
                headers: copy_pairs(headers),
                user_agent: copy_text(user_agent),
            },
        }
    }
}

fn copy_pairs(pairs: &Vec<(String, String)>) -> (out: Vec<(String, String)>)
    ensures
        out@ == pairs@,
{
    let mut out: Vec<(String, String)> = Vec::new();
    let mut i: usize = 0;
    while i < pairs.len()
        invariant
            i <= pairs.len(),
            out@ =~= pairs@.take(i as int),
        decreases pairs.len() - i,
    {
        out.push((pairs[i].0.clone(), pairs[i].1.clone()));
        i += 1;
    }
    assert(pairs@.take(i as int) =~= pairs@);
    out
}

/// The item that an authored one makes.
pub open spec fn authored_item(
    item: ItemEntry,
    defaults: Option<ProgramModel>,
    guide: Option<GuideConfig>,
    roots: Seq<String>,
    index: Option<Seq<(String, String)>>,
) -> ItemModel {
    ItemModel {
        id: authored_identity(item.source@, roots, index),
        source: item.source@,
        in_point: item.in_point,
        out_point: item.out_point,
        program: merged(
            match item.program {
                Some(p) => Some(p@),
                None => None,
            },
            defaults,
        ),
        catalog_duration: None,
        error_card: false,
        metadata: None,
        guide: guide_over(item.guide, guide),
        guide_fields: FieldsModel::nothing(),
    }
}

/// Makes an item of an authored one.
pub fn resolve_item(
    item: &ItemEntry,
    defaults: Option<&ProgramMetadata>,
    guide: Option<&GuideConfig>,
    identity_roots: &Vec<String>,
    path_index: Option<&Vec<(String, String)>>,
) -> (out: ResolvedItem)
    ensures
        out@ == authored_item(
            *item,
            program(defaults),
            unref(guide),
            identity_roots@,
            rows(path_index),
        ),
{
    let own: Option<&ProgramMetadata> = match &item.program {
        Some(p) => Some(p),
        None => None,
    };
    let own_guide: Option<&GuideConfig> = match &item.guide {
        Some(g) => Some(g),
        None => None,
    };
    ResolvedItem {
        id: derive_item_id(&item.source, identity_roots, path_index),
        source: item.source.copy(),
        in_point: item.in_point,
        out_point: item.out_point,
        program: merge_program(own, defaults),
        catalog_duration: None,
        error_card: false,
        metadata: None,
        guide: GuideConfig::cascade(own_guide, guide, None),
        guide_fields: GuideFields {
            show: None,
            absolute_episode: None,
            release_date: None,
            studio: None,
            edition: None,
            library: None,
            duration_ms: None,
            cast: Vec::new(),
            directors: Vec::new(),
            writers: Vec::new(),
            countries: Vec::new(),
            genres: Vec::new(),
            summary: None,
        },
    }
}

/// Two authored files with one canonical path have one identity: the same file reached
/// through two mounts is one item.
pub proof fn one_file_has_one_identity(
    a: Seq<char>,
    b: Seq<char>,
    roots: Seq<String>,
    index: Option<Seq<(String, String)>>,
)
    requires
        canonical(a, roots) == canonical(b, roots),
    ensures
        authored_identity(SourceModel::Local { path: a }, roots, index) == authored_identity(
            SourceModel::Local { path: b },
            roots,
            index,
        ),
{
}

} // verus!
