//! What holds of the items that catalog rows and authors make: what plays, what the guide says,
//! and how the levels of an author's text stand over one another.

use vstd::prelude::*;

use crate::catalog::{slot_length, Catalog, Entry, EntrySource, Source, Tags, TagNs};
use crate::fault::Fault;
use crate::identity::{canonical, file_identity};
use crate::item::{
    as_u32, authored_identity, authored_item, catalog_entry_item, entry_item, entry_program,
    first_source, guide_over, merged, playback, FieldsModel, GuideConfig, ItemEntry,
    ProgramMetadata, ProgramModel, ResolvedItem, SourceConfig, SourceModel,
};
use crate::names::entry_of;

verus! {

/// The guide names an episode by its show, with its own title below it. Anything else goes by
/// its own title and has none below; so does an episode of no show, whose title stands twice.
pub proof fn an_episode_goes_by_its_show(e: Entry)
    ensures
        e.kind@ == "episode"@ && e.show is Some ==> {
            &&& entry_program(e).title == Some(e.show->0@)
            &&& entry_program(e).sub_title == Some(e.title@)
        },
        e.kind@ == "episode"@ && e.show is None ==> {
            &&& entry_program(e).title == Some(e.title@)
            &&& entry_program(e).sub_title == Some(e.title@)
        },
        e.kind@ != "episode"@ ==> {
            &&& entry_program(e).title == Some(e.title@)
            &&& entry_program(e).sub_title is None
        },
{
}

/// A number of the catalog goes into the guide as it is, or not at all where the guide cannot
/// hold it.
pub proof fn the_guide_holds_a_number_as_it_is(n: Option<i64>)
    ensures
        as_u32(n) matches Some(v) ==> n matches Some(m) && v == m,
        as_u32(n) is None <==> (n matches Some(m) ==> m < 0 || m > 0xFFFF_FFFF),
{
}

/// What the guide says of a catalog row besides its title is what the row says: its summary,
/// its numbers, its genres, its rating, and where its artwork is served. The rest it leaves to
/// the author.
pub proof fn the_guide_says_what_the_row_says(e: Entry)
    ensures
        entry_program(e).description is Some <==> e.summary is Some,
        e.summary matches Some(s) ==> entry_program(e).description == Some(s@),
        entry_program(e).season == as_u32(e.season),
        entry_program(e).episode == as_u32(e.episode),
        entry_program(e).year == as_u32(e.year),
        e.tags.genres@.len() > 0 ==> entry_program(e).categories == Some(e.tags.genres@),
        e.tags.genres@.len() == 0 ==> entry_program(e).categories is None,
        entry_program(e).content_rating is Some <==> e.content_rating is Some,
        e.content_rating matches Some(r) ==> entry_program(e).content_rating == Some(r@),
        entry_program(e).artwork_url is Some <==> e.artwork_cache_path is Some,
        e.artwork_cache_path matches Some(p) ==> {
            let url = entry_program(e).artwork_url->0;
            &&& url.len() == 9 + p@.len()
            &&& url.take(9) == "/artwork/"@
            &&& url.skip(9) == p@
        },
        entry_program(e).credits is None,
        entry_program(e).country is None,
        entry_program(e).star_rating is None,
{
    reveal_strlit("/artwork/");
    if let Some(p) = e.artwork_cache_path {
        let url = "/artwork/"@ + p@;
        assert(url.take(9) =~= "/artwork/"@);
        assert(url.skip(9) =~= p@);
    }
}

/// What a guide template can name of an item is what its row says, field by field; a length
/// that is not positive is none.
pub proof fn templates_name_what_the_row_says(e: Entry)
    ensures
        ({
            let f = FieldsModel::of(e);
            &&& f.show == e.show
            &&& f.absolute_episode == e.absolute_episode
            &&& f.release_date == e.release_date
            &&& f.studio == e.studio
            &&& f.edition == e.edition
            &&& f.library == e.library
            &&& f.summary == e.summary
            &&& f.cast == e.tags.cast@
            &&& f.directors == e.tags.directors@
            &&& f.writers == e.tags.writers@
            &&& f.countries == e.tags.countries@
            &&& f.genres == e.tags.genres@
            &&& f.duration_ms matches Some(ms) ==> ms > 0 && e.duration_ms == Some(ms)
            &&& f.duration_ms is None ==> (e.duration_ms matches Some(ms) ==> ms <= 0)
        }),
{
}

/// The tags of a kind are those of the row in that kind, and tags of one kind are not told by
/// any other.
pub proof fn tags_are_told_by_their_kind(tags: Tags)
    ensures
        tags.values(TagNs::Genre) == tags.genres@,
        tags.values(TagNs::Label) == tags.labels@,
        tags.values(TagNs::Cast) == tags.cast@,
        tags.values(TagNs::Director) == tags.directors@,
        tags.values(TagNs::Writer) == tags.writers@,
        tags.values(TagNs::Producer) == tags.producers@,
        tags.values(TagNs::Country) == tags.countries@,
{
}

/// A length of the catalog sizes a slot where it is positive and no longer than a day: a
/// million nanoseconds for each of its milliseconds.
pub proof fn a_plausible_length_sizes_a_slot(ms: Option<i64>)
    ensures
        slot_length(ms) matches Some(ns) ==> {
            &&& ms matches Some(m) && ns == m * 1_000_000
            &&& 0 < ns <= 24 * 60 * 60 * 1_000_000_000
        },
        slot_length(ms) is None ==> (ms matches Some(m) ==> m <= 0 || m > 24 * 60 * 60 * 1000),
{
}

/// What a catalog is asked of an item is told by the first row of that identity: its show, its
/// season, its length and its tags; and nothing is told of an identity without a row.
pub proof fn the_catalog_tells_by_the_first_row(
    catalog: Catalog,
    id: Seq<char>,
    ns: TagNs,
    i: int,
)
    ensures
        0 <= i < catalog.entries@.len() && catalog.entries@[i].entry_id@ == id && (forall|j: int|
            0 <= j < i ==> (#[trigger] catalog.entries@[j]).entry_id@ != id) ==> {
            let e = catalog.entries@[i];
            &&& catalog.row(id) == Some(e)
            &&& catalog.show_id(id) == e.show_id
            &&& catalog.season(id) == e.season
            &&& catalog.length(id) == slot_length(e.duration_ms)
            &&& catalog.tags(id, ns) == e.tags.values(ns)
        },
        (forall|j: int|
            0 <= j < catalog.entries@.len() ==> (#[trigger] catalog.entries@[j]).entry_id@ != id)
            ==> {
            &&& catalog.row(id) is None
            &&& catalog.show_id(id) is None
            &&& catalog.season(id) is None
            &&& catalog.length(id) is None
            &&& catalog.tags(id, ns).len() == 0
        },
{
    crate::catalog::lemma_row(catalog.entries@, id);
    if 0 <= i < catalog.entries@.len() && catalog.entries@[i].entry_id@ == id && (forall|j: int|
        0 <= j < i ==> (#[trigger] catalog.entries@[j]).entry_id@ != id) {
        let found = catalog.row(id)->0;
        let k = choose|k: int|
            #![trigger catalog.entries@[k]]
            0 <= k < catalog.entries@.len() && catalog.entries@[k] == found && forall|j: int|
                0 <= j < k ==> #[trigger] catalog.entries@[j].entry_id@ != id;
        assert(catalog.entries@[k].entry_id@ == id);
        assert(k == i);
    }
}

proof fn lemma_first_source(sources: Seq<EntrySource>, local: bool, live: bool)
    ensures
        match first_source(sources, local, live) {
            Some(s) => {
                &&& local ==> s.source == Source::LocalFs
                &&& live ==> !s.stale
                &&& exists|i: int|
                    #![trigger sources[i]]
                    0 <= i < sources.len() && sources[i] == s && forall|j: int|
                        0 <= j < i ==> (local && (#[trigger] sources[j]).source != Source::LocalFs)
                            || (live && sources[j].stale)
            },
            None => forall|j: int|
                0 <= j < sources.len() ==> (local && (#[trigger] sources[j]).source
                    != Source::LocalFs) || (live && sources[j].stale),
        },
    decreases sources.len(),
{
    if sources.len() > 0 {
        let rest = sources.drop_first();
        lemma_first_source(rest, local, live);
        assert forall|j: int| 0 < j < sources.len() implies #[trigger] sources[j] == rest[j - 1] by {}
        if (local ==> sources[0].source == Source::LocalFs) && (live ==> !sources[0].stale) {
            assert(sources[0] == first_source(sources, local, live)->0);
        } else if first_source(rest, local, live) is Some {
            let s = first_source(rest, local, live)->0;
            let i = choose|i: int|
                #![trigger rest[i]]
                0 <= i < rest.len() && rest[i] == s && forall|j: int|
                    0 <= j < i ==> (local && (#[trigger] rest[j]).source != Source::LocalFs) || (live
                        && rest[j].stale);
            assert(sources[i + 1] == s);
            assert forall|j: int| 0 <= j < i + 1 implies (local && (#[trigger] sources[j]).source
                != Source::LocalFs) || (live && sources[j].stale) by {
                if j > 0 {
                    assert(sources[j] == rest[j - 1]);
                }
            }
        }
    }
}

/// Whether a source is no worse to play from than another: live before stale, and of two that
/// are alike in that, one on the local file system before one that is not.
pub open spec fn no_worse(a: EntrySource, b: EntrySource) -> bool {
    if a.stale != b.stale {
        !a.stale
    } else {
        a.source == Source::LocalFs || b.source != Source::LocalFs
    }
}

/// An entry is played from one of its sources, no worse than any other of them, and better than
/// those before it; it cannot be played only where it has none.
pub proof fn an_entry_plays_from_its_best_source(sources: Seq<EntrySource>)
    ensures
        playback(sources) is None <==> sources.len() == 0,
        playback(sources) matches Some(s) ==> {
            &&& forall|j: int| 0 <= j < sources.len() ==> no_worse(s, #[trigger] sources[j])
            &&& exists|i: int|
                #![trigger sources[i]]
                0 <= i < sources.len() && sources[i] == s && forall|j: int|
                    0 <= j < i ==> !no_worse(#[trigger] sources[j], s)
        },
{
    lemma_first_source(sources, true, true);
    lemma_first_source(sources, false, true);
    lemma_first_source(sources, true, false);
    lemma_first_source(sources, false, false);
    if sources.len() > 0 {
        let last = sources[0];
        if let Some(s) = playback(sources) {
            let local = first_source(sources, true, true) is Some || (first_source(
                sources,
                false,
                true,
            ) is None && first_source(sources, true, false) is Some);
            let live = first_source(sources, false, true) is Some;
            assert(s == first_source(sources, local, live)->0);
            let i = choose|i: int|
                #![trigger sources[i]]
                0 <= i < sources.len() && sources[i] == s && forall|j: int|
                    0 <= j < i ==> (local && (#[trigger] sources[j]).source != Source::LocalFs) || (
                    live && sources[j].stale);
            assert forall|j: int| 0 <= j < sources.len() implies no_worse(s, #[trigger] sources[j]) by {
                assert(sources[j].stale || sources[j].source != Source::LocalFs || first_source(
                    sources,
                    true,
                    true,
                ) is Some);
            }
            assert forall|j: int| 0 <= j < i implies !no_worse(#[trigger] sources[j], s) by {}
        }
    }
}

/// What an item made of a catalog row plays, and is known by: the path of the row's best
/// source, whole, under the row's own identity, sized by the row's length. The guide entry of
/// the row stands over what the block says by default, and the templates are the block's.
pub proof fn a_row_makes_an_item_of_itself(
    e: Entry,
    defaults: Option<ProgramModel>,
    guide: Option<GuideConfig>,
)
    ensures
        entry_item(e, defaults, guide) is None <==> e.sources@.len() == 0,
        entry_item(e, defaults, guide) matches Some(item) ==> {
            &&& item.id == e.entry_id@
            &&& item.in_point is None && item.out_point is None
            &&& item.catalog_duration == slot_length(e.duration_ms)
            &&& !item.error_card
            &&& item.metadata is None
            &&& item.guide == guide
            &&& item.guide_fields == FieldsModel::of(e)
            &&& item.program == merged(Some(entry_program(e)), defaults)
            &&& item.program is Some
            &&& defaults is None ==> item.program == Some(entry_program(e))
            &&& item.source matches SourceModel::Local { path } && exists|i: int|
                #![trigger e.sources@[i]]
                0 <= i < e.sources@.len() && path == e.sources@[i].playback_path@ && forall|j: int|
                    0 <= j < e.sources@.len() ==> no_worse(e.sources@[i], #[trigger] e.sources@[j])
        },
{
    an_entry_plays_from_its_best_source(e.sources@);
}

/// An identity makes an item of its row, and is an error where the catalog has none.
pub proof fn an_identity_makes_an_item_of_its_row(
    catalog: Catalog,
    id: String,
    defaults: Option<ProgramModel>,
    guide: Option<GuideConfig>,
)
    ensures
        match catalog_entry_item(catalog, id, defaults, guide) {
            Ok(Some(item)) => item.id == id@ && catalog.row(id@) is Some,
            Ok(None) => catalog.row(id@) matches Some(e) && e.sources@.len() == 0,
            Err(fault) => catalog.row(id@) is None && fault == (Fault::Vanished { id }),
        },
{
    crate::catalog::lemma_row(catalog.entries@, id@);
    if let Some(e) = catalog.row(id@) {
        a_row_makes_an_item_of_itself(e, defaults, guide);
    }
}

/// What an item's own guide entry says stands, field by field, and what it leaves out is what
/// the block says by default. With one of the two alone, that one is all that is said.
pub proof fn an_items_own_words_stand(p: ProgramModel, d: ProgramModel)
    ensures
        merged(None, None) is None,
        merged(Some(p), None) == Some(p),
        merged(None, Some(d)) == Some(d),
        merged(Some(ProgramModel::blank()), Some(d)) == Some(d),
        merged(Some(p), Some(ProgramModel::blank())) == Some(p),
        merged(Some(p), Some(d)) matches Some(m) && {
            &&& p.title is Some ==> m.title == p.title
            &&& p.title is None ==> m.title == d.title
            &&& p.sub_title is Some ==> m.sub_title == p.sub_title
            &&& p.sub_title is None ==> m.sub_title == d.sub_title
            &&& p.description is Some ==> m.description == p.description
            &&& p.description is None ==> m.description == d.description
            &&& p.season is Some ==> m.season == p.season
            &&& p.season is None ==> m.season == d.season
            &&& p.episode is Some ==> m.episode == p.episode
            &&& p.episode is None ==> m.episode == d.episode
            &&& p.categories is Some ==> m.categories == p.categories
            &&& p.categories is None ==> m.categories == d.categories
            &&& p.content_rating is Some ==> m.content_rating == p.content_rating
            &&& p.content_rating is None ==> m.content_rating == d.content_rating
            &&& p.artwork_url is Some ==> m.artwork_url == p.artwork_url
            &&& p.artwork_url is None ==> m.artwork_url == d.artwork_url
            &&& p.year is Some ==> m.year == p.year
            &&& p.year is None ==> m.year == d.year
            &&& p.credits is Some ==> m.credits == p.credits
            &&& p.credits is None ==> m.credits == d.credits
            &&& p.country is Some ==> m.country == p.country
            &&& p.country is None ==> m.country == d.country
            &&& p.star_rating is Some ==> m.star_rating == p.star_rating
            &&& p.star_rating is None ==> m.star_rating == d.star_rating
        },
{
}

/// Merging the defaults of three levels gives the same whichever two are merged first.
pub proof fn levels_merge_in_any_grouping(
    a: Option<ProgramModel>,
    b: Option<ProgramModel>,
    c: Option<ProgramModel>,
)
    ensures
        merged(merged(a, b), c) == merged(a, merged(b, c)),
{
}

/// The more specific templates stand, field by field, and what they leave out is taken from the
/// broader ones.
pub proof fn specific_templates_stand(own: GuideConfig, broader: GuideConfig)
    ensures
        guide_over(None, None) is None,
        guide_over(Some(own), None) == Some(own),
        guide_over(None, Some(broader)) == Some(broader),
        guide_over(Some(own), Some(broader)) matches Some(g) && {
            &&& own.title is Some ==> g.title == own.title
            &&& own.title is None ==> g.title == broader.title
            &&& own.sub_title is Some ==> g.sub_title == own.sub_title
            &&& own.sub_title is None ==> g.sub_title == broader.sub_title
            &&& own.description is Some ==> g.description == own.description
            &&& own.description is None ==> g.description == broader.description
            &&& own.categories is Some ==> g.categories == own.categories
            &&& own.categories is None ==> g.categories == broader.categories
        },
{
}

/// A guide entry that says nothing has no word in any field.
pub proof fn a_blank_guide_entry_says_nothing()
    ensures
        ProgramModel::blank().title is None,
        ProgramModel::blank().sub_title is None,
        ProgramModel::blank().description is None,
        ProgramModel::blank().season is None,
        ProgramModel::blank().episode is None,
        ProgramModel::blank().categories is None,
        ProgramModel::blank().content_rating is None,
        ProgramModel::blank().artwork_url is None,
        ProgramModel::blank().year is None,
        ProgramModel::blank().credits is None,
        ProgramModel::blank().country is None,
        ProgramModel::blank().star_rating is None,
{
}

/// An authored item plays what its author wrote, between the points that were written, and
/// carries nothing of the catalog but the identity of the same file.
pub proof fn an_authored_item_plays_what_was_written(
    item: ItemEntry,
    defaults: Option<ProgramModel>,
    guide: Option<GuideConfig>,
    roots: Seq<String>,
    index: Option<Seq<(String, String)>>,
)
    ensures
        ({
            let made = authored_item(item, defaults, guide, roots, index);
            &&& made.id == authored_identity(item.source@, roots, index)
            &&& made.source == item.source@
            &&& made.in_point == item.in_point
            &&& made.out_point == item.out_point
            &&& made.catalog_duration is None
            &&& !made.error_card
            &&& made.metadata is None
            &&& made.guide == guide_over(item.guide, guide)
            &&& item.program is None && defaults is None ==> made.program is None
            &&& item.program matches Some(p) ==> made.program == merged(Some(p@), defaults)
            &&& item.program is None ==> made.program == defaults
            &&& made.guide_fields.show is None
            &&& made.guide_fields.genres.len() == 0
            &&& made.guide_fields.cast.len() == 0
        }),
{
}

/// What identities are made of: a picture's of its parameters, a stream's of its address, and a
/// file's of its canonical path, where the index knows that path under no other identity.
pub proof fn an_identity_is_made_of_the_source(
    source: SourceModel,
    roots: Seq<String>,
    index: Option<Seq<(String, String)>>,
)
    ensures
        ({
            let id = authored_identity(source, roots, index);
            match source {
                SourceModel::Lavfi { params } => {
                    &&& id.len() == 6 + params.len()
                    &&& id.take(6) == "lavfi:"@
                    &&& id.skip(6) == params
                },
                SourceModel::Http { uri, .. } => {
                    &&& id.len() == 5 + uri.len()
                    &&& id.take(5) == "http:"@
                    &&& id.skip(5) == uri
                },
                SourceModel::Local { path } => {
                    let name = canonical(path, roots);
                    &&& index is None ==> id == file_identity(name)
                    &&& index matches Some(table) ==> match entry_of(table, name) {
                        Some(known) => id == known@,
                        None => id == file_identity(name),
                    }
                },
            }
        }),
{
    reveal_strlit("lavfi:");
    reveal_strlit("http:");
    let id = authored_identity(source, roots, index);
    match source {
        SourceModel::Lavfi { params } => {
            assert(id.take(6) =~= "lavfi:"@);
            assert(id.skip(6) =~= params);
        },
        SourceModel::Http { uri, .. } => {
            assert(id.take(5) =~= "http:"@);
            assert(id.skip(5) =~= uri);
        },
        _ => {},
    }
}

/// An item as mathematical values is the item: every field stands for itself.
pub proof fn an_item_is_modelled_whole(item: ResolvedItem)
    ensures
        item@.id == item.id@,
        item@.in_point == item.in_point,
        item@.out_point == item.out_point,
        item@.catalog_duration == item.catalog_duration,
        item@.error_card == item.error_card,
        item@.metadata == item.metadata,
        item@.guide == item.guide,
        item@.program is Some <==> item.program is Some,
        item.program matches Some(p) ==> item@.program == Some(p@),
        item.source matches SourceConfig::Local { path } ==> item@.source == (SourceModel::Local {
            path: path@,
        }),
        item.source matches SourceConfig::Lavfi { params } ==> item@.source == (
        SourceModel::Lavfi { params: params@ }),
        item.source matches SourceConfig::Http { uri, headers, user_agent } ==> item@.source == (
        SourceModel::Http { uri: uri@, headers: headers@, user_agent }),
        item@.guide_fields.show == item.guide_fields.show,
        item@.guide_fields.absolute_episode == item.guide_fields.absolute_episode,
        item@.guide_fields.release_date == item.guide_fields.release_date,
        item@.guide_fields.studio == item.guide_fields.studio,
        item@.guide_fields.edition == item.guide_fields.edition,
        item@.guide_fields.library == item.guide_fields.library,
        item@.guide_fields.duration_ms == item.guide_fields.duration_ms,
        item@.guide_fields.cast == item.guide_fields.cast@,
        item@.guide_fields.directors == item.guide_fields.directors@,
        item@.guide_fields.writers == item.guide_fields.writers@,
        item@.guide_fields.countries == item.guide_fields.countries@,
        item@.guide_fields.genres == item.guide_fields.genres@,
        item@.guide_fields.summary == item.guide_fields.summary,
{
}

/// A guide entry as mathematical values is the guide entry: every field stands for itself.
pub proof fn a_guide_entry_is_modelled_whole(p: ProgramMetadata)
    ensures
        p@.title is Some <==> p.title is Some,
        p.title matches Some(s) ==> p@.title == Some(s@),
        p@.sub_title is Some <==> p.sub_title is Some,
        p.sub_title matches Some(s) ==> p@.sub_title == Some(s@),
        p@.description is Some <==> p.description is Some,
        p.description matches Some(s) ==> p@.description == Some(s@),
        p@.season == p.season,
        p@.episode == p.episode,
        p@.categories is Some <==> p.categories is Some,
        p.categories matches Some(s) ==> p@.categories == Some(s@),
        p@.content_rating is Some <==> p.content_rating is Some,
        p.content_rating matches Some(s) ==> p@.content_rating == Some(s@),
        p@.artwork_url is Some <==> p.artwork_url is Some,
        p.artwork_url matches Some(s) ==> p@.artwork_url == Some(s@),
        p@.year == p.year,
        p@.credits is Some <==> p.credits is Some,
        p.credits matches Some(s) ==> p@.credits == Some(s@),
        p@.country is Some <==> p.country is Some,
        p.country matches Some(s) ==> p@.country == Some(s@),
        p@.star_rating is Some <==> p.star_rating is Some,
        p.star_rating matches Some(s) ==> p@.star_rating == Some(s@),
{
}

} // verus!
