//! What scripts are shown, told by the names they read it under.

use vstd::prelude::*;

use crate::catalog::{Catalog, Entry, TagNs};
use crate::pool::field_ns;
use crate::profile::RefKey;
use crate::score::{event_map, history_list, item_fields, item_maps, WatchEvent};
use crate::script::{field_of, Script};

verus! {

/// Whether a script reads these texts, one after the other, and nothing else.
pub open spec fn reads_texts(read: Option<Script>, names: Seq<String>) -> bool {
    read matches Some(Script::List(list)) && list.len() == names.len() && forall|i: int|
        0 <= i < names.len() ==> #[trigger] list[i] == Script::Text(names[i]@)
}

/// Whether a script reads this text.
pub open spec fn reads_text(read: Option<Script>, text: Seq<char>) -> bool {
    read matches Some(Script::Text(got)) && got == text
}

/// Whether a script reads this text, or unit where there is none.
pub open spec fn reads_option(read: Option<Script>, text: Option<String>) -> bool {
    match text {
        Some(t) => reads_text(read, t@),
        None => read == Some(Script::Unit),
    }
}

/// Whether a script reads this number.
pub open spec fn reads_number(read: Option<Script>, n: int) -> bool {
    read matches Some(Script::Int(got)) && got == n
}

/// Whether a script reads this number, or unit where there is none.
pub open spec fn reads_count(read: Option<Script>, n: Option<i64>) -> bool {
    match n {
        Some(v) => reads_number(read, v as int),
        None => read == Some(Script::Unit),
    }
}

/// A field is read under the first place that its name stands at.
pub proof fn lemma_field_at(table: Seq<(Seq<char>, Script)>, i: int)
    requires
        0 <= i < table.len(),
        forall|j: int| 0 <= j < i ==> (#[trigger] table[j]).0 != table[i].0,
    ensures
        field_of(table, table[i].0) == Some(table[i].1),
    decreases i,
{
    if i > 0 {
        assert(table[0].0 != table[i].0);
        let rest = table.drop_first();
        assert forall|j: int| 0 <= j < i - 1 implies (#[trigger] rest[j]).0 != rest[i - 1].0 by {
            assert(rest[j] == table[j + 1]);
        }
        lemma_field_at(rest, i - 1);
    }
}

/// Words of different lengths, or that begin differently, are different.
pub proof fn lemma_apart(a: Seq<char>, b: Seq<char>)
    requires
        a.len() != b.len() || (a.len() > 0 && a[0] != b[0]) || (a.len() > 1 && a[1] != b[1]),
    ensures
        a != b,
{
}

proof fn lemma_columns_apart(e: Entry)
    ensures
        item_fields(e).len() == 23,
        forall|i: int, j: int|
            0 <= i < j < 23 ==> (#[trigger] item_fields(e)[i]).0 != (#[trigger] item_fields(e)[j]).0,
{
    reveal_strlit("entry_id");
    reveal_strlit("type");
    reveal_strlit("title");
    reveal_strlit("title_sort");
    reveal_strlit("show");
    reveal_strlit("show_id");
    reveal_strlit("season");
    reveal_strlit("episode");
    reveal_strlit("absolute_episode");
    reveal_strlit("edition");
    reveal_strlit("studio");
    reveal_strlit("year");
    reveal_strlit("release_date");
    reveal_strlit("duration_ms");
    reveal_strlit("content_rating");
    reveal_strlit("library");
    reveal_strlit("genres");
    reveal_strlit("labels");
    reveal_strlit("cast");
    reveal_strlit("directors");
    reveal_strlit("writers");
    reveal_strlit("producers");
    reveal_strlit("countries");
    let table = item_fields(e);
    assert forall|i: int, j: int| 0 <= i < j < 23 implies (#[trigger] table[i]).0 != (
    #[trigger] table[j]).0 by {
        let a = table[i].0;
        let b = table[j].0;
        assert(a.len() != b.len() || a[0] != b[0] || a[1] != b[1]);
    }
}

/// A script reads every column of a catalog row under the column's own name: a text as a text,
/// a number as a number, and what the row does not say as unit.
pub proof fn a_script_reads_every_column(e: Entry)
    ensures
        reads_text(field_of(item_fields(e), "entry_id"@), e.entry_id@),
        reads_text(field_of(item_fields(e), "type"@), e.kind@),
        reads_text(field_of(item_fields(e), "title"@), e.title@),
        reads_option(field_of(item_fields(e), "title_sort"@), e.title_sort),
        reads_option(field_of(item_fields(e), "show"@), e.show),
        reads_option(field_of(item_fields(e), "show_id"@), e.show_id),
        reads_count(field_of(item_fields(e), "season"@), e.season),
        reads_count(field_of(item_fields(e), "episode"@), e.episode),
        reads_count(field_of(item_fields(e), "absolute_episode"@), e.absolute_episode),
        reads_option(field_of(item_fields(e), "edition"@), e.edition),
        reads_option(field_of(item_fields(e), "studio"@), e.studio),
        reads_count(field_of(item_fields(e), "year"@), e.year),
        reads_option(field_of(item_fields(e), "release_date"@), e.release_date),
        reads_count(field_of(item_fields(e), "duration_ms"@), e.duration_ms),
        reads_option(field_of(item_fields(e), "content_rating"@), e.content_rating),
        reads_option(field_of(item_fields(e), "library"@), e.library),
{
    lemma_columns_apart(e);
    let table = item_fields(e);
    lemma_field_at(table, 0);
    lemma_field_at(table, 1);
    lemma_field_at(table, 2);
    lemma_field_at(table, 3);
    lemma_field_at(table, 4);
    lemma_field_at(table, 5);
    lemma_field_at(table, 6);
    lemma_field_at(table, 7);
    lemma_field_at(table, 8);
    lemma_field_at(table, 9);
    lemma_field_at(table, 10);
    lemma_field_at(table, 11);
    lemma_field_at(table, 12);
    lemma_field_at(table, 13);
    lemma_field_at(table, 14);
    lemma_field_at(table, 15);
}

/// A script reads the tags of a catalog row under the word for their kind, all of them and in
/// their order.
pub proof fn a_script_reads_every_tag(e: Entry)
    ensures
        reads_texts(field_of(item_fields(e), "genres"@), e.tags.genres@),
        reads_texts(field_of(item_fields(e), "labels"@), e.tags.labels@),
        reads_texts(field_of(item_fields(e), "cast"@), e.tags.cast@),
        reads_texts(field_of(item_fields(e), "directors"@), e.tags.directors@),
        reads_texts(field_of(item_fields(e), "writers"@), e.tags.writers@),
        reads_texts(field_of(item_fields(e), "producers"@), e.tags.producers@),
        reads_texts(field_of(item_fields(e), "countries"@), e.tags.countries@),
{
    lemma_columns_apart(e);
    let table = item_fields(e);
    lemma_field_at(table, 16);
    lemma_field_at(table, 17);
    lemma_field_at(table, 18);
    lemma_field_at(table, 19);
    lemma_field_at(table, 20);
    lemma_field_at(table, 21);
    lemma_field_at(table, 22);
}

/// A word names one kind of tag everywhere: what `separate_by` compares under a word is what a
/// script reads under it, and what the catalog holds for the item in that kind.
pub proof fn a_word_names_one_kind_of_tag(catalog: Catalog, e: Entry, word: Seq<char>)
    ensures
        field_ns(word) matches Some(ns) ==> reads_texts(
            field_of(item_fields(e), word),
            e.tags.values(ns),
        ),
        field_ns(word) matches Some(ns) ==> (catalog.row(e.entry_id@) == Some(e) ==> catalog.tags(
            e.entry_id@,
            ns,
        ) == e.tags.values(ns)),
{
    a_script_reads_every_tag(e);
}

/// The words of the seven kinds of tags are known to `separate_by`, each for a kind of its own.
pub proof fn every_kind_of_tag_has_its_word()
    ensures
        field_ns("genres"@) == Some(TagNs::Genre),
        field_ns("labels"@) == Some(TagNs::Label),
        field_ns("cast"@) == Some(TagNs::Cast),
        field_ns("directors"@) == Some(TagNs::Director),
        field_ns("writers"@) == Some(TagNs::Writer),
        field_ns("producers"@) == Some(TagNs::Producer),
        field_ns("countries"@) == Some(TagNs::Country),
        forall|a: Seq<char>, b: Seq<char>|
            #![trigger field_ns(a), field_ns(b)]
            field_ns(a) is Some && field_ns(a) == field_ns(b) ==> a == b,
{
    reveal_strlit("genres");
    reveal_strlit("labels");
    reveal_strlit("cast");
    reveal_strlit("directors");
    reveal_strlit("writers");
    reveal_strlit("producers");
    reveal_strlit("countries");
    lemma_apart("labels"@, "genres"@);
    lemma_apart("cast"@, "genres"@);
    lemma_apart("cast"@, "labels"@);
    lemma_apart("directors"@, "genres"@);
    lemma_apart("directors"@, "labels"@);
    lemma_apart("directors"@, "cast"@);
    lemma_apart("writers"@, "genres"@);
    lemma_apart("writers"@, "labels"@);
    lemma_apart("writers"@, "cast"@);
    lemma_apart("writers"@, "directors"@);
    lemma_apart("producers"@, "genres"@);
    lemma_apart("producers"@, "labels"@);
    lemma_apart("producers"@, "cast"@);
    lemma_apart("producers"@, "directors"@);
    lemma_apart("producers"@, "writers"@);
    lemma_apart("countries"@, "genres"@);
    lemma_apart("countries"@, "labels"@);
    lemma_apart("countries"@, "cast"@);
    lemma_apart("countries"@, "directors"@);
    lemma_apart("countries"@, "writers"@);
    lemma_apart("countries"@, "producers"@);
}

/// Whether a key of a profile entry names a kind of tag, a studio or a rating.
pub open spec fn is_tag_key(key: RefKey) -> bool {
    match key {
        RefKey::Keyword | RefKey::Item | RefKey::Query => false,
        _ => true,
    }
}

/// Under the namespace of a profile entry's tag, a script finds in every item what the item has
/// of that tag: the weight of a genre is looked up among genres, that of a studio at the
/// studio, and so on.
pub proof fn a_profile_tag_is_looked_up_where_items_show_it(e: Entry)
    ensures
        reads_texts(field_of(item_fields(e), RefKey::Genre.field_text()), e.tags.genres@),
        reads_texts(field_of(item_fields(e), RefKey::Label.field_text()), e.tags.labels@),
        reads_texts(field_of(item_fields(e), RefKey::Cast.field_text()), e.tags.cast@),
        reads_texts(field_of(item_fields(e), RefKey::Director.field_text()), e.tags.directors@),
        reads_texts(field_of(item_fields(e), RefKey::Writer.field_text()), e.tags.writers@),
        reads_texts(field_of(item_fields(e), RefKey::Producer.field_text()), e.tags.producers@),
        reads_texts(field_of(item_fields(e), RefKey::Country.field_text()), e.tags.countries@),
        reads_option(field_of(item_fields(e), RefKey::Studio.field_text()), e.studio),
        reads_option(field_of(item_fields(e), RefKey::ContentRating.field_text()), e.content_rating),
{
    a_script_reads_every_tag(e);
    a_script_reads_every_column(e);
}

/// Keys of a profile entry that differ name different fields of an item, and none of them the
/// one that keywords stand in.
pub proof fn profile_tags_are_told_apart(a: RefKey, b: RefKey)
    requires
        is_tag_key(a),
        is_tag_key(b),
    ensures
        a.field_text() == b.field_text() ==> a == b,
        a.field_text() != "keywords"@,
        RefKey::Keyword.field_text() == "keywords"@,
{
    reveal_strlit("genres");
    reveal_strlit("labels");
    reveal_strlit("cast");
    reveal_strlit("directors");
    reveal_strlit("writers");
    reveal_strlit("producers");
    reveal_strlit("countries");
    reveal_strlit("studio");
    reveal_strlit("content_rating");
    reveal_strlit("keywords");
    let x = a.field_text();
    let y = b.field_text();
    if a != b {
        assert(x.len() != y.len() || x[0] != y[0] || x[1] != y[1]);
    }
    assert(x.len() != 8 || x[0] != 'k');
}

/// A script is shown one item for each identity, in their order: the row of that identity.
pub proof fn items_are_shown_in_order(catalog: Catalog, ids: Seq<String>)
    ensures
        item_maps(catalog, ids) matches Ok(maps) ==> {
            &&& maps.len() == ids.len()
            &&& forall|i: int|
                0 <= i < ids.len() ==> match #[trigger] maps[i] {
                    Script::Table(table) => catalog.row(ids[i]@) matches Some(e) && reads_text(
                        field_of(table, "entry_id"@),
                        e.entry_id@,
                    ) && table == item_fields(e),
                    _ => false,
                }
        },
        item_maps(catalog, ids) is Err <==> exists|i: int|
            0 <= i < ids.len() && catalog.row((#[trigger] ids[i])@) is None,
    decreases ids.len(),
{
    if ids.len() > 0 {
        let fewer = ids.drop_last();
        items_are_shown_in_order(catalog, fewer);
        if let Some(e) = catalog.row(ids.last()@) {
            a_script_reads_every_column(e);
        }
        if item_maps(catalog, fewer) is Err {
            let i = choose|i: int| 0 <= i < fewer.len() && catalog.row((#[trigger] fewer[i])@) is None;
            assert(ids[i] == fewer[i]);
        } else if catalog.row(ids.last()@) is None {
            assert(ids[ids.len() - 1] == ids.last());
        } else {
            assert forall|i: int| 0 <= i < ids.len() implies catalog.row((#[trigger] ids[i])@) is Some by {
                if i < fewer.len() {
                    assert(fewer[i] == ids[i]);
                }
            }
        }
    }
}

/// A script reads of a watch event which item was watched, when, and by whom; nobody is the
/// empty text. Events are shown in their order.
pub proof fn a_script_reads_watch_events(events: Seq<WatchEvent>)
    ensures
        history_list(events) matches Script::List(list) && list.len() == events.len() && forall|
            i: int,
        |
            0 <= i < events.len() ==> match #[trigger] list[i] {
                Script::Table(table) => {
                    &&& table.len() == 3
                    &&& reads_text(field_of(table, "entry_id"@), events[i].entry_id@)
                    &&& reads_number(field_of(table, "watched_at"@), events[i].watched_at as int)
                    &&& match events[i].watcher {
                        Some(name) => reads_text(field_of(table, "watcher"@), name@),
                        None => reads_text(field_of(table, "watcher"@), Seq::empty()),
                    }
                },
                _ => false,
            },
{
    reveal_strlit("entry_id");
    reveal_strlit("watched_at");
    reveal_strlit("watcher");
    reveal_strlit("");
    let list = history_list(events)->List_0;
    assert forall|i: int| 0 <= i < events.len() implies match #[trigger] list[i] {
        Script::Table(table) => {
            &&& table.len() == 3
            &&& reads_text(field_of(table, "entry_id"@), events[i].entry_id@)
            &&& reads_number(field_of(table, "watched_at"@), events[i].watched_at as int)
            &&& match events[i].watcher {
                Some(name) => reads_text(field_of(table, "watcher"@), name@),
                None => reads_text(field_of(table, "watcher"@), Seq::empty()),
            }
        },
        _ => false,
    } by {
        assert(list[i] == event_map(events[i]));
        let table = list[i]->Table_0;
        assert(""@ =~= Seq::<char>::empty());
        lemma_apart(table[0].0, table[1].0);
        lemma_apart(table[0].0, table[2].0);
        lemma_apart(table[1].0, table[2].0);
        lemma_field_at(table, 0);
        lemma_field_at(table, 1);
        lemma_field_at(table, 2);
    }
}

} // verus!
