//! What holds of taste profiles: what an entry weights, which item it means, and what a script
//! reads of it.

use vstd::prelude::*;

use crate::catalog::{Answer, Catalog, Entry, ExternalNs};
use crate::handed::read;
use crate::profile::{
    checked, checked_all, external_id, external_ns, external_ref, files_entries, found_item,
    four_number, is_meant, item_ref, last_open, meant_ids, named_refs, normal_keyword, profile_map,
    profile_maps, profile_of, reference_fields, referred, title_ref, ItemRefModel, Loaded,
    ProfileEntry, ProfileFile, RefKey, ReferenceModel, Weight,
};
use crate::score::{item_fields, item_maps, Halted};
use crate::script::Script;
use crate::shown::{lemma_field_at, reads_text};
use crate::text::{first_at, lowercase, trimmed};

verus! {

/// What an entry gives under a key.
pub open spec fn under(e: ProfileEntry, key: RefKey) -> Option<String> {
    match key {
        RefKey::Keyword => e.keyword,
        RefKey::Genre => e.genre,
        RefKey::Label => e.label,
        RefKey::Cast => e.cast,
        RefKey::Director => e.director,
        RefKey::Writer => e.writer,
        RefKey::Producer => e.producer,
        RefKey::Country => e.country,
        RefKey::Studio => e.studio,
        RefKey::ContentRating => e.content_rating,
        RefKey::Item => e.item,
        RefKey::Query => e.set,
    }
}

/// How many keys an entry gives something under.
pub open spec fn given_keys(e: ProfileEntry) -> int {
    let one = |given: Option<String>|
        if given is Some {
            1int
        } else {
            0
        };
    one(e.keyword) + one(e.genre) + one(e.label) + one(e.cast) + one(e.director) + one(e.writer)
        + one(e.producer) + one(e.country) + one(e.studio) + one(e.content_rating) + one(e.item)
        + one(e.set)
}

/// An entry names as many references as it gives keys; and one that gives a single key names
/// what it gives under that key.
pub proof fn an_entry_names_what_it_gives(e: ProfileEntry, key: RefKey)
    ensures
        named_refs(e).len() == given_keys(e),
        given_keys(e) == 1 && under(e, key) is Some ==> named_refs(e) == seq![
            (key, under(e, key)->0@),
        ],
{
    if given_keys(e) == 1 && under(e, key) is Some {
        assert(named_refs(e) =~= seq![(key, under(e, key)->0@)]);
    }
}

/// An entry is taken only where it gives a single key and a weight that is finite and not zero;
/// it then weights what it gives, and keeps how that was written.
pub proof fn an_entry_weights_what_it_gives(e: ProfileEntry, key: RefKey)
    requires
        under(e, key) is Some,
    ensures
        checked(e) is Ok <==> {
            &&& given_keys(e) == 1
            &&& trimmed(under(e, key)->0@).len() > 0
            &&& e.weight matches Some(w) && w.finite && !w.zero
            &&& key == RefKey::Item ==> item_ref(under(e, key)->0@) is Ok
        },
        checked(e) matches Ok(got) ==> got.1 == under(e, key)->0@ && Some(got.2) == e.weight && Ok::<
            ReferenceModel,
            Seq<char>,
        >(got.0) == referred(key, under(e, key)->0@),
{
    an_entry_names_what_it_gives(e, key);
}

/// A keyword is weighted as keywords are compared; a tag under the field of its key, in lower
/// case and without space around it; a query as it was written.
pub proof fn a_reference_is_read_by_its_key(key: RefKey, value: Seq<char>)
    ensures
        key == RefKey::Keyword ==> referred(key, value) == Ok::<ReferenceModel, Seq<char>>(
            ReferenceModel::Keyword(normal_keyword(value)),
        ),
        key == RefKey::Query ==> referred(key, value) == Ok::<ReferenceModel, Seq<char>>(
            ReferenceModel::Query(value),
        ),
        key == RefKey::Item ==> (referred(key, value) matches Ok(r) ==> r is Item && Ok::<
            ItemRefModel,
            Seq<char>,
        >(r->Item_0) == item_ref(value)),
        key != RefKey::Keyword && key != RefKey::Query && key != RefKey::Item ==> referred(
            key,
            value,
        ) == Ok::<ReferenceModel, Seq<char>>(
            ReferenceModel::Tag { namespace: key.field_text(), value: lowercase(trimmed(value)) },
        ),
{
}

/// The three namespaces of external identities are known by their names, and by no other.
pub proof fn an_external_namespace_is_known_by_its_name(ns: ExternalNs, name: Seq<char>)
    ensures
        external_ns(name) == Some(ns) <==> name == ns.text(),
        ExternalNs::Imdb.text() == "imdb"@,
        ExternalNs::Tmdb.text() == "tmdb"@,
        ExternalNs::Tvdb.text() == "tvdb"@,
{
    lemma_namespaces();
}

proof fn lemma_namespaces()
    ensures
        "imdb"@ == seq!['i', 'm', 'd', 'b'],
        "tmdb"@ == seq!['t', 'm', 'd', 'b'],
        "tvdb"@ == seq!['t', 'v', 'd', 'b'],
        "imdb"@ != "tmdb"@,
        "imdb"@ != "tvdb"@,
        "tmdb"@ != "tvdb"@,
{
    reveal_strlit("imdb");
    reveal_strlit("tmdb");
    reveal_strlit("tvdb");
    assert("imdb"@ =~= seq!['i', 'm', 'd', 'b']);
    assert("tmdb"@ =~= seq!['t', 'm', 'd', 'b']);
    assert("tvdb"@ =~= seq!['t', 'v', 'd', 'b']);
    assert("imdb"@[0] != "tmdb"@[0]);
    assert("imdb"@[0] != "tvdb"@[0]);
    assert("tmdb"@[1] != "tvdb"@[1]);
}

/// An external identity that is written out is read back: its namespace as it is, and its value
/// without the space around it. One without a value is none.
pub proof fn an_external_identity_is_read_back(ns: ExternalNs, value: Seq<char>)
    ensures
        trimmed(value).len() > 0 ==> external_ref(external_id(ns, value)) == Some(
            ItemRefModel::External { ns, value: trimmed(value) },
        ),
        trimmed(value).len() == 0 ==> external_ref(external_id(ns, value)) is None,
{
    lemma_namespaces();
    reveal_strlit(":");
    let s = external_id(ns, value);
    assert(s[4] == ':');
    assert(first_at(s, ':') == 4) by {
        reveal_with_fuel(first_at, 6);
        assert(s[0] != ':' && s[1] != ':' && s[2] != ':' && s[3] != ':');
        assert(s.skip(1)[0] == s[1]);
        assert(s.skip(1).skip(1)[0] == s[2]);
        assert(s.skip(1).skip(1).skip(1)[0] == s[3]);
        assert(s.skip(1).skip(1).skip(1).skip(1)[0] == s[4]);
    }
    assert(s.take(4) =~= ns.text());
    assert(s.skip(5) =~= value);
}

/// What an entry names is read without the space around it: as an external identity where it is
/// one, else as a title and a year where it is that, and else it is refused.
pub proof fn an_item_is_read_by_identity_and_then_by_title(raw: Seq<char>)
    ensures
        external_ref(trimmed(raw)) matches Some(item) ==> item_ref(raw) == Ok::<
            ItemRefModel,
            Seq<char>,
        >(item),
        external_ref(trimmed(raw)) is None && title_ref(trimmed(raw)) is Some ==> item_ref(raw)
            == Ok::<ItemRefModel, Seq<char>>(title_ref(trimmed(raw))->0),
        external_ref(trimmed(raw)) is None && title_ref(trimmed(raw)) is None ==> item_ref(
            raw,
        ) is Err,
{
}

/// A number of four digits is read as it is counted.
pub proof fn a_year_is_read_by_its_digits(s: Seq<char>)
    requires
        s.len() == 4,
        forall|i: int| 0 <= i < 4 ==> '0' <= #[trigger] s[i] <= '9',
    ensures
        four_number(s) == Some(
            (s[0] as int - 48) * 1000 + (s[1] as int - 48) * 100 + (s[2] as int - 48) * 10 + (
            s[3] as int - 48),
        ),
{
    assert('0' <= s[0] <= '9');
    assert('0' <= s[1] <= '9');
    assert('0' <= s[2] <= '9');
    assert('0' <= s[3] <= '9');
}

/// A number of a sign and three digits is read as it is counted, and nothing else than four
/// characters is.
pub proof fn a_signed_year_is_read_by_its_digits(s: Seq<char>)
    ensures
        s.len() != 4 ==> four_number(s) is None,
        s.len() == 4 && s[0] == '-' && (forall|i: int| 1 <= i < 4 ==> '0' <= #[trigger] s[i] <= '9')
            ==> four_number(s) == Some(
            -((s[1] as int - 48) * 100 + (s[2] as int - 48) * 10 + (s[3] as int - 48)),
        ),
        s.len() == 4 && s[0] == '+' && (forall|i: int| 1 <= i < 4 ==> '0' <= #[trigger] s[i] <= '9')
            ==> four_number(s) == Some(
            (s[1] as int - 48) * 100 + (s[2] as int - 48) * 10 + (s[3] as int - 48),
        ),
        s.len() == 4 && !('0' <= s[3] <= '9') ==> four_number(s) is None,
{
}

/// A title and a year that are written out are read back, the title without the space around it.
pub proof fn a_title_and_a_year_are_read_back(title: Seq<char>, digits: Seq<char>)
    requires
        trimmed(title).len() > 0,
        digits.len() == 4,
        forall|i: int| 0 <= i < 4 ==> '0' <= #[trigger] digits[i] <= '9',
    ensures
        title_ref(title + " ("@ + digits + ")"@) == Some(
            ItemRefModel::TitleYear {
                title: trimmed(title),
                year: (digits[0] as int - 48) * 1000 + (digits[1] as int - 48) * 100 + (
                digits[2] as int - 48) * 10 + (digits[3] as int - 48),
            },
        ),
{
    reveal_strlit(" (");
    reveal_strlit(")");
    a_year_is_read_by_its_digits(digits);
    let n = title.len() as int;
    let s = title + " ("@ + digits + ")"@;
    let body = s.drop_last();
    assert('0' <= digits[0] <= '9' && '0' <= digits[1] <= '9' && '0' <= digits[2] <= '9' && '0'
        <= digits[3] <= '9');
    assert(body.len() == n + 6);
    assert(body[n] == ' ' && body[n + 1] == '(');
    assert(body[n + 2] == digits[0] && body[n + 3] == digits[1] && body[n + 4] == digits[2]
        && body[n + 5] == digits[3]);
    let b1 = body.drop_last();
    let b2 = b1.drop_last();
    let b3 = b2.drop_last();
    let b4 = b3.drop_last();
    assert(last_open(b4) == Some(n));
    assert(last_open(b3) == last_open(b4));
    assert(last_open(b2) == last_open(b3));
    assert(last_open(b1) == last_open(b2));
    assert(last_open(body) == last_open(b1));
    assert(body.skip(n + 2) =~= digits);
    assert(body.take(n) =~= title);
    assert(s.last() == ')');
}

/// How many rows of a catalog an entry means.
pub open spec fn count_meant(entries: Seq<Entry>, item: ItemRefModel) -> int
    decreases entries.len(),
{
    if entries.len() == 0 {
        0
    } else {
        count_meant(entries.drop_last(), item) + match item {
            ItemRefModel::External { ns, value } => if exists|i: int|
                0 <= i < entries.last().external@.len() && (
                #[trigger] entries.last().external@[i]).0 == ns
                    && entries.last().external@[i].1@ == value {
                1int
            } else {
                0
            },
            ItemRefModel::TitleYear { title, year } => if entries.last().title@ == title
                && entries.last().year is Some && entries.last().year->0 == year {
                1int
            } else {
                0
            },
        }
    }
}

/// Whether some row that an entry means has that identity.
pub open spec fn means(entries: Seq<Entry>, item: ItemRefModel, id: Seq<char>) -> bool {
    exists|i: int|
        0 <= i < entries.len() && #[trigger] is_meant(entries[i], item) && entries[i].entry_id@
            == id
}

proof fn lemma_meant_ids(entries: Seq<Entry>, item: ItemRefModel)
    ensures
        meant_ids(entries, item).len() == count_meant(entries, item),
        forall|k: int|
            0 <= k < meant_ids(entries, item).len() ==> means(
                entries,
                item,
                (#[trigger] meant_ids(entries, item)[k])@,
            ),
    decreases entries.len(),
{
    if entries.len() > 0 {
        let fewer = entries.drop_last();
        lemma_meant_ids(fewer, item);
        let ids = meant_ids(entries, item);
        let before = meant_ids(fewer, item);
        assert forall|k: int| 0 <= k < ids.len() implies means(
            entries,
            item,
            (#[trigger] ids[k])@,
        ) by {
            if k < before.len() {
                assert(ids[k] == before[k]);
                let i = choose|i: int|
                    0 <= i < fewer.len() && #[trigger] is_meant(fewer[i], item)
                        && fewer[i].entry_id@ == before[k]@;
                assert(is_meant(entries[i], item));
            } else {
                assert(is_meant(entries[entries.len() - 1], item));
            }
        }
    }
}

/// An entry that names an item by an external identity means the row of that identity, where
/// there is one. Else, and by title and year always, it means the one row that carries the
/// identity, or has the title and the year; and where several do, or none, it means nothing.
pub proof fn an_entry_means_one_row(catalog: Catalog, item: ItemRefModel)
    ensures
        (item matches ItemRefModel::External { ns, value } && catalog.row(
            external_id(ns, value),
        ) is Some) ==> found_item(catalog, item) == Ok::<Seq<char>, Seq<char>>(
            external_id(item->ns, item->value),
        ),
        !(item matches ItemRefModel::External { ns, value } && catalog.row(
            external_id(ns, value),
        ) is Some) ==> {
            &&& found_item(catalog, item) is Ok <==> count_meant(catalog.entries@, item) == 1
            &&& found_item(catalog, item) matches Ok(id) ==> means(catalog.entries@, item, id)
        },
{
    lemma_meant_ids(catalog.entries@, item);
    let ids = meant_ids(catalog.entries@, item);
    if ids.len() == 1 {
        assert(ids[0] == ids[0]);
    }
}

/// A script reads of every entry its weight, how it was written and where it stands.
pub proof fn a_script_reads_where_an_entry_comes_from(catalog: Catalog, e: Loaded)
    requires
        profile_map(catalog, e) is Ok,
    ensures
        ({
            let map = profile_map(catalog, e)->Ok_0;
            &&& read(map, "weight"@) == Some(Script::Float(e.weight.text@, e.weight.finite))
            &&& reads_text(read(map, "reference"@), e.written)
            &&& reads_text(read(map, "origin"@), e.origin)
        }),
{
    lemma_profile_words();
    let table = profile_map(catalog, e)->Ok_0->Table_0;
    let n = reference_fields(catalog, e)->Ok_0.len() as int;
    assert(table[n].0 == "weight"@);
    assert(table[n + 1].0 == "reference"@);
    assert(table[n + 2].0 == "origin"@);
    assert forall|i: int| 0 <= i < n implies (#[trigger] table[i]).0 != "weight"@ && table[i].0
        != "reference"@ && table[i].0 != "origin"@ by {
        assert(table[i] == reference_fields(catalog, e)->Ok_0[i]);
    }
    lemma_field_at(table, n);
    lemma_field_at(table, n + 1);
    lemma_field_at(table, n + 2);
}

proof fn lemma_profile_words()
    ensures
        "kind"@.len() == 4,
        "namespace"@.len() == 9,
        "value"@.len() == 5,
        "items"@.len() == 5,
        "weight"@.len() == 6,
        "reference"@.len() == 9,
        "origin"@.len() == 6,
        "namespace"@[0] == 'n',
        "reference"@[0] == 'r',
        "weight"@[0] == 'w',
        "origin"@[0] == 'o',
        "value"@[0] == 'v',
        "items"@[0] == 'i',
{
    reveal_strlit("kind");
    reveal_strlit("namespace");
    reveal_strlit("value");
    reveal_strlit("items");
    reveal_strlit("weight");
    reveal_strlit("reference");
    reveal_strlit("origin");
}

/// A script reads of an entry what it weights: a keyword or a tag by its namespace and its value,
/// an item as the row that is meant, and a query as the rows that answer it.
pub proof fn a_script_reads_what_an_entry_weights(catalog: Catalog, e: Loaded)
    requires
        profile_map(catalog, e) is Ok,
    ensures
        ({
            let map = profile_map(catalog, e)->Ok_0;
            match e.reference {
                ReferenceModel::Keyword(word) => {
                    &&& reads_text(read(map, "kind"@), "keyword"@)
                    &&& reads_text(read(map, "namespace"@), RefKey::Keyword.field_text())
                    &&& reads_text(read(map, "value"@), word)
                },
                ReferenceModel::Tag { namespace, value } => {
                    &&& reads_text(read(map, "kind"@), "tag"@)
                    &&& reads_text(read(map, "namespace"@), namespace)
                    &&& reads_text(read(map, "value"@), value)
                },
                ReferenceModel::Item(item) => {
                    &&& reads_text(read(map, "kind"@), "item"@)
                    &&& found_item(catalog, item) matches Ok(id)
                    &&& catalog.row(id) matches Some(row)
                    &&& read(map, "items"@) == Some(
                        Script::List(seq![Script::Table(item_fields(row))]),
                    )
                },
                ReferenceModel::Query(query) => {
                    &&& reads_text(read(map, "kind"@), "set"@)
                    &&& catalog.query_answer(query) matches Answer::Items(ids)
                    &&& ids.len() > 0
                    &&& item_maps(catalog, ids) matches Ok(maps)
                    &&& read(map, "items"@) == Some(Script::List(maps))
                },
            }
        }),
{
    lemma_profile_words();
    let table = profile_map(catalog, e)->Ok_0->Table_0;
    let list = reference_fields(catalog, e)->Ok_0;
    assert(forall|i: int| 0 <= i < list.len() ==> table[i] == list[i]);
    lemma_field_at(table, 0);
    lemma_field_at(table, 1);
    if e.reference is Keyword || e.reference is Tag {
        lemma_field_at(table, 2);
    }
}

/// The entries of a list are loaded one for one, in their order, each with its place in the list,
/// counted from one, and with where the list comes from.
#[verifier::spinoff_prover]
#[verifier::rlimit(80)]
pub proof fn entries_are_loaded_in_order(entries: Seq<ProfileEntry>, origin: Seq<char>)
    ensures
        checked_all(entries, origin) is Ok <==> forall|i: int|
            0 <= i < entries.len() ==> checked(#[trigger] entries[i]) is Ok,
        checked_all(entries, origin) matches Ok(list) ==> list.len() == entries.len() && forall|
            i: int,
        |
            #![trigger list[i]]
            0 <= i < list.len() ==> {
                &&& checked(entries[i]) == Ok::<(ReferenceModel, Seq<char>, Weight), Seq<char>>(
                    (list[i].reference, list[i].written, list[i].weight),
                )
                &&& list[i].position == i + 1
                &&& list[i].origin == origin
            },
    decreases entries.len(),
{
    if entries.len() > 0 {
        let fewer = entries.drop_last();
        entries_are_loaded_in_order(fewer, origin);
        assert(entries[entries.len() - 1] == entries.last());
        if forall|i: int| 0 <= i < entries.len() ==> checked(#[trigger] entries[i]) is Ok {
            assert forall|i: int| 0 <= i < fewer.len() implies checked(
                #[trigger] fewer[i],
            ) is Ok by {
                assert(fewer[i] == entries[i]);
            }
        }
        if let Ok(list) = checked_all(entries, origin) {
            let before = checked_all(fewer, origin)->Ok_0;
            assert forall|i: int| 0 <= i < entries.len() implies checked(
                #[trigger] entries[i],
            ) is Ok by {
                if i < fewer.len() {
                    assert(fewer[i] == entries[i]);
                }
            }
            assert forall|i: int| 0 <= i < list.len() implies {
                &&& checked(entries[i]) == Ok::<(ReferenceModel, Seq<char>, Weight), Seq<char>>(
                    (
                        (#[trigger] list[i]).reference,
                        list[i].written,
                        list[i].weight,
                    ),
                )
                &&& list[i].position == i + 1
                &&& list[i].origin == origin
            } by {
                if i < before.len() {
                    assert(list[i] == before[i]);
                    assert(fewer[i] == entries[i]);
                }
            }
        }
    }
}

/// A profile holds the entries of its files, file after file, and after them those that stand in
/// the channel itself.
pub proof fn a_profile_holds_its_files_and_then_its_own(
    files: Seq<ProfileFile>,
    inline: Seq<ProfileEntry>,
)
    ensures
        profile_of(files, inline) matches Ok(list) ==> {
            &&& files_entries(files) is Ok
            &&& checked_all(inline, "inline"@) is Ok
            &&& list == files_entries(files)->Ok_0 + checked_all(inline, "inline"@)->Ok_0
        },
        profile_of(files, inline) is Ok <==> files_entries(files) is Ok && checked_all(
            inline,
            "inline"@,
        ) is Ok,
{
}

/// The entries of a profile are shown one for one, in their order.
pub proof fn entries_are_shown_in_order(catalog: Catalog, entries: Seq<Loaded>)
    ensures
        profile_maps(catalog, entries) matches Ok(maps) ==> maps.len() == entries.len() && forall|
            i: int,
        |
            #![trigger maps[i]]
            0 <= i < maps.len() ==> profile_map(catalog, entries[i]) == Ok::<Script, Halted>(
                maps[i],
            ),
    decreases entries.len(),
{
    if entries.len() > 0 {
        entries_are_shown_in_order(catalog, entries.drop_last());
    }
}

} // verus!
