use etv_station::catalog::{
    Catalog, Entry, EntrySource, ExternalNs, Reply, Source, Tags,
};
use etv_station::profile::{
    check, check_exclude_keywords, load, normalize_keyword, parse_item, resolve, resolve_item,
    ItemRef, LoadedEntry, ProfileEntry, ProfileFile, ProfileRead, Reference, Weight,
};
use etv_station::score::Halt;
use etv_station::script::{find_field, ScriptValue};
use etv_station::text::{squeeze, trim};

fn blank() -> ProfileEntry {
    ProfileEntry {
        keyword: None,
        genre: None,
        label: None,
        cast: None,
        director: None,
        writer: None,
        producer: None,
        country: None,
        studio: None,
        content_rating: None,
        item: None,
        set: None,
        weight: None,
    }
}

fn weight(w: f64) -> Option<Weight> {
    Some(Weight { text: w.to_string(), finite: w.is_finite(), zero: w == 0.0 })
}

fn keyword(word: &str, w: Option<Weight>) -> ProfileEntry {
    ProfileEntry { keyword: Some(word.into()), weight: w, ..blank() }
}

fn item(text: &str) -> ProfileEntry {
    ProfileEntry { item: Some(text.into()), weight: weight(-1.0), ..blank() }
}

fn no_tags() -> Tags {
    Tags {
        genres: vec![],
        labels: vec![],
        cast: vec![],
        directors: vec![],
        writers: vec![],
        producers: vec![],
        countries: vec![],
    }
}

fn entry(id: &str, title: &str, year: i64) -> Entry {
    Entry {
        entry_id: id.into(),
        kind: "movie".into(),
        title: title.into(),
        title_sort: None,
        show: None,
        show_id: None,
        season: None,
        episode: None,
        absolute_episode: None,
        edition: None,
        studio: None,
        year: Some(year),
        release_date: None,
        duration_ms: None,
        content_rating: None,
        library: None,
        summary: None,
        artwork_cache_path: None,
        missing: false,
        external: vec![],
        tags: no_tags(),
        sources: vec![EntrySource {
            source: Source::Plex,
            source_id: id.into(),
            playback_path: format!("/media/{id}.mkv"),
            stale: false,
        }],
    }
}

fn catalog(entries: Vec<Entry>) -> Catalog {
    Catalog { entries, collections: vec![], episodes: vec![], queries: vec![], orders: vec![] }
}

fn field_text(value: &ScriptValue, name: &str) -> String {
    let ScriptValue::Table(table) = value else { panic!("a table") };
    match find_field(table, name) {
        Some(ScriptValue::Text(text)) => text.clone(),
        other => panic!("no text under {name}: {other:?}"),
    }
}

fn field_len(value: &ScriptValue, name: &str) -> usize {
    let ScriptValue::Table(table) = value else { panic!("a table") };
    match find_field(table, name) {
        Some(ScriptValue::List(list)) => list.len(),
        other => panic!("no list under {name}: {other:?}"),
    }
}

#[test]
fn a_keyword_entry_normalizes_its_value() {
    let (r, _, _) = check(&keyword("  Bank   Heist ", weight(2.0))).unwrap();
    assert_eq!(r, Reference::Keyword("bank heist".into()));
}

#[test]
fn a_tag_entry_names_the_item_map_key() {
    let authored =
        ProfileEntry { director: Some("Michael Mann".into()), weight: weight(1.0), ..blank() };
    let (r, _, _) = check(&authored).unwrap();
    assert_eq!(r, Reference::Tag { namespace: "directors", value: "michael mann".into() });
}

#[test]
fn two_references_are_refused() {
    let authored = ProfileEntry {
        keyword: Some("heist".into()),
        genre: Some("Crime".into()),
        weight: weight(1.0),
        ..blank()
    };
    let msg = check(&authored).unwrap_err();
    assert!(msg.contains("keyword, genre"), "msg = {msg}");
}

#[test]
fn no_reference_is_refused() {
    let msg = check(&ProfileEntry { weight: weight(1.0), ..blank() }).unwrap_err();
    assert!(msg.contains("names no reference"), "msg = {msg}");
}

#[test]
fn a_zero_weight_is_refused() {
    let msg = check(&keyword("heist", weight(0.0))).unwrap_err();
    assert!(msg.contains("weight 0"), "msg = {msg}");
}

#[test]
fn a_missing_weight_is_refused_naming_the_entry() {
    let msg = check(&keyword("heist", None)).unwrap_err();
    assert!(msg.contains("`keyword: heist` has no `weight`"), "msg = {msg}");
}

#[test]
fn a_non_finite_weight_is_refused() {
    let msg = check(&keyword("heist", weight(f64::INFINITY))).unwrap_err();
    assert!(msg.contains("non-finite"), "msg = {msg}");
}

#[test]
fn item_references_parse_in_both_shapes() {
    let (r, _, _) = check(&item("imdb:tt0113277")).unwrap();
    assert_eq!(
        r,
        Reference::Item(ItemRef::External { ns: ExternalNs::Imdb, value: "tt0113277".into() })
    );
    let (r, _, _) = check(&item("Heat (1995)")).unwrap();
    assert_eq!(r, Reference::Item(ItemRef::TitleYear { title: "Heat".into(), year: 1995 }));
    let msg = check(&item("Heat")).unwrap_err();
    assert!(msg.contains("Title (Year)"), "msg = {msg}");
}

#[test]
fn an_empty_value_is_refused_by_its_key() {
    assert_eq!(check(&keyword("  ", weight(1.0))).unwrap_err(), "has an empty `keyword`");
}

#[test]
fn an_item_reference_keeps_to_its_shape() {
    assert_eq!(
        parse_item(" tmdb: 949 "),
        Ok(ItemRef::External { ns: ExternalNs::Tmdb, value: "949".into() })
    );
    assert_eq!(
        parse_item("Alien: Resurrection (1997)"),
        Ok(ItemRef::TitleYear { title: "Alien: Resurrection".into(), year: 1997 })
    );
    assert_eq!(
        parse_item("Heat (Live) (1995)"),
        Ok(ItemRef::TitleYear { title: "Heat (Live)".into(), year: 1995 })
    );
    assert_eq!(
        parse_item("Ides (-044)"),
        Ok(ItemRef::TitleYear { title: "Ides".into(), year: -44 })
    );
    for bad in ["imdb:", "Heat (95)", " (1995)", "Heat (19x5)", "Heat(1995)"] {
        assert!(parse_item(bad).is_err(), "{bad}");
    }
}

#[test]
fn a_keyword_is_lowered_and_squeezed() {
    assert_eq!(normalize_keyword("\t Time   TRAVEL\n"), "time travel");
    assert_eq!(normalize_keyword(""), "");
}

#[test]
fn a_normal_keyword_stays_as_it_is() {
    assert_eq!(normalize_keyword("  Bank   Heist "), "bank heist");
    assert_eq!(normalize_keyword("bank heist"), "bank heist");
    for raw in ["\u{a0}ΟΔΟΣ\u{3000} ΣΑΣ", "\u{130}stanbul", "ǅ  ẞ", "Ω\u{85}Å"] {
        let once = normalize_keyword(raw);
        assert_eq!(normalize_keyword(&once), once);
        assert_eq!(once.split_whitespace().collect::<Vec<_>>().join(" "), once);
    }
}

/// Words are lower-cased one by one: a sigma ends its word whatever white space follows.
#[test]
fn a_keyword_has_the_words_of_its_lower_case() {
    let spaces: Vec<char> = ('\0'..=char::MAX).filter(|c| c.is_whitespace()).collect();
    let words = ["ΟΔΟΣ", "Σ", "ΑΣ'", "'ΣΑ", "\u{301}Σ\u{301}", "İ", "Bank"];
    for space in &spaces {
        for a in words {
            for b in words {
                for raw in [format!("{space}{a}{space}{space}{b}{space}"), format!("{a}{space}{b}")] {
                    let normal = normalize_keyword(&raw);
                    let parts: Vec<&str> = raw.split_whitespace().collect();
                    assert_eq!(normal, parts.join(" ").to_lowercase(), "{raw:?}");
                    let lower = raw.to_lowercase();
                    assert!(normal.split(' ').eq(lower.split_whitespace()), "{raw:?}");
                }
            }
        }
    }
}

/// Whatever character stands between two letters or alone, the keyword that it gives is in
/// its normal form.
#[test]
fn every_character_has_a_normal_form() {
    for c in '\0'..=char::MAX {
        for raw in [format!("{c}"), format!("a{c}b")] {
            let once = normalize_keyword(&raw);
            assert_eq!(once.to_lowercase(), once, "{c:?}");
            assert_eq!(once.split_whitespace().collect::<Vec<_>>().join(" "), once, "{c:?}");
        }
        let letter = c.to_lowercase().collect::<String>();
        assert_eq!(letter.to_lowercase(), letter, "{c:?}");
        assert!(!letter.is_empty(), "{c:?}");
        assert!(letter.chars().all(|l| l.is_whitespace() == c.is_whitespace()), "{c:?}");
        assert!(!c.is_whitespace() || letter == c.to_string(), "{c:?}");
    }
}

/// A text of one character is squeezed and trimmed away where that character is white space,
/// and nowhere else.
#[test]
fn white_space_is_what_unicode_says_it_is() {
    let spaces: Vec<char> = ('\0'..=char::MAX).filter(|c| squeeze(&c.to_string()).is_empty()).collect();
    let mut known: Vec<char> = ('\u{9}'..='\u{d}').collect();
    known.extend([' ', '\u{85}', '\u{a0}', '\u{1680}']);
    known.extend('\u{2000}'..='\u{200a}');
    known.extend(['\u{2028}', '\u{2029}', '\u{202f}', '\u{205f}', '\u{3000}']);
    assert_eq!(spaces, known);
    assert_eq!(trim("\t a b\u{3000}"), "a b");
    assert_eq!(squeeze(" a \n b"), "a b");
}

#[test]
fn an_empty_excluded_keyword_is_refused() {
    assert!(check_exclude_keywords(&vec!["gore".into()]).is_ok());
    assert_eq!(
        check_exclude_keywords(&vec!["gore".into(), " ".into()]).unwrap_err(),
        "`exclude_keywords` has an empty entry"
    );
}

#[test]
fn files_come_before_the_inline_entries() {
    let files = vec![ProfileFile {
        origin: "taste.yaml".into(),
        read: ProfileRead::Entries(vec![keyword("heist", weight(1.0)), keyword("noir", weight(2.0))]),
    }];
    let got = load(&files, &vec![keyword("space", weight(3.0))]).unwrap();
    let places: Vec<String> = got.iter().map(LoadedEntry::locate).collect();
    assert_eq!(
        places,
        [
            "profile entry 1 in taste.yaml",
            "profile entry 2 in taste.yaml",
            "profile entry 1 in inline"
        ]
    );
}

#[test]
fn a_bad_entry_and_an_unreadable_file_are_named() {
    let files = vec![ProfileFile {
        origin: "taste.yaml".into(),
        read: ProfileRead::Entries(vec![keyword("heist", None)]),
    }];
    assert_eq!(
        load(&files, &vec![]).unwrap_err(),
        "profile entry 1 in taste.yaml `keyword: heist` has no `weight`"
    );
    let files = vec![ProfileFile {
        origin: "gone.yaml".into(),
        read: ProfileRead::Failed("no such file".into()),
    }];
    assert_eq!(load(&files, &vec![]).unwrap_err(), "profile file gone.yaml: no such file");
}

#[test]
fn an_external_id_prefers_the_row_it_names() {
    let mut carrier = entry("plex:7", "Heat", 1995);
    carrier.external.push((ExternalNs::Imdb, "tt0113277".into()));
    let c = catalog(vec![carrier]);
    let wanted = parse_item("imdb:tt0113277").unwrap();
    assert_eq!(resolve_item(&c, &wanted).unwrap(), "plex:7");
    let c = catalog(vec![entry("imdb:tt0113277", "Heat", 1995)]);
    assert_eq!(resolve_item(&c, &wanted).unwrap(), "imdb:tt0113277");
}

#[test]
fn an_item_that_is_none_or_several_is_refused() {
    let wanted = parse_item("Heat (1995)").unwrap();
    assert_eq!(resolve_item(&catalog(vec![]), &wanted).unwrap_err(), "matches no catalog item");
    let c = catalog(vec![entry("a", "Heat", 1995), entry("b", "Heat", 1995)]);
    assert_eq!(
        resolve_item(&c, &wanted).unwrap_err(),
        "matches 2 catalog items (a, b) — use an external id to name one"
    );
}

#[test]
fn a_profile_resolves_to_what_a_script_reads() {
    let mut c = catalog(vec![entry("m1", "Heat", 1995), entry("m2", "Ronin", 1998)]);
    c.queries.push(("item.year < 2000".into(), Reply::Items(vec!["m1".into(), "m2".into()])));
    let set = ProfileEntry { set: Some("item.year < 2000".into()), weight: weight(0.5), ..blank() };
    let entries = load(&vec![], &vec![keyword("Heist", weight(2.0)), item("Heat (1995)"), set]).unwrap();
    let got = resolve(&c, &entries, &vec![" GORE  fest".into()]).unwrap();
    assert_eq!(got.exclude_keywords, ["gore fest"]);
    assert_eq!(field_text(&got.entries[0], "kind"), "keyword");
    assert_eq!(field_text(&got.entries[0], "value"), "heist");
    assert_eq!(field_text(&got.entries[0], "reference"), "Heist");
    assert_eq!(field_text(&got.entries[1], "kind"), "item");
    assert_eq!(field_len(&got.entries[1], "items"), 1);
    assert_eq!(field_len(&got.entries[2], "items"), 2);
    assert_eq!(field_text(&got.entries[2], "origin"), "inline");
}

#[test]
fn a_set_that_matches_nothing_and_one_never_asked_are_told_apart() {
    let set = ProfileEntry { set: Some("item.year < 0".into()), weight: weight(0.5), ..blank() };
    let entries = load(&vec![], &vec![set]).unwrap();
    let mut c = catalog(vec![]);
    match resolve(&c, &entries, &vec![]) {
        Err(Halt::Unasked(query)) => assert_eq!(query, "item.year < 0"),
        other => panic!("{other:?}"),
    }
    c.queries.push(("item.year < 0".into(), Reply::Items(vec![])));
    match resolve(&c, &entries, &vec![]) {
        Err(Halt::Failed(why)) => assert_eq!(
            why,
            "profile entry 1 in inline: `set` \"item.year < 0\" matches no catalog items, so it \
             would weight nothing"
        ),
        other => panic!("{other:?}"),
    }
    c.queries[0].1 = Reply::Failed("bad query".into());
    match resolve(&c, &entries, &vec![]) {
        Err(Halt::Failed(why)) => assert_eq!(
            why,
            "profile entry 1 in inline: channel-authored `set` \"item.year < 0\": bad query"
        ),
        other => panic!("{other:?}"),
    }
}

#[test]
fn an_item_that_is_gone_fails_by_its_entry() {
    let entries = load(&vec![], &vec![item("Heat (1995)")]).unwrap();
    match resolve(&catalog(vec![]), &entries, &vec![]) {
        Err(Halt::Failed(why)) => assert_eq!(
            why,
            "profile entry 1 in inline: `item: Heat (1995)` matches no catalog item"
        ),
        other => panic!("{other:?}"),
    }
}
