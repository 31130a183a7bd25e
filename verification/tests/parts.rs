use etv_station::catalog::usable_length;
use etv_station::config::{Constraints, NoRepeatWithin, Order};
use etv_station::constrain::{
    conflicts_with_recent, history_needed, order_constrained, shares_value, ItemKeys, Limits,
    RepeatGap,
};
use etv_station::fault::join_names;
use etv_station::identity::{canonical_path, derive_entry_id, fnv1a_64};
use etv_station::item::{
    derive_item_id, merge_program, GuideConfig, GuideFields, ProgramMetadata, ResolvedItem,
    SourceConfig,
};
use etv_station::names::{contains_name, lookup, position_of, put_entry};
use etv_station::orders::take_at;
use etv_station::pool::{mean_of, seam_of};
use etv_station::resolve::{
    collapse_duplicates, fresh_seed, nominal_item_runtime, reorder_to, ChannelConfig,
};
use etv_station::roll::{splitmix64, RollKey, CHANCE_WHOLE};
use etv_station::window::items_covering;

fn names(list: &[&str]) -> Vec<String> {
    list.iter().map(|s| s.to_string()).collect()
}

fn key(id: &str, group: &[&str], duration: u64) -> ItemKeys {
    ItemKeys { id: id.into(), group: names(group), duration }
}

fn within(n: usize) -> Limits {
    Limits { no_repeat: RepeatGap::Positions(n), separate: 0 }
}

fn item(id: &str) -> ResolvedItem {
    ResolvedItem {
        id: id.into(),
        source: SourceConfig::Lavfi { params: id.into() },
        in_point: None,
        out_point: None,
        program: None,
        catalog_duration: None,
        error_card: false,
        metadata: None,
        guide: None,
        guide_fields: GuideFields {
            show: None,
            absolute_episode: None,
            release_date: None,
            studio: None,
            edition: None,
            library: None,
            duration_ms: None,
            cast: vec![],
            directors: vec![],
            writers: vec![],
            countries: vec![],
            genres: vec![],
            summary: None,
        },
    }
}

fn ids(list: &[ResolvedItem]) -> Vec<&str> {
    list.iter().map(|i| i.id.as_str()).collect()
}

#[test]
fn the_mixer_gives_its_known_sequence() {
    let mut state: u64 = 0;
    assert_eq!(splitmix64(&mut state), 0xE220_A839_7B1D_CDAF);
    assert_eq!(splitmix64(&mut state), 0x6E78_9E6A_A1B9_65F4);
    assert_eq!(splitmix64(&mut state), 0x06C4_5D18_8009_454F);
}

#[test]
fn a_roll_is_one_of_the_slices_and_stays_the_same() {
    let roll = RollKey { seed: 42, cycle: 3, step: 1 };
    assert_eq!(roll.u64_at(5), RollKey { seed: 42, cycle: 3, step: 1 }.u64_at(5));
    assert_ne!(roll.u64_at(5), roll.u64_at(6));
    for nonce in 0..100 {
        assert_eq!(roll.unit_at(nonce), roll.u64_at(nonce) >> 11);
        assert!(roll.unit_at(nonce) < CHANCE_WHOLE);
    }
}

#[test]
fn the_hash_gives_its_known_values() {
    assert_eq!(fnv1a_64(""), 0xcbf2_9ce4_8422_2325);
    assert_eq!(fnv1a_64("a"), 0xaf63_dc4c_8601_ec8c);
    assert_eq!(fnv1a_64("foobar"), 0x8594_4171_f739_67e8);
    assert_eq!(derive_entry_id("a"), "fs:af63dc4c8601ec8c");
}

#[test]
fn a_path_is_told_without_its_mount() {
    let roots = names(&["/mnt/media", "/Volumes/media/"]);
    assert_eq!(canonical_path("/mnt/media/a.mkv", &roots), "/a.mkv");
    assert_eq!(canonical_path("/Volumes/media/a.mkv", &roots), "a.mkv");
    assert_eq!(canonical_path("/mnt/mediator/a.mkv", &roots), "/mnt/mediator/a.mkv");
    assert_eq!(canonical_path("/mnt/media", &roots), "");
    assert_eq!(canonical_path("/elsewhere", &vec![]), "/elsewhere");
}

#[test]
fn one_file_has_one_identity_through_two_mounts() {
    let roots = names(&["/mnt/media", "/Volumes/media"]);
    let at = |path: &str| SourceConfig::Local { path: path.into() };
    let one = derive_item_id(&at("/mnt/media/a.mkv"), &roots, None);
    let two = derive_item_id(&at("/Volumes/media/a.mkv"), &roots, None);
    assert_eq!(one, two);
    assert_ne!(one, derive_item_id(&at("/mnt/media/b.mkv"), &roots, None));
    let index = vec![("/a.mkv".to_string(), "imdb:tt1".to_string())];
    assert_eq!(derive_item_id(&at("/mnt/media/a.mkv"), &roots, Some(&index)), "imdb:tt1");
}

#[test]
fn a_repeat_clashes_within_its_gap_only() {
    let recent = vec![key("a", &[], 0), key("b", &[], 0)];
    assert!(conflicts_with_recent(&recent, &key("b", &[], 0), within(1)));
    assert!(!conflicts_with_recent(&recent, &key("a", &[], 0), within(1)));
    assert!(conflicts_with_recent(&recent, &key("a", &[], 0), within(2)));
    assert!(!conflicts_with_recent(&recent, &key("b", &[], 0), within(0)));
}

#[test]
fn a_repeat_clashes_within_its_time_only() {
    let limits = Limits { no_repeat: RepeatGap::Duration(100), separate: 0 };
    let recent = vec![key("a", &[], 60), key("b", &[], 60)];
    assert!(conflicts_with_recent(&recent, &key("b", &[], 60), limits));
    assert!(!conflicts_with_recent(&recent, &key("a", &[], 60), limits));
}

#[test]
fn a_shared_value_clashes_within_its_gap() {
    let limits = Limits { no_repeat: RepeatGap::Positions(0), separate: 1 };
    let recent = vec![key("a", &["Noir", "Drama"], 0)];
    assert!(conflicts_with_recent(&recent, &key("b", &["Drama"], 0), limits));
    assert!(!conflicts_with_recent(&recent, &key("b", &["Comedy"], 0), limits));
    assert!(shares_value(&names(&["x", "y"]), &names(&["y"])));
    assert!(!shares_value(&names(&["x"]), &names(&[])));
}

#[test]
fn forgetting_what_no_rule_looks_at_changes_no_answer() {
    let recent: Vec<ItemKeys> = (0..6).map(|i| key(&format!("i{i}"), &[], 10)).collect();
    assert_eq!(history_needed(&recent, within(2)), 2);
    let kept: Vec<ItemKeys> = (4..6).map(|i| key(&format!("i{i}"), &[], 10)).collect();
    for i in 0..6 {
        let next = key(&format!("i{i}"), &[], 10);
        assert_eq!(
            conflicts_with_recent(&recent, &next, within(2)),
            conflicts_with_recent(&kept, &next, within(2))
        );
    }
}

#[test]
fn an_arrangement_keeps_every_item_and_leaves_a_legal_list_alone() {
    let list = vec![key("a", &[], 0), key("a", &[], 0), key("b", &[], 0), key("c", &[], 0)];
    let limits = vec![within(1); 4];
    let arranged = order_constrained(&list, &limits, &vec![]);
    assert_eq!(arranged.unresolved, 0);
    let mut sorted = arranged.order.clone();
    sorted.sort();
    assert_eq!(sorted, vec![0, 1, 2, 3]);
    let told: Vec<&str> = arranged.order.iter().map(|&i| list[i].id.as_str()).collect();
    assert!(told.windows(2).all(|w| w[0] != w[1]), "{told:?}");
    let legal = vec![key("a", &[], 0), key("b", &[], 0), key("a", &[], 0)];
    assert_eq!(order_constrained(&legal, &vec![within(1); 3], &vec![]).order, vec![0, 1, 2]);
    let free = vec![key("a", &[], 0), key("a", &[], 0)];
    assert_eq!(order_constrained(&free, &vec![within(0); 2], &vec![]).order, vec![0, 1]);
    let stuck = order_constrained(&free, &vec![within(1); 2], &vec![]);
    assert_eq!(stuck.order, vec![0, 1]);
    assert_eq!(stuck.unresolved, 1);
}

#[test]
fn a_table_of_rules_is_read() {
    let table = Constraints {
        no_repeat_within: Some(NoRepeatWithin::Positions(3)),
        separate_by: Some("genres".into()),
        separate_min_gap: None,
    };
    assert_eq!(table.limits(), Limits { no_repeat: RepeatGap::Positions(3), separate: 1 });
    let silent = Constraints::none();
    assert!(silent.limits().is_unconstrained());
    assert_eq!(silent.separate_gap(), 0);
    assert_eq!(silent.no_repeat_gap(), NoRepeatWithin::Positions(0));
}

#[test]
fn a_window_takes_the_shortest_run_that_covers_it() {
    assert_eq!(items_covering(&vec![30, 30, 30], 60), 2);
    assert_eq!(items_covering(&vec![30, 30, 30], 61), 3);
    assert_eq!(items_covering(&vec![30, 30, 30], 900), 3);
    assert_eq!(items_covering(&vec![30, 30, 30], 0), 1);
}

#[test]
fn only_a_plausible_length_is_usable() {
    assert_eq!(usable_length(Some(1_000)), Some(1_000_000_000));
    assert_eq!(usable_length(Some(0)), None);
    assert_eq!(usable_length(Some(-5)), None);
    assert_eq!(usable_length(Some(86_400_000)), Some(86_400_000_000_000));
    assert_eq!(usable_length(Some(86_400_001)), None);
    assert_eq!(usable_length(None), None);
}

#[test]
fn a_mean_is_rounded_down() {
    assert_eq!(mean_of(&vec![]), 0);
    assert_eq!(mean_of(&vec![("a".into(), 3), ("b".into(), 4)]), 3);
}

#[test]
fn the_seam_of_a_pool_is_what_it_could_have_supplied() {
    assert_eq!(seam_of(&names(&["x", "a", "y", "b"]), &names(&["b", "a"])), names(&["a", "b"]));
}

#[test]
fn duplicates_collapse_to_the_first() {
    let list = vec![item("a"), item("b"), item("a"), item("c"), item("b")];
    assert_eq!(ids(&collapse_duplicates(list)), vec!["a", "b", "c"]);
}

#[test]
fn an_order_loses_no_item() {
    let list = vec![item("a"), item("b"), item("c"), item("b")];
    let ordered = reorder_to(list, &names(&["c", "b", "nobody"]));
    let mut told = ids(&ordered);
    assert_eq!(told[0], "c");
    assert_eq!(told.len(), 4);
    told.sort();
    assert_eq!(told, vec!["a", "b", "b", "c"]);
    assert_eq!(take_at(vec!['x', 'y', 'z'], &vec![2, 0]), vec!['z', 'x']);
}

#[test]
fn a_table_holds_one_value_under_a_name() {
    let mut table: Vec<(String, u8)> = vec![];
    put_entry(&mut table, "a".into(), 1);
    put_entry(&mut table, "b".into(), 2);
    put_entry(&mut table, "a".into(), 3);
    assert_eq!(table, vec![("a".to_string(), 3), ("b".to_string(), 2)]);
    assert_eq!(lookup(&table, &"b".to_string()), Some(&2));
    assert_eq!(lookup(&table, &"c".to_string()), None);
    assert_eq!(position_of(&names(&["x", "y"]), &"y".to_string()), Some(1));
    assert!(!contains_name(&names(&["x"]), &"y".to_string()));
    assert_eq!(join_names(&names(&["a", "b", "c"])), "a, b, c");
    assert_eq!(join_names(&vec![]), "");
}

#[test]
fn a_program_is_filled_up_from_its_defaults() {
    let mut own = ProgramMetadata::blank();
    own.title = Some("Own".into());
    let mut defaults = ProgramMetadata::blank();
    defaults.title = Some("Default".into());
    defaults.year = Some(1999);
    let merged = merge_program(Some(&own), Some(&defaults)).unwrap();
    assert_eq!(merged.title.as_deref(), Some("Own"));
    assert_eq!(merged.year, Some(1999));
    assert!(merge_program(None, None).is_none());
}

#[test]
fn guide_templates_cascade_field_by_field() {
    let of = |title: Option<&str>, sub: Option<&str>| GuideConfig {
        title: title.map(|t| t.into()),
        sub_title: sub.map(|t| t.into()),
        description: None,
        categories: None,
    };
    let made = GuideConfig::cascade(
        Some(&of(None, Some("item"))),
        Some(&of(Some("block"), Some("block"))),
        Some(&of(Some("channel"), None)),
    )
    .unwrap();
    assert_eq!(made.title.as_deref(), Some("block"));
    assert_eq!(made.sub_title.as_deref(), Some("item"));
    assert_eq!(made.description, None);
    assert!(GuideConfig::cascade(None, None, None).is_none());
}

#[test]
fn a_channel_has_a_typical_length_and_a_seed() {
    let of = |secs: Option<u32>| ChannelConfig {
        seed: None,
        nominal_item_secs: secs,
        guide: None,
        groups: vec![],
        blocks: vec![],
    };
    assert_eq!(nominal_item_runtime(&of(None)), 1_800_000_000_000);
    assert_eq!(nominal_item_runtime(&of(Some(0))), 1_000_000_000);
    assert_eq!(nominal_item_runtime(&of(Some(90))), 90_000_000_000);
    assert_eq!(fresh_seed(None), 0);
    assert_eq!(fresh_seed(Some(0x1_0000_0000_0000_0005)), 5);
}

#[test]
fn orders_are_the_same_by_what_they_say() {
    assert!(Order::Sort("a:asc".into()).same(&Order::Sort("a:asc".into())));
    assert!(!Order::Sort("a:asc".into()).same(&Order::Random));
}
