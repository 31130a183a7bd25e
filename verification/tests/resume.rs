use etv_station::resume::{
    current_version, is_start, load, sidecar_path, GenerationState, PoolResume, ResumeLoad,
    ResumeMap, SidecarRead,
};

const HOUR: i128 = 3_600_000_000_000;
// 2026-04-13 00:00 UTC
const START: i128 = 1_776_038_400_000_000_000;

fn at(hour: i128) -> i128 {
    START + hour * HOUR
}

fn pools_with(next_show: &str) -> Vec<(String, PoolResume)> {
    vec![("shows".to_string(), PoolResume { next: Some(next_show.into()) })]
}

fn text(pools: &[(String, PoolResume)]) -> String {
    format!("{pools:?}")
}

fn sample() -> ResumeMap {
    let mut map = ResumeMap::new();
    map.pools = pools_with("show:invincible");
    map
}

fn three_generations() -> ResumeMap {
    let mut map = ResumeMap::new();
    map.pools = pools_with("e0");
    map.checkpoint(at(0));
    map.pools = pools_with("e1");
    map.checkpoint(at(6));
    map.pools = pools_with("e2");
    map.checkpoint(at(12));
    map.pools = pools_with("e3");
    map
}

#[test]
fn missing_sidecar_reads_as_fresh() {
    let (map, how) = load(SidecarRead::Missing);
    assert!(map.is_empty());
    assert!(matches!(how, ResumeLoad::Fresh));
}

#[test]
fn round_trips_through_disk() {
    let (map, how) = load(SidecarRead::Parsed(sample()));
    assert!(matches!(how, ResumeLoad::Loaded));
    assert_eq!(format!("{map:?}"), format!("{:?}", sample()));
    let pool = map.pool(&"shows".to_string()).unwrap();
    assert_eq!(pool.next.as_deref(), Some("show:invincible"));
}

#[test]
fn corrupt_sidecar_starts_over_instead_of_failing() {
    let (map, how) = load(SidecarRead::Unreadable("expected ident".into()));
    assert!(map.is_empty());
    assert!(matches!(how, ResumeLoad::Discarded(_)));
}

#[test]
fn future_version_is_discarded_not_misread() {
    let mut future = sample();
    future.version = 99;
    let (map, how) = load(SidecarRead::Parsed(future));
    assert!(map.is_empty());
    match how {
        ResumeLoad::Discarded(why) => assert_eq!(why, "sidecar version 99 is not 1"),
        other => panic!("{other:?}"),
    }
}

#[test]
fn rewind_restores_the_state_before_the_earliest_unaired_generation() {
    let mut map = three_generations();
    let regen = map.rewind_to_unaired(at(8)).unwrap();
    assert_eq!(regen, at(12));
    assert_eq!(
        text(&map.pools),
        text(&pools_with("e2")),
        "pools must be exactly what they were entering the 12:00 generation"
    );
    assert!(map.checkpoints.is_empty(), "regenerated spans re-record their own checkpoints");
}

#[test]
fn rewind_is_a_no_op_when_nothing_is_unaired() {
    let mut map = ResumeMap::new();
    map.pools = pools_with("e0");
    map.checkpoint(at(0));
    map.pools = pools_with("e1");
    assert!(map.rewind_to_unaired(at(9)).is_none());
    assert_eq!(text(&map.pools), text(&pools_with("e1")));
}

#[test]
fn rewind_on_a_fresh_map_does_nothing() {
    let mut map = ResumeMap::new();
    assert!(map.rewind_to_unaired(at(1)).is_none());
    assert!(map.is_empty());
}

#[test]
fn rewind_to_targets_the_generation_covering_an_instant() {
    let mut map = three_generations();
    let regen = map.rewind_to(at(8)).unwrap();
    assert_eq!(regen, at(6));
    assert_eq!(text(&map.pools), text(&pools_with("e1")));
    assert_eq!(map.checkpoints.len(), 1);
    assert_eq!(map.checkpoints[0].start, at(0));
}

#[test]
fn rewind_to_is_none_when_the_instant_predates_every_checkpoint() {
    let mut map = ResumeMap::new();
    map.pools = pools_with("e1");
    map.checkpoint(at(6));
    map.pools = pools_with("e2");
    assert!(map.rewind_to(at(3)).is_none());
    assert_eq!(text(&map.pools), text(&pools_with("e2")), "state left untouched");
}

#[test]
fn prune_keeps_only_future_checkpoints() {
    let mut map = ResumeMap::new();
    map.checkpoint(at(0));
    map.checkpoint(at(6));
    map.checkpoint(at(12));
    map.prune_elapsed(at(7));
    assert_eq!(map.checkpoints.len(), 1);
    assert_eq!(map.checkpoints[0].start, at(12));
}

#[test]
fn checkpoints_survive_the_sidecar_round_trip() {
    let mut map = sample();
    map.checkpoint(at(12));
    let written = format!("{map:?}");
    let (loaded, _) = load(SidecarRead::Parsed(map));
    assert_eq!(format!("{loaded:?}"), written);
    assert_eq!(loaded.checkpoints[0].start, at(12));
}

#[test]
fn the_list_position_round_trips_through_disk() {
    let mut map = ResumeMap::new();
    map.position = 37;
    let (loaded, how) = load(SidecarRead::Parsed(map));
    assert!(matches!(how, ResumeLoad::Loaded));
    assert_eq!(loaded.position, 37);
    assert!(!loaded.is_empty(), "a channel 37 items in is not fresh");
}

#[test]
fn a_missing_sidecar_puts_a_flat_channel_at_the_top() {
    let (map, _) = load(SidecarRead::Missing);
    assert_eq!(map.position, 0);
}

#[test]
fn rewinding_restores_the_list_position_with_the_pools() {
    let mut map = ResumeMap::new();
    map.position = 10;
    map.checkpoint(at(0));
    map.position = 40;
    map.checkpoint(at(6));
    map.position = 75;
    assert_eq!(map.rewind_to_unaired(at(3)).unwrap(), at(6));
    assert_eq!(map.position, 40);
}

#[test]
fn rewinding_to_an_instant_restores_the_list_position() {
    let mut map = ResumeMap::new();
    map.position = 10;
    map.checkpoint(at(0));
    map.position = 40;
    map.checkpoint(at(6));
    map.position = 75;
    assert_eq!(map.rewind_to(at(8)).unwrap(), at(6));
    assert_eq!(map.position, 40);
}

#[test]
fn peek_unaired_returns_the_earliest_unaired_checkpoint_without_mutating() {
    let map = three_generations();
    let before = format!("{map:?}");
    let (start, pools, position) = map.peek_unaired(at(8)).unwrap();
    assert_eq!(start, at(12));
    assert_eq!(text(&pools), text(&pools_with("e2")));
    assert_eq!(position, 0);
    assert_eq!(format!("{map:?}"), before, "peeking must not mutate the map");
}

#[test]
fn peek_unaired_is_none_when_nothing_is_unaired() {
    let mut map = ResumeMap::new();
    map.pools = pools_with("e0");
    map.checkpoint(at(0));
    assert!(map.peek_unaired(at(9)).is_none());
}

#[test]
fn a_missing_fingerprint_decodes_as_none() {
    let (map, _) = load(SidecarRead::Parsed(sample()));
    assert_eq!(map.fingerprint, None);
}

#[test]
fn the_fingerprint_round_trips_through_disk() {
    let mut map = sample();
    map.fingerprint = Some("deadbeef".to_string());
    let (loaded, _) = load(SidecarRead::Parsed(map));
    assert_eq!(loaded.fingerprint.as_deref(), Some("deadbeef"));
}

#[test]
fn a_state_that_says_nothing_is_fresh() {
    assert!(GenerationState::empty().is_fresh());
    let mut state = GenerationState::empty();
    state.cursor.push(("show:got".into(), "got-e1".into()));
    assert!(!state.is_fresh());
    assert_eq!(current_version(), 1);
    assert!(is_start(&0) && !is_start(&1));
    assert_eq!(sidecar_path("/out"), "/out/.resume");
}

#[test]
fn a_generation_that_is_rewound_is_as_if_it_had_not_been() {
    let mut map = sample();
    let before = text(&map.pools);
    map.checkpoint(at(6));
    map.pools = pools_with("show:other");
    assert_eq!(map.rewind_to_unaired(at(1)), Some(at(6)));
    assert_eq!(text(&map.pools), before);
}
