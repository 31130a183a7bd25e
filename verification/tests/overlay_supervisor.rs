use etv_station::overlay_supervisor::{
    reap_decision, resolve_fifo_path, resolve_overlay_config, wants_overlay, Action, Event,
    OverlayContext, Reap, Supervisor,
};

#[test]
fn resolve_fifo_uses_explicit_when_set() {
    let resolved = resolve_fifo_path("/some/output", Some("/tmp/custom.fifo"));
    assert_eq!(resolved, "/tmp/custom.fifo");
}

#[test]
fn resolve_fifo_defaults_under_output_folder() {
    let resolved = resolve_fifo_path("/some/output", None);
    assert_eq!(resolved, "/some/output/overlay.fifo");
}

#[test]
fn resolve_overlay_config_relative_to_channel_dir() {
    let resolved =
        resolve_overlay_config("/etc/etv/channels/test.toml", "overlays/watermark.toml");
    assert_eq!(resolved, "/etc/etv/channels/overlays/watermark.toml");
}

#[test]
fn clean_exit_after_serving_a_reader_respawns_rather_than_retiring() {
    assert_eq!(reap_decision(true, true), Reap::Reprobe);
}

#[test]
fn clean_exit_without_ever_seeing_a_reader_retires_the_marker() {
    assert_eq!(reap_decision(true, false), Reap::Retire);
}

#[test]
fn crash_respawns_regardless_of_whether_it_served_a_reader() {
    assert_eq!(reap_decision(false, true), Reap::Crashed);
    assert_eq!(reap_decision(false, false), Reap::Crashed);
}

#[test]
fn the_marker_paths_render_the_names_etv_next_looks_for() {
    let ctx = OverlayContext {
        channel_name: "test".into(),
        output_folder: "/playout/chan".into(),
        overlay_config: "/playout/chan/overlay.toml".into(),
        fifo_path: "/playout/chan/overlay.fifo".into(),
    };
    assert_eq!(ctx.ready_path(), "/playout/chan/.overlay-ready");
    assert_eq!(ctx.wanted_path(), "/playout/chan/.overlay-wanted");
}

#[test]
fn no_marker_means_no_overlay_wanted() {
    assert!(!wants_overlay(None, None));
}

#[test]
fn a_marker_with_no_cold_record_is_a_live_request() {
    assert!(wants_overlay(Some(1_000), None));
}

#[test]
fn the_request_we_already_served_does_not_respawn() {
    assert!(!wants_overlay(Some(1_000), Some(1_000)));
}

#[test]
fn a_newer_request_wakes_a_cold_channel() {
    assert!(wants_overlay(Some(1_000 + 30), Some(1_000)));
}

#[test]
fn a_request_arriving_during_wind_down_is_not_recorded_as_served() {
    let served = Some(1_000);
    let arrival = Some(1_000 + 60);
    assert!(
        wants_overlay(arrival, served),
        "a request that landed after the overlay spawned must still be live"
    );
    assert!(
        !wants_overlay(arrival, arrival),
        "guards the regression — this is what the old code recorded"
    );
}

fn tick(exited: Option<bool>, ready: bool, request: Option<i128>) -> Event {
    Event::Tick { exited, ready, request }
}

#[test]
fn an_overlay_goes_cold_and_comes_back_for_a_newer_request() {
    let mut s = Supervisor::new();
    assert_eq!(s.step(tick(None, false, None)), Action::Wait);
    assert_eq!(s.step(tick(None, false, Some(5))), Action::Spawn);
    s.step(Event::Spawned { request: Some(5) });
    assert!(s.running);
    // Nobody ever read it: a clean exit retires the request it served.
    assert_eq!(
        s.step(tick(Some(true), false, Some(9))),
        Action::ClearReady { reap: Reap::Retire }
    );
    assert_eq!(s.cold_at, Some(5));
    assert_eq!(s.step(tick(None, false, Some(5))), Action::Wait);
    assert_eq!(s.step(tick(None, false, Some(9))), Action::Spawn);
}

#[test]
fn an_overlay_that_was_read_is_started_again() {
    let mut s = Supervisor::new();
    s.step(tick(None, false, Some(5)));
    s.step(Event::Spawned { request: Some(5) });
    s.step(tick(None, true, Some(5)));
    assert!(s.ready_observed);
    assert_eq!(
        s.step(tick(Some(true), true, Some(5))),
        Action::ClearReady { reap: Reap::Reprobe }
    );
    assert_eq!(s.step(tick(None, false, Some(5))), Action::Spawn);
}

#[test]
fn a_shutdown_kills_what_runs() {
    let mut s = Supervisor::new();
    assert_eq!(s.step(Event::Shutdown), Action::Stop { kill: false });
    let mut s = Supervisor::new();
    s.step(tick(None, false, Some(5)));
    s.step(Event::Spawned { request: Some(5) });
    assert_eq!(s.step(Event::Shutdown), Action::Stop { kill: true });
}
