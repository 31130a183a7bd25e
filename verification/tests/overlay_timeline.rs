use etv_station::overlay_timeline::{
    append, reset, BlockSpan, ChannelOverlays, OverlaySpan, OverlayTimeline,
};

const HOUR: i128 = 3_600_000_000_000;
// 2026-04-13 00:00 UTC
const START: i128 = 1_776_038_400_000_000_000;

fn at(hours: i128) -> i128 {
    START + hours * HOUR
}

fn spec(framerate: u32) -> String {
    format!("framerate: {framerate}")
}

/// Two blocks with different overlays, one hour each.
fn overlays() -> ChannelOverlays {
    ChannelOverlays { base: Some(spec(30)), blocks: vec![Some(spec(30)), Some(spec(31))] }
}

fn laid(from: i128) -> Vec<BlockSpan> {
    vec![
        BlockSpan { start: from, finish: from + HOUR, block: 0 },
        BlockSpan { start: from + HOUR, finish: from + 2 * HOUR, block: 1 },
    ]
}

fn first_pass(overlays: &ChannelOverlays) -> OverlayTimeline {
    append(&vec![], overlays, &laid(at(0)), at(0), at(0)).expect("a timeline should be written")
}

#[test]
fn spans_name_the_config_each_block_puts_on_screen() {
    let timeline = first_pass(&overlays());
    assert_eq!(timeline.spans.len(), 2);
    assert_eq!(timeline.spans[0].start, at(0));
    assert_eq!(timeline.spans[0].finish, at(1));
    assert_eq!(timeline.spans[0].spec, Some(spec(30)));
    assert_eq!(timeline.spans[1].spec, Some(spec(31)));
}

#[test]
fn a_block_that_draws_nothing_writes_a_null_span() {
    let mut o = overlays();
    o.blocks[1] = None;
    let timeline = first_pass(&o);
    assert_eq!(timeline.spans[1].spec, None);
    assert_eq!(
        timeline.spec_at(at(1) + HOUR / 2),
        None,
        "the second block must draw nothing, not the channel's base"
    );
}

#[test]
fn a_channel_whose_overlay_never_varies_writes_no_spans() {
    let mut o = overlays();
    o.blocks = vec![Some(spec(30)), Some(spec(30))];
    let timeline = reset(o.base.as_ref().unwrap());
    assert!(append(&timeline.spans, &o, &laid(at(0)), at(0), at(0)).is_none());
    assert!(timeline.spans.is_empty());
    assert_eq!(timeline.spec_at(at(1) + HOUR / 2), Some(&spec(30)));
}

#[test]
fn a_second_generation_keeps_the_first_generations_spans() {
    let o = overlays();
    let first = first_pass(&o);
    let timeline = append(&first.spans, &o, &laid(at(2)), at(2), at(0)).unwrap();
    assert_eq!(timeline.spans.len(), 4);
    assert_eq!(timeline.spans[0].start, at(0));
    assert_eq!(timeline.spans[3].finish, at(4));
}

#[test]
fn spans_older_than_the_retained_schedule_are_dropped() {
    let o = overlays();
    let first = first_pass(&o);
    let timeline = append(&first.spans, &o, &laid(at(2)), at(2), at(2)).unwrap();
    assert_eq!(timeline.spans.len(), 2);
    assert_eq!(timeline.spans[0].start, at(2));
}

#[test]
fn a_channel_with_no_overlay_writes_no_file() {
    let none = ChannelOverlays { base: None, blocks: vec![] };
    assert!(append(&vec![], &none, &laid(at(0)), at(0), at(0)).is_none());
}

#[test]
fn regenerating_a_range_replaces_its_spans() {
    let o = overlays();
    let mut spans: Vec<OverlaySpan> = vec![];
    for _ in 0..3 {
        spans = append(&spans, &o, &laid(at(0)), at(0), at(0)).unwrap().spans;
    }
    assert_eq!(spans.len(), 2);
}

#[test]
fn spans_come_out_in_the_order_in_which_they_start() {
    let o = overlays();
    let later = OverlaySpan { start: at(-1), finish: at(0), spec: Some("x".into()) };
    let mut turned = laid(at(0));
    turned.reverse();
    let timeline = append(&vec![later], &o, &turned, at(0), at(-2)).unwrap();
    let starts: Vec<i128> = timeline.spans.iter().map(|s| s.start).collect();
    assert_eq!(starts, [at(-1), at(0), at(1)]);
}
