use mu::process::{begin, respond, Act, Exit, Tick, Wait, Watch, DRAIN, MILLISECOND};

#[test]
fn a_cancelled_process_does_not_begin() {
    assert_eq!(begin(false), None);
    assert_eq!(begin(true), Some(Exit { code: -1, timed_out: false, cancelled: true }));
}

#[test]
fn a_process_ends_with_its_code() {
    let mut watch = Watch::new(1_000);
    for now in [0, 1, 999 * MILLISECOND] {
        assert_eq!(watch.tick(now, false), Tick::Wait);
    }
    assert_eq!(watch.exit(Some(7)), Exit { code: 7, timed_out: false, cancelled: false });
    assert_eq!(watch.exit(None), Exit { code: -1, timed_out: false, cancelled: false });
}

#[test]
fn the_first_cause_stops_a_process() {
    let mut watch = Watch::new(1_000);
    assert_eq!(watch.tick(1_000 * MILLISECOND, false), Tick::Kill);
    let late = Exit { code: -1, timed_out: true, cancelled: false };
    assert_eq!(watch.exit(Some(0)), late);
    assert_eq!(watch.tick(1_000 * MILLISECOND + DRAIN - 1, true), Tick::Wait);
    assert_eq!(watch.tick(1_000 * MILLISECOND + DRAIN, true), Tick::Leave(late));
    let mut watch = Watch::new(1_000);
    assert_eq!(watch.tick(5, true), Tick::Kill);
    assert_eq!(watch.tick(6, true), Tick::Wait);
    assert_eq!(watch.exit(Some(0)), Exit { code: -1, timed_out: false, cancelled: true });
}

#[test]
fn both_causes_are_told() {
    let mut watch = Watch::new(0);
    assert_eq!(watch.tick(0, true), Tick::Kill);
    assert_eq!(watch.exit(None), Exit { code: -1, timed_out: true, cancelled: true });
}

#[test]
fn output_is_handed_on() {
    assert_eq!(respond(Wait::Output), Act::Chunk);
    assert_eq!(respond(Wait::Idle), Act::Flush);
    assert_eq!(respond(Wait::Closed), Act::Reap);
}
