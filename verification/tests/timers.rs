use tickwheel::sched::{Scheduler, StartOutcome, TimerDomain};
use tickwheel::wheel::{StartError, Wheel, MAX_DELAY_TICKS};

#[test]
fn fires_exactly_at_deadline() {
    // start(id="a", delay=5) at cursor 0; advancing 4 ticks yields
    // nothing, one more tick yields exactly ["a"]
    let mut w = Wheel::new();
    assert!(w.start(String::from("a"), 5).is_ok());
    let early = w.advance(4);
    assert!(early.is_empty());
    let due = w.advance(1);
    assert_eq!(due, vec![String::from("a")]);
    assert!(!w.is_scheduled(&String::from("a")));
}

#[test]
fn long_delay_cascades_across_tiers() {
    // delay 1000 spans the hundred-ms, second and minute tiers; polled
    // one tick at a time it fires exactly once, on the final poll
    let mut w = Wheel::new();
    assert!(w.start(String::from("b"), 1000).is_ok());
    let mut seen = 0;
    for tick in 1..=1000u64 {
        let fired = w.advance(1);
        if tick < 1000 {
            assert!(fired.is_empty(), "fired early at tick {}", tick);
        } else {
            assert_eq!(fired, vec![String::from("b")]);
        }
        seen += fired.len();
    }
    assert_eq!(seen, 1);
    assert!(w.advance(2000).is_empty());
}

#[test]
fn stopped_timer_never_fires() {
    // start(id="c", delay=10); stop before any poll; a 20-tick poll
    // reports nothing
    let mut w = Wheel::new();
    assert!(w.start(String::from("c"), 10).is_ok());
    assert!(w.stop(&String::from("c")));
    let fired = w.advance(20);
    assert!(fired.is_empty());
}

#[test]
fn stop_unknown_id_is_noop() {
    let mut w = Wheel::new();
    assert!(!w.stop(&String::from("ghost")));
    assert!(w.start(String::from("x"), 3).is_ok());
    assert!(!w.stop(&String::from("ghost")));
    assert_eq!(w.advance(3), vec![String::from("x")]);
    // stopping an already-fired id is a no-op too
    assert!(!w.stop(&String::from("x")));
}

#[test]
fn duplicate_start_is_rejected() {
    let mut w = Wheel::new();
    assert!(w.start(String::from("dup"), 4).is_ok());
    assert_eq!(w.start(String::from("dup"), 9), Err(StartError::AlreadyScheduled));
    // the first registration is untouched: it still fires at tick 4
    assert!(w.advance(3).is_empty());
    assert_eq!(w.advance(1), vec![String::from("dup")]);
    // after firing, the id may be reused
    assert!(w.start(String::from("dup"), 1).is_ok());
}

#[test]
fn delay_beyond_range_is_rejected() {
    let mut w = Wheel::new();
    assert_eq!(
        w.start(String::from("far"), MAX_DELAY_TICKS + 1),
        Err(StartError::DelayTooLong)
    );
    assert!(!w.is_scheduled(&String::from("far")));
    assert!(w.start(String::from("edge"), MAX_DELAY_TICKS).is_ok());
    assert!(w.advance(MAX_DELAY_TICKS - 1).is_empty());
    assert_eq!(w.advance(1), vec![String::from("edge")]);
}

#[test]
fn zero_delay_fires_on_next_tick() {
    let mut w = Wheel::new();
    assert!(w.start(String::from("now"), 0).is_ok());
    let zero = w.advance(0);
    assert!(zero.is_empty());
    assert_eq!(w.advance(1), vec![String::from("now")]);
}

#[test]
fn zero_advance_changes_nothing() {
    let mut w = Wheel::new();
    assert!(w.start(String::from("idle"), 7).is_ok());
    for _ in 0..5 {
        assert!(w.advance(0).is_empty());
    }
    assert_eq!(w.cursor(), 0);
    assert!(w.is_scheduled(&String::from("idle")));
    assert_eq!(w.pending_count(), 1);
}

#[test]
fn many_timers_in_one_slot() {
    let mut w = Wheel::new();
    for i in 0..8 {
        assert!(w.start(format!("t{}", i), 6).is_ok());
    }
    assert!(w.advance(5).is_empty());
    let mut fired = w.advance(1);
    fired.sort();
    let want: Vec<String> = (0..8).map(|i| format!("t{}", i)).collect();
    assert_eq!(fired, want);
}

#[test]
fn batch_advance_collects_intermediate_ticks() {
    let mut w = Wheel::new();
    assert!(w.start(String::from("p"), 2).is_ok());
    assert!(w.start(String::from("q"), 5).is_ok());
    assert!(w.start(String::from("r"), 9).is_ok());
    // one big advance must report all three, in firing order
    let fired = w.advance(10);
    assert_eq!(
        fired,
        vec![String::from("p"), String::from("q"), String::from("r")]
    );
}

#[test]
fn external_counter_deltas_drive_the_external_domain() {
    // external poll counter sequence [0, 5, 5, 12]: elapsed ticks per
    // call are [0 (init), 5, 0, 7]; a delay-6 timer started at the
    // first call expires exactly when the cumulative elapsed reaches 6
    let mut s = Scheduler::new();
    let first = s.poll(0, 0);
    assert!(first.is_empty());
    assert!(s.start(TimerDomain::External, String::from("x"), 6).is_ok());
    let second = s.poll(0, 5);
    assert!(second.is_empty());
    assert_eq!(s.cursor_ticks(TimerDomain::External), 5);
    let third = s.poll(0, 5);
    assert!(third.is_empty());
    assert_eq!(s.cursor_ticks(TimerDomain::External), 5);
    let fourth = s.poll(0, 12);
    assert_eq!(fourth, vec![String::from("x")]);
    assert_eq!(s.cursor_ticks(TimerDomain::External), 12);
}

#[test]
fn real_domain_carries_sub_tick_milliseconds() {
    let mut s = Scheduler::new();
    assert!(s.start(TimerDomain::Real, String::from("r"), 2).is_ok());
    // 150 ms: one whole tick, 50 ms carried
    assert!(s.poll(150, 0).is_empty());
    assert_eq!(s.cursor_ticks(TimerDomain::Real), 1);
    assert_eq!(s.carry_remainder(), 50);
    // 50 more ms completes the second tick: the timer fires
    assert_eq!(s.poll(50, 0), vec![String::from("r")]);
    assert_eq!(s.cursor_ticks(TimerDomain::Real), 2);
    assert_eq!(s.carry_remainder(), 0);
}

#[test]
fn domains_are_independent() {
    let mut s = Scheduler::new();
    s.poll(0, 0);
    // the same id may pend in both domains at once
    assert!(s.start(TimerDomain::Real, String::from("same"), 1).is_ok());
    assert!(s.start(TimerDomain::External, String::from("same"), 4).is_ok());
    // a real-domain tick fires only the real timer
    let fired = s.poll(100, 0);
    assert_eq!(fired, vec![String::from("same")]);
    // the external timer still pends and fires on its own clock
    let fired = s.poll(0, 4);
    assert_eq!(fired, vec![String::from("same")]);
}

#[test]
fn stop_reaches_both_domains() {
    let mut s = Scheduler::new();
    s.poll(0, 0);
    assert!(s.start(TimerDomain::Real, String::from("z"), 1).is_ok());
    assert!(s.start(TimerDomain::External, String::from("z"), 1).is_ok());
    assert!(s.stop(&String::from("z")));
    assert!(s.poll(1000, 50).is_empty());
}

#[test]
fn textual_start_validates_its_delay() {
    let mut s = Scheduler::new();
    assert_eq!(
        s.start_text(TimerDomain::Real, String::from("t"), "abc"),
        StartOutcome::ParseError
    );
    assert_eq!(
        s.start_text(TimerDomain::Real, String::from("t"), "-3"),
        StartOutcome::ParseError
    );
    assert_eq!(
        s.start_text(TimerDomain::Real, String::from("t"), "99999999"),
        StartOutcome::DelayTooLong
    );
    assert_eq!(
        s.start_text(TimerDomain::Real, String::from("t"), "5"),
        StartOutcome::Started
    );
    assert_eq!(
        s.start_text(TimerDomain::Real, String::from("t"), "5"),
        StartOutcome::AlreadyScheduled
    );
    assert_eq!(s.poll(500, 0), vec![String::from("t")]);
}

#[test]
fn expired_ids_list_external_domain_first() {
    let mut s = Scheduler::new();
    s.poll(0, 0);
    assert!(s.start(TimerDomain::Real, String::from("real1"), 1).is_ok());
    assert!(s.start(TimerDomain::External, String::from("ext1"), 1).is_ok());
    let fired = s.poll(100, 1);
    assert_eq!(fired, vec![String::from("ext1"), String::from("real1")]);
}
