//! The two domain clocks and the poller.
//!
//! Two independent timelines are kept.  The *real* domain is driven by
//! wall-clock time measured between polls: elapsed milliseconds are
//! turned into whole ticks, any sub-tick remainder carried forward so
//! no elapsed time is ever dropped.  The *external* domain is driven by
//! an explicit caller-owned tick counter: each poll advances the wheel
//! by the delta from the previously observed counter value.

use vstd::prelude::*;
use crate::parse::{parse_u64, parse_u64_spec};
use crate::wheel::{Wheel, StartError, MAX_DELAY_TICKS, effective_delay, ids_has, ids_distinct};

verus! {

/// Milliseconds per base tick of the real (wall-clock) domain.
pub const TICK_MS: u64 = 100;

/// An independent timeline; each domain owns its own wheel and registry,
/// so the same id may pend in both without colliding.
#[derive(Clone, Copy, PartialEq, Eq, Structural, Debug)]
pub enum TimerDomain {
    Real,
    External,
}

/// The other domain.
pub open spec fn other_domain(d: TimerDomain) -> TimerDomain {
    match d {
        TimerDomain::Real => TimerDomain::External,
        TimerDomain::External => TimerDomain::Real,
    }
}

/// How a textual `start` request was answered.
#[derive(Clone, Copy, PartialEq, Eq, Structural, Debug)]
pub enum StartOutcome {
    /// The timer is registered.
    Started,
    /// The delay text is not a well-formed unsigned number.
    ParseError,
    /// The id already has a pending timer in this domain.
    AlreadyScheduled,
    /// The delay exceeds the representable range.
    DelayTooLong,
}

/// Ticks actually advanced: the elapsed count, capped so the cursor
/// cannot run past the end of its range.
pub open spec fn capped(cursor: int, n: int) -> int {
    if cursor + n > u64::MAX {
        u64::MAX - cursor
    } else {
        n
    }
}

/// Elapsed ticks seen by the external domain when a poll observes
/// `count`: the delta from the previous observation.  The very first
/// observation only initialises the baseline, and a counter that moved
/// backwards contributes nothing.
pub open spec fn ext_elapsed(seen: bool, last: int, count: int) -> int {
    if !seen {
        0
    } else if count >= last {
        count - last
    } else {
        0
    }
}

/// The expired list of one poll, split at index `k`: first the
/// external domain's expiries, then the real domain's, each
/// duplicate-free and exactly the timers whose deadline the advanced
/// ticks (`en` external, `rn` real) reached.
pub open spec fn poll_split_at(
    pre: Scheduler,
    expired: Seq<String>,
    k: int,
    rn: int,
    en: int,
) -> bool {
    &&& 0 <= k <= expired.len()
    &&& ids_distinct(expired.take(k))
    &&& ids_distinct(expired.skip(k))
    &&& (forall|o: Seq<char>|
        ids_has(expired.take(k), o) <==> (pre.scheduled_in(TimerDomain::External, o)
            && pre.deadline_in(TimerDomain::External, o) <= pre.cursor_in(TimerDomain::External)
            + en))
    &&& (forall|o: Seq<char>|
        ids_has(expired.skip(k), o) <==> (pre.scheduled_in(TimerDomain::Real, o)
            && pre.deadline_in(TimerDomain::Real, o) <= pre.cursor_in(TimerDomain::Real) + rn))
}

/// The timer scheduling service: one wheel and registry per domain,
/// plus the clock bookkeeping of both domains.
pub struct Scheduler {
    real: Wheel,
    external: Wheel,
    carry_ms: u64,
    ext_seen: bool,
    ext_last: u64,
}

impl Scheduler {
    pub closed spec fn wf(self) -> bool {
        &&& self.real.wf()
        &&& self.external.wf()
        &&& self.carry_ms < 100
    }

    /// The wheel owned by a domain.
    pub closed spec fn wheel_of(self, dom: TimerDomain) -> Wheel {
        match dom {
            TimerDomain::Real => self.real,
            TimerDomain::External => self.external,
        }
    }

    /// Milliseconds of already-elapsed real time not yet a whole tick.
    pub closed spec fn carry(self) -> int {
        self.carry_ms as int
    }

    /// Whether a poll has already observed the external counter.
    pub closed spec fn ext_seen_of(self) -> bool {
        self.ext_seen
    }

    /// The external counter value observed by the previous poll.
    pub closed spec fn ext_last_of(self) -> int {
        self.ext_last as int
    }

    pub open spec fn scheduled_in(self, dom: TimerDomain, id: Seq<char>) -> bool {
        self.wheel_of(dom).scheduled(id)
    }

    pub open spec fn deadline_in(self, dom: TimerDomain, id: Seq<char>) -> int {
        self.wheel_of(dom).deadline_of(id)
    }

    pub open spec fn cursor_in(self, dom: TimerDomain) -> int {
        self.wheel_of(dom).cursor_of()
    }

    /// A fresh scheduler: both domains at tick zero with nothing
    /// pending, no carried milliseconds, external counter unobserved.
    pub fn new() -> (s: Scheduler)
        ensures
            s.wf(),
            s.cursor_in(TimerDomain::Real) == 0,
            s.cursor_in(TimerDomain::External) == 0,
            forall|id: Seq<char>| !s.scheduled_in(TimerDomain::Real, id),
            forall|id: Seq<char>| !s.scheduled_in(TimerDomain::External, id),
            s.carry() == 0,
            !s.ext_seen_of(),
    {
        Scheduler {
            real: Wheel::new(),
            external: Wheel::new(),
            carry_ms: 0,
            ext_seen: false,
            ext_last: 0,
        }
    }

    /// Registers a timer in one domain, to fire `delay` ticks from that
    /// domain's current tick (a zero delay fires at the next tick).
    pub fn start(&mut self, dom: TimerDomain, id: String, delay: u64) -> (r: Result<
        (),
        StartError,
    >)
        requires
            old(self).wf(),
            old(self).cursor_in(dom) + 36001 <= u64::MAX,
        ensures
            final(self).wf(),
            final(self).cursor_in(dom) == old(self).cursor_in(dom),
            r is Ok <==> (!old(self).scheduled_in(dom, id@) && delay <= MAX_DELAY_TICKS),
            r == Err::<(), StartError>(StartError::AlreadyScheduled) <==> old(self).scheduled_in(
                dom,
                id@,
            ),
            r is Ok ==> final(self).scheduled_in(dom, id@) && final(self).deadline_in(dom, id@)
                == old(self).cursor_in(dom) + effective_delay(delay as int),
            forall|o: Seq<char>|
                o != id@ ==> final(self).scheduled_in(dom, o) == old(self).scheduled_in(dom, o),
            forall|o: Seq<char>|
                o != id@ && old(self).scheduled_in(dom, o) ==> final(self).deadline_in(dom, o)
                    == old(self).deadline_in(dom, o),
            final(self).wheel_of(other_domain(dom)) == old(self).wheel_of(other_domain(dom)),
            final(self).carry() == old(self).carry(),
            final(self).ext_seen_of() == old(self).ext_seen_of(),
            final(self).ext_last_of() == old(self).ext_last_of(),
            r is Err ==> *final(self) == *old(self),
    {
        match dom {
            TimerDomain::Real => self.real.start(id, delay),
            TimerDomain::External => self.external.start(id, delay),
        }
    }

    /// Registers a timer whose delay arrives as text from the caller:
    /// malformed text is rejected before any state is touched.
    pub fn start_text(&mut self, dom: TimerDomain, id: String, delay_text: &str) -> (r:
        StartOutcome)
        requires
            old(self).wf(),
            old(self).cursor_in(dom) + 36001 <= u64::MAX,
        ensures
            final(self).wf(),
            r == StartOutcome::ParseError <==> parse_u64_spec(delay_text@) is None,
            r == StartOutcome::ParseError ==> *final(self) == *old(self),
            parse_u64_spec(delay_text@) matches Some(d) ==> {
                &&& (r == StartOutcome::Started <==> (!old(self).scheduled_in(dom, id@) && d
                    <= MAX_DELAY_TICKS))
                &&& (r == StartOutcome::AlreadyScheduled <==> old(self).scheduled_in(dom, id@))
                &&& (r == StartOutcome::Started ==> final(self).scheduled_in(dom, id@) && final(self).deadline_in(dom, id@) == old(self).cursor_in(dom) + effective_delay(d as int))
                &&& (r != StartOutcome::Started ==> *final(self) == *old(self))
            },
            forall|o: Seq<char>|
                o != id@ ==> final(self).scheduled_in(dom, o) == old(self).scheduled_in(dom, o),
            forall|o: Seq<char>|
                o != id@ && old(self).scheduled_in(dom, o) ==> final(self).deadline_in(dom, o)
                    == old(self).deadline_in(dom, o),
            final(self).wheel_of(other_domain(dom)) == old(self).wheel_of(other_domain(dom)),
            final(self).cursor_in(dom) == old(self).cursor_in(dom),
            final(self).carry() == old(self).carry(),
            final(self).ext_seen_of() == old(self).ext_seen_of(),
            final(self).ext_last_of() == old(self).ext_last_of(),
    {
        match parse_u64(delay_text) {
            None => StartOutcome::ParseError,
            Some(d) => match self.start(dom, id, d) {
                Ok(()) => StartOutcome::Started,
                Err(StartError::AlreadyScheduled) => StartOutcome::AlreadyScheduled,
                Err(StartError::DelayTooLong) => StartOutcome::DelayTooLong,
            },
        }
    }

    /// Cancels the pending timer under `id` in whichever domain holds
    /// one.  Always succeeds; unknown ids are a no-op.
    pub fn stop(&mut self, id: &String) -> (was: bool)
        requires
            old(self).wf(),
        ensures
            final(self).wf(),
            was == (old(self).scheduled_in(TimerDomain::Real, id@) || old(self).scheduled_in(
                TimerDomain::External,
                id@,
            )),
            !final(self).scheduled_in(TimerDomain::Real, id@),
            !final(self).scheduled_in(TimerDomain::External, id@),
            forall|o: Seq<char>|
                o != id@ ==> final(self).scheduled_in(TimerDomain::Real, o) == old(self).scheduled_in(TimerDomain::Real, o),
            forall|o: Seq<char>|
                o != id@ ==> final(self).scheduled_in(TimerDomain::External, o) == old(self).scheduled_in(TimerDomain::External, o),
            forall|o: Seq<char>|
                o != id@ && old(self).scheduled_in(TimerDomain::Real, o) ==> final(self).deadline_in(TimerDomain::Real, o) == old(self).deadline_in(TimerDomain::Real, o),
            forall|o: Seq<char>|
                o != id@ && old(self).scheduled_in(TimerDomain::External, o) ==> final(self).deadline_in(TimerDomain::External, o) == old(self).deadline_in(
                    TimerDomain::External,
                    o,
                ),
            final(self).cursor_in(TimerDomain::Real) == old(self).cursor_in(TimerDomain::Real),
            final(self).cursor_in(TimerDomain::External) == old(self).cursor_in(
                TimerDomain::External,
            ),
            final(self).carry() == old(self).carry(),
            final(self).ext_seen_of() == old(self).ext_seen_of(),
            final(self).ext_last_of() == old(self).ext_last_of(),
    {
        let a = self.real.stop(id);
        let b = self.external.stop(id);
        a || b
    }

    /// One poll: advances the real domain by the whole ticks contained
    /// in the carried-over plus newly elapsed milliseconds, advances the
    /// external domain by the delta of the caller's tick counter, and
    /// returns the expired ids of both domains — external domain first,
    /// each domain's ids in firing order.
    pub fn poll(&mut self, elapsed_ms: u64, ext_count: u64) -> (expired: Vec<String>)
        requires
            old(self).wf(),
            old(self).carry() + elapsed_ms <= u64::MAX,
        ensures
            final(self).wf(),
            final(self).carry() == (old(self).carry() + elapsed_ms) % 100,
            final(self).ext_seen_of(),
            final(self).ext_last_of() == ext_count,
            ({
                let rn = capped(
                    old(self).cursor_in(TimerDomain::Real),
                    (old(self).carry() + elapsed_ms) / 100,
                );
                let en = capped(
                    old(self).cursor_in(TimerDomain::External),
                    ext_elapsed(old(self).ext_seen_of(), old(self).ext_last_of(), ext_count as int),
                );
                &&& final(self).cursor_in(TimerDomain::Real) == old(self).cursor_in(
                    TimerDomain::Real,
                ) + rn
                &&& final(self).cursor_in(TimerDomain::External) == old(self).cursor_in(
                    TimerDomain::External,
                ) + en
                &&& forall|o: Seq<char>|
                    ids_has(expired@, o) <==> ((old(self).scheduled_in(TimerDomain::External, o)
                        && old(self).deadline_in(TimerDomain::External, o) <= old(self).cursor_in(
                        TimerDomain::External,
                    ) + en) || (old(self).scheduled_in(TimerDomain::Real, o) && old(self).deadline_in(TimerDomain::Real, o) <= old(self).cursor_in(TimerDomain::Real)
                        + rn))
                &&& forall|o: Seq<char>|
                    final(self).scheduled_in(TimerDomain::Real, o) <==> (old(self).scheduled_in(
                        TimerDomain::Real,
                        o,
                    ) && old(self).deadline_in(TimerDomain::Real, o) > old(self).cursor_in(
                        TimerDomain::Real,
                    ) + rn)
                &&& forall|o: Seq<char>|
                    final(self).scheduled_in(TimerDomain::External, o) <==> (old(self).scheduled_in(TimerDomain::External, o) && old(self).deadline_in(
                        TimerDomain::External,
                        o,
                    ) > old(self).cursor_in(TimerDomain::External) + en)
                &&& forall|o: Seq<char>|
                    final(self).scheduled_in(TimerDomain::Real, o) ==> final(self).deadline_in(
                        TimerDomain::Real,
                        o,
                    ) == old(self).deadline_in(TimerDomain::Real, o)
                &&& forall|o: Seq<char>|
                    final(self).scheduled_in(TimerDomain::External, o) ==> final(self).deadline_in(TimerDomain::External, o) == old(self).deadline_in(
                        TimerDomain::External,
                        o,
                    )
                &&& exists|k: int| #[trigger] poll_split_at(*old(self), expired@, k, rn, en)
            }),
            (elapsed_ms == 0 && old(self).ext_seen_of() && ext_count == old(self).ext_last_of())
                ==> (*final(self) == *old(self) && expired@.len() == 0),
    {
        let total = self.carry_ms + elapsed_ms;
        let rticks0 = total / 100;
        self.carry_ms = total % 100;
        let rcur = self.real.cursor();
        let rticks = if rticks0 > u64::MAX - rcur {
            u64::MAX - rcur
        } else {
            rticks0
        };
        let eticks0: u64 = if self.ext_seen {
            if ext_count >= self.ext_last {
                ext_count - self.ext_last
            } else {
                0
            }
        } else {
            0
        };
        self.ext_seen = true;
        self.ext_last = ext_count;
        let ecur = self.external.cursor();
        let eticks = if eticks0 > u64::MAX - ecur {
            u64::MAX - ecur
        } else {
            eticks0
        };
        let mut expired = self.external.advance(eticks);
        let ghost ev = expired@;
        let mut rexp = self.real.advance(rticks);
        let ghost rv = rexp@;
        expired.append(&mut rexp);
        proof {
            assert forall|o: Seq<char>| true implies (ids_has(expired@, o) <==> (ids_has(ev, o)
                || ids_has(rv, o))) by {
                crate::wheel::lemma_ids_has_add(ev, rv, o);
            }
            assert(expired@.take(ev.len() as int) =~= ev);
            assert(expired@.skip(ev.len() as int) =~= rv);
            assert(poll_split_at(
                *old(self),
                expired@,
                ev.len() as int,
                capped(old(self).cursor_in(TimerDomain::Real), (old(self).carry() + elapsed_ms) / 100),
                capped(
                    old(self).cursor_in(TimerDomain::External),
                    ext_elapsed(old(self).ext_seen_of(), old(self).ext_last_of(), ext_count as int),
                ),
            ));
            if elapsed_ms == 0 && old(self).ext_seen_of() && ext_count == old(self).ext_last_of() {
                assert(total == old(self).carry());
                assert(total < 100);
                assert(total % 100 == total && total / 100 == 0) by (nonlinear_arith)
                    requires 0 <= total < 100;
                assert(rticks == 0 && eticks == 0);
                assert(*self == *old(self));
            }
        }
        expired
    }

    /// Elapsed whole ticks of one domain's clock.
    pub fn cursor_ticks(&self, dom: TimerDomain) -> (c: u64)
        ensures
            c == self.cursor_in(dom),
    {
        match dom {
            TimerDomain::Real => self.real.cursor(),
            TimerDomain::External => self.external.cursor(),
        }
    }

    /// Milliseconds of elapsed real time carried over, not yet a tick.
    pub fn carry_remainder(&self) -> (m: u64)
        ensures
            m == self.carry(),
    {
        self.carry_ms
    }

    /// The number of whole ticks a given count of elapsed milliseconds
    /// would contribute right now, remainder excluded.
    pub fn real_ticks_for(&self, elapsed_ms: u64) -> (n: u64)
        requires
            self.carry() + elapsed_ms <= u64::MAX,
        ensures
            n == (self.carry() + elapsed_ms) / 100,
    {
        (self.carry_ms + elapsed_ms) / 100
    }
}


/// The carried remainder of the real clock always lies below one
/// tick's worth of milliseconds, so a poll can only move the real
/// cursor forward.
pub proof fn lemma_carry_bound(s: Scheduler)
    requires
        s.wf(),
    ensures
        0 <= s.carry() < 100,
{
}

} // verus!
