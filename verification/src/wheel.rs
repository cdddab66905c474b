//! A cascading tiered tick wheel with an id-keyed registry.
//!
//! The wheel keeps, per pending timer, one entry in exactly one bucket of
//! one tier, and one registry record mapping the timer's id to the token
//! (tier, slot, deadline) locating that entry.  Three tiers of increasing
//! granularity cover delays up to `MAX_DELAY_TICKS` base ticks: a timer
//! whose remaining delay exceeds a tier's span is stored coarsely and
//! re-inserted into a finer tier (the cascade) strictly before its
//! deadline, so draining the finest tier's current slot on each tick
//! yields exactly the timers whose deadline is that tick.

use vstd::prelude::*;
use vstd::arithmetic::div_mod::{lemma_div_is_ordered, lemma_fundamental_div_mod, lemma_fundamental_div_mod_converse_div, lemma_fundamental_div_mod_converse_mod};

verus! {

/// Slots in the finest tier; one slot per base tick.
pub const TIER0_SLOTS: u64 = 10;
/// Slots in the middle tier; one slot per `TIER1_TICKS` base ticks.
pub const TIER1_SLOTS: u64 = 60;
/// Slots in the coarsest tier; one slot per `TIER2_TICKS` base ticks.
pub const TIER2_SLOTS: u64 = 60;
/// Base ticks covered by one middle-tier slot.
pub const TIER1_TICKS: u64 = 10;
/// Base ticks covered by one coarsest-tier slot.
pub const TIER2_TICKS: u64 = 600;
/// Longest representable delay: the full range of the coarsest tier.
pub const MAX_DELAY_TICKS: u64 = 36000;

/// Why a `start` request was refused.
#[derive(Clone, Copy, PartialEq, Eq, Structural, Debug)]
pub enum StartError {
    /// The id already has a pending timer in this domain.
    AlreadyScheduled,
    /// The delay exceeds the range of the coarsest tier.
    DelayTooLong,
}

/// Locates a timer's single wheel entry: its tier, the slot within that
/// tier, and the absolute deadline tick recorded for it.
#[derive(Clone, Copy, PartialEq, Eq, Structural, Debug)]
pub struct Token {
    pub tier: usize,
    pub slot: usize,
    pub deadline: u64,
}

/// One registry record: an id and the token for its wheel entry.
pub struct RegEntry {
    pub id: String,
    pub token: Token,
}

/// The tick wheel of one domain: a cursor counting elapsed base ticks,
/// three tiers of buckets, and the id-keyed registry.
pub struct Wheel {
    cursor: u64,
    tier0: Vec<Vec<String>>,
    tier1: Vec<Vec<String>>,
    tier2: Vec<Vec<String>>,
    registry: Vec<RegEntry>,
}

/// The finest-tier slot in which a timer with deadline `d` waits.
pub open spec fn slot0_of(d: int) -> int {
    d % 10
}

/// The middle-tier slot in which a timer with deadline `d` waits.
pub open spec fn slot1_of(d: int) -> int {
    ((d - 1) / 10) % 60
}

/// The coarsest-tier slot in which a timer with deadline `d` waits.
pub open spec fn slot2_of(d: int) -> int {
    ((d - 1) / 600) % 60
}

/// The tick at which a middle-tier entry with deadline `d` is cascaded:
/// the last multiple of the tier span strictly below `d`.
pub open spec fn casc1_of(d: int) -> int {
    ((d - 1) / 10) * 10
}

/// The tick at which a coarsest-tier entry with deadline `d` is cascaded.
pub open spec fn casc2_of(d: int) -> int {
    ((d - 1) / 600) * 600
}

/// Number of slots of tier `t`.
pub open spec fn tier_slots(t: int) -> int {
    if t == 0 {
        TIER0_SLOTS as int
    } else if t == 1 {
        TIER1_SLOTS as int
    } else {
        TIER2_SLOTS as int
    }
}

/// A timer with a delay of zero still fires one whole tick later: the
/// wheel only reports expiries on tick boundaries.
pub open spec fn effective_delay(delay: int) -> int {
    if delay == 0 {
        1
    } else {
        delay
    }
}

/// Where a timer with deadline `d` is placed when inserted at cursor `c`:
/// the finest tier whose span covers the remaining delay.
pub open spec fn place_of(c: int, d: int) -> (int, int) {
    if d - c <= 10 {
        (0, slot0_of(d))
    } else if d - c <= 600 {
        (1, slot1_of(d))
    } else {
        (2, slot2_of(d))
    }
}

/// An entry resting in tier `t`, slot `s`, with deadline `d`, seen at
/// cursor `c`: the slot is the one computed from `d`, the deadline is
/// still in the future, and the entry will be drained or cascaded before
/// the deadline passes.
pub open spec fn entry_ok(c: int, t: int, s: int, d: int) -> bool {
    if t == 0 {
        s == slot0_of(d) && c < d <= c + 10
    } else if t == 1 {
        s == slot1_of(d) && c < casc1_of(d) && d <= c + 600
    } else if t == 2 {
        s == slot2_of(d) && c < casc2_of(d) && d <= c + 36000
    } else {
        false
    }
}

/// An entry in a slot that the current tick is just processing: a
/// finest-tier entry due to fire now, or a coarser entry due to cascade
/// now (strictly before its deadline).
pub open spec fn entry_due(c: int, t: int, s: int, d: int) -> bool {
    if t == 0 {
        s == slot0_of(d) && d == c
    } else if t == 1 {
        s == slot1_of(d) && casc1_of(d) == c
    } else if t == 2 {
        s == slot2_of(d) && casc2_of(d) == c
    } else {
        false
    }
}

/// Entry placement, with up to one slot per tier (`x0`, `x1`, `x2`;
/// `-1` for none) exempted because the current tick is processing it:
/// entries there are merely due, all others are strictly placed.
pub open spec fn entry_ok_x(c: int, t: int, s: int, d: int, x0: int, x1: int, x2: int) -> bool {
    if (t == 0 && s == x0) || (t == 1 && s == x1) || (t == 2 && s == x2) {
        entry_due(c, t, s, d)
    } else {
        entry_ok(c, t, s, d)
    }
}

/// No two registry records share an id.
pub open spec fn reg_distinct(r: Seq<RegEntry>) -> bool {
    forall|i: int, j: int|
        0 <= i < r.len() && 0 <= j < r.len() && i != j ==> (#[trigger] r[i]).id@ != (#[trigger] r[j]).id@
}

/// Some registry record carries this id.
pub open spec fn reg_has(r: Seq<RegEntry>, id: Seq<char>) -> bool {
    exists|i: int| 0 <= i < r.len() && (#[trigger] r[i]).id@ == id
}

/// The index of the record carrying this id (meaningful when present
/// and ids are distinct).
pub open spec fn reg_find(r: Seq<RegEntry>, id: Seq<char>) -> int {
    choose|i: int| 0 <= i < r.len() && (#[trigger] r[i]).id@ == id
}

impl Wheel {
    /// Elapsed base ticks of this wheel's domain.
    pub closed spec fn cursor_of(self) -> int {
        self.cursor as int
    }

    /// The buckets of tier `t`.
    pub closed spec fn tier_view(self, t: int) -> Seq<Vec<String>> {
        if t == 0 {
            self.tier0@
        } else if t == 1 {
            self.tier1@
        } else {
            self.tier2@
        }
    }

    /// The ids resting in bucket `s` of tier `t`.
    pub closed spec fn bucket(self, t: int, s: int) -> Seq<String> {
        self.tier_view(t)[s]@
    }

    /// The registry contents.
    pub closed spec fn reg(self) -> Seq<RegEntry> {
        self.registry@
    }

    /// The id has a pending timer.
    pub closed spec fn scheduled(self, id: Seq<char>) -> bool {
        reg_has(self.registry@, id)
    }

    /// The absolute tick at which the pending timer for `id` fires
    /// (meaningful when `scheduled(id)`).
    pub closed spec fn deadline_of(self, id: Seq<char>) -> int {
        self.registry@[reg_find(self.registry@, id)].token.deadline as int
    }

    /// The ids of all pending timers, in registry order.
    pub closed spec fn pending_ids(self) -> Seq<Seq<char>> {
        Seq::new(self.registry@.len(), |i: int| self.registry@[i].id@)
    }

    /// Bucket `s` of tier `t` holds an entry with this id.
    pub closed spec fn bucket_has(self, t: int, s: int, id: Seq<char>) -> bool {
        exists|k: int| 0 <= k < self.bucket(t, s).len() && (#[trigger] self.bucket(t, s)[k])@ == id
    }

    /// Every bucket entry is backed by a registry record whose token
    /// names exactly that bucket.
    pub closed spec fn entry_backed(self, t: int, s: int, idstr: String) -> bool {
        exists|i: int|
            0 <= i < self.registry@.len() && (#[trigger] self.registry@[i]).id@ == idstr@
                && self.registry@[i].token.tier == t && self.registry@[i].token.slot == s
    }

    pub closed spec fn buckets_backed(self, t: int) -> bool {
        forall|s: int, k: int|
            0 <= s < self.tier_view(t).len() && 0 <= k < self.bucket(t, s).len()
                ==> self.entry_backed(t, s, #[trigger] self.bucket(t, s)[k])
    }

    /// No bucket holds the same id twice.
    pub closed spec fn buckets_distinct(self, t: int) -> bool {
        forall|s: int, k1: int, k2: int|
            #![trigger self.bucket(t, s)[k1], self.bucket(t, s)[k2]]
            0 <= s < self.tier_view(t).len() && 0 <= k1 < self.bucket(t, s).len()
                && 0 <= k2 < self.bucket(t, s).len() && k1 != k2
                ==> self.bucket(t, s)[k1]@ != self.bucket(t, s)[k2]@
    }

    /// One registry record is sound: its token names a real tier and
    /// slot, the entry is placed correctly for the current cursor, and
    /// the named bucket really holds the id.
    pub closed spec fn reg_entry_ok(self, e: RegEntry, x0: int, x1: int, x2: int) -> bool {
        &&& 0 <= e.token.tier < 3
        &&& 0 <= e.token.slot < tier_slots(e.token.tier as int)
        &&& entry_ok_x(
            self.cursor as int,
            e.token.tier as int,
            e.token.slot as int,
            e.token.deadline as int,
            x0,
            x1,
            x2,
        )
        &&& self.bucket_has(e.token.tier as int, e.token.slot as int, e.id@)
    }

    pub closed spec fn sizes_ok(self) -> bool {
        &&& self.tier0@.len() == 10
        &&& self.tier1@.len() == 60
        &&& self.tier2@.len() == 60
    }

    /// Well-formedness with exemptions: the invariant that holds while
    /// one tick is part-way through draining and cascading the slots
    /// `x0`, `x1`, `x2` of the three tiers (`-1`: no exemption).
    pub closed spec fn wf_x(self, x0: int, x1: int, x2: int) -> bool {
        &&& self.sizes_ok()
        &&& reg_distinct(self.registry@)
        &&& forall|i: int|
            0 <= i < self.registry@.len() ==> self.reg_entry_ok(#[trigger] self.registry@[i], x0, x1, x2)
        &&& self.buckets_backed(0) && self.buckets_backed(1) && self.buckets_backed(2)
        &&& self.buckets_distinct(0) && self.buckets_distinct(1) && self.buckets_distinct(2)
    }

    /// Well-formedness at rest: every pending timer has exactly one
    /// registry record and one correctly placed bucket entry.
    pub closed spec fn wf(self) -> bool {
        self.wf_x(-1, -1, -1)
    }
}

/// The cascade point of a deadline sits in the window `[d - g, d)` and
/// is a multiple of the tier span `g`.
proof fn lemma_casc_bounds(d: int, g: int)
    requires
        g >= 1,
    ensures
        ((d - 1) / g) * g <= d - 1,
        d <= ((d - 1) / g) * g + g,
        (((d - 1) / g) * g) % g == 0,
        (((d - 1) / g) * g) / g == (d - 1) / g,
{
    lemma_fundamental_div_mod(d - 1, g);
    let q = (d - 1) / g;
    let r = (d - 1) % g;
    assert(0 <= r < g);
    assert(d - 1 == g * q + r);
    assert(q * g == d - 1 - r) by (nonlinear_arith)
        requires d - 1 == g * q + r;
    lemma_fundamental_div_mod_converse_div(q * g, g, q, 0);
    lemma_fundamental_div_mod_converse_mod(q * g, g, q, 0);
}

/// Two values in a window narrower than `m` with equal residues are equal.
proof fn lemma_mod_window(a: int, b: int, m: int)
    requires
        m >= 1,
        b <= a < b + m,
        a % m == b % m,
    ensures
        a == b,
{
    lemma_fundamental_div_mod(a, m);
    lemma_fundamental_div_mod(b, m);
    let k = a / m - b / m;
    assert(a - b == m * k) by (nonlinear_arith)
        requires
            a == m * (a / m) + a % m,
            b == m * (b / m) + b % m,
            a % m == b % m,
            k == a / m - b / m;
    assert(0 <= m * k < m);
    assert(k == 0) by (nonlinear_arith)
        requires 0 <= m * k < m, m >= 1;
}

/// A multiple of `g` recovered from its quotient: `(q * g) / g == q`.
proof fn lemma_mul_div_cancel(q: int, g: int)
    requires
        g >= 1,
    ensures
        (q * g) / g == q,
        (q * g) % g == 0,
{
    lemma_fundamental_div_mod_converse_div(q * g, g, q, 0);
    lemma_fundamental_div_mod_converse_mod(q * g, g, q, 0);
}

impl Wheel {
    /// A fresh wheel: cursor at zero, all buckets empty, nothing pending.
    pub fn new() -> (w: Wheel)
        ensures
            w.wf(),
            w.cursor_of() == 0,
            forall|id: Seq<char>| !w.scheduled(id),
    {
        let tier0 = Self::empty_buckets(TIER0_SLOTS as usize);
        let tier1 = Self::empty_buckets(TIER1_SLOTS as usize);
        let tier2 = Self::empty_buckets(TIER2_SLOTS as usize);
        let w = Wheel { cursor: 0, tier0, tier1, tier2, registry: Vec::new() };
        proof {
            assert forall|t: int, s: int|
                0 <= t < 3 && 0 <= s < w.tier_view(t).len() implies w.bucket(t, s).len() == 0 by {}
        }
        w
    }

    fn empty_buckets(n: usize) -> (v: Vec<Vec<String>>)
        ensures
            v@.len() == n,
            forall|j: int| 0 <= j < n ==> (#[trigger] v@[j])@.len() == 0,
    {
        let mut v: Vec<Vec<String>> = Vec::new();
        let mut i: usize = 0;
        while i < n
            invariant
                i <= n,
                v@.len() == i,
                forall|j: int| 0 <= j < i ==> (#[trigger] v@[j])@.len() == 0,
            decreases n - i,
        {
            v.push(Vec::new());
            i = i + 1;
        }
        v
    }

    /// Linear scan of the registry for an id.
    fn find_reg(&self, id: &String) -> (r: Option<usize>)
        ensures
            match r {
                Some(i) => 0 <= i < self.reg().len() && self.reg()[i as int].id@ == id@,
                None => !self.scheduled(id@),
            },
    {
        let mut i: usize = 0;
        while i < self.registry.len()
            invariant
                i <= self.registry@.len(),
                forall|k: int| 0 <= k < i ==> (#[trigger] self.registry@[k]).id@ != id@,
            decreases self.registry@.len() - i,
        {
            if self.registry[i].id == *id {
                return Some(i);
            }
            i = i + 1;
        }
        None
    }

    /// Whether an id currently has a pending timer.
    pub fn is_scheduled(&self, id: &String) -> (b: bool)
        ensures
            b == self.scheduled(id@),
    {
        self.find_reg(id).is_some()
    }

    /// Number of entries waiting in one bucket.
    fn bucket_len(&self, t: usize, s: usize) -> (n: usize)
        requires
            t < 3,
            s < self.tier_view(t as int).len(),
        ensures
            n == self.bucket(t as int, s as int).len(),
    {
        if t == 0 {
            self.tier0[s].len()
        } else if t == 1 {
            self.tier1[s].len()
        } else {
            self.tier2[s].len()
        }
    }

    /// Appends an id to one bucket, leaving everything else unchanged.
    fn bucket_push(&mut self, t: usize, s: usize, id: String)
        requires
            t < 3,
            s < old(self).tier_view(t as int).len(),
        ensures
            final(self).cursor_of() == old(self).cursor_of(),
            final(self).reg() == old(self).reg(),
            final(self).bucket(t as int, s as int) == old(self).bucket(t as int, s as int).push(id),
            forall|u: int, j: int|
                0 <= u < 3 && 0 <= j < old(self).tier_view(u).len() && !(u == t && j == s)
                    ==> final(self).bucket(u, j) == old(self).bucket(u, j),
            forall|u: int| 0 <= u < 3 ==> final(self).tier_view(u).len() == old(self).tier_view(u).len(),
    {
        if t == 0 {
            self.tier0[s].push(id);
        } else if t == 1 {
            self.tier1[s].push(id);
        } else {
            self.tier2[s].push(id);
        }
    }

    /// Removes and returns the last id of one bucket.
    fn bucket_pop(&mut self, t: usize, s: usize) -> (id: String)
        requires
            t < 3,
            s < old(self).tier_view(t as int).len(),
            old(self).bucket(t as int, s as int).len() > 0,
        ensures
            id == old(self).bucket(t as int, s as int).last(),
            final(self).cursor_of() == old(self).cursor_of(),
            final(self).reg() == old(self).reg(),
            final(self).bucket(t as int, s as int) == old(self).bucket(t as int, s as int).drop_last(),
            forall|u: int, j: int|
                0 <= u < 3 && 0 <= j < old(self).tier_view(u).len() && !(u == t && j == s)
                    ==> final(self).bucket(u, j) == old(self).bucket(u, j),
            forall|u: int| 0 <= u < 3 ==> final(self).tier_view(u).len() == old(self).tier_view(u).len(),
    {
        let r = if t == 0 {
            self.tier0[s].pop()
        } else if t == 1 {
            self.tier1[s].pop()
        } else {
            self.tier2[s].pop()
        };
        match r {
            Some(id) => id,
            None => vstd::pervasive::unreached(),
        }
    }

    /// Computes the tier and slot for a deadline inserted at `cursor`.
    fn place(cursor: u64, deadline: u64) -> (r: (usize, usize))
        requires
            cursor < deadline,
            deadline <= cursor + 36000,
        ensures
            (r.0 as int, r.1 as int) == place_of(cursor as int, deadline as int),
            0 <= r.0 < 3,
            0 <= r.1 < tier_slots(r.0 as int),
            entry_ok(cursor as int, r.0 as int, r.1 as int, deadline as int),
    {
        let rem = deadline - cursor;
        if rem <= TIER1_TICKS {
            let s = (deadline % 10) as usize;
            (0usize, s)
        } else if rem <= TIER2_TICKS {
            let s = (((deadline - 1) / 10) % 60) as usize;
            proof {
                lemma_casc_bounds(deadline as int, 10);
            }
            (1usize, s)
        } else {
            let s = (((deadline - 1) / 600) % 60) as usize;
            proof {
                lemma_casc_bounds(deadline as int, 600);
            }
            (2usize, s)
        }
    }

    /// Places a timer with an absolute deadline, adding the bucket entry
    /// and the backing registry record.  The target bucket must not be a
    /// slot the current tick is still processing.
    fn insert_at(
        &mut self,
        id: String,
        deadline: u64,
        Ghost(x0): Ghost<int>,
        Ghost(x1): Ghost<int>,
        Ghost(x2): Ghost<int>,
    )
        requires
            old(self).wf_x(x0, x1, x2),
            !old(self).scheduled(id@),
            old(self).cursor_of() < deadline <= old(self).cursor_of() + 36000,
            ({
                let (t, s) = place_of(old(self).cursor_of(), deadline as int);
                !(t == 0 && s == x0) && !(t == 1 && s == x1) && !(t == 2 && s == x2)
            }),
        ensures
            final(self).wf_x(x0, x1, x2),
            final(self).cursor_of() == old(self).cursor_of(),
            final(self).scheduled(id@),
            final(self).deadline_of(id@) == deadline,
            forall|o: Seq<char>| o != id@ ==> final(self).scheduled(o) == old(self).scheduled(o),
            forall|o: Seq<char>|
                o != id@ && old(self).scheduled(o)
                    ==> final(self).deadline_of(o) == old(self).deadline_of(o),
            forall|u: int, j: int|
                0 <= u < 3 && 0 <= j < old(self).tier_view(u).len()
                    && (u, j) != place_of(old(self).cursor_of(), deadline as int)
                    ==> final(self).bucket(u, j) == old(self).bucket(u, j),
            forall|u: int| 0 <= u < 3 ==> final(self).tier_view(u).len() == old(self).tier_view(u).len(),
    {
        let ghost pre = *self;
        let (t, s) = Self::place(self.cursor, deadline);
        self.bucket_push(t, s, id.clone());
        let tok = Token { tier: t, slot: s, deadline };
        self.registry.push(RegEntry { id, token: tok });
        proof {
            let post = *self;
            let c = pre.cursor as int;
            let ti = t as int;
            let si = s as int;
            let n = pre.registry@.len() as int;
            assert(post.registry@.len() == n + 1);
            assert(forall|i: int| 0 <= i < n ==> post.registry@[i] == pre.registry@[i]);
            assert(post.registry@[n].id@ == id@ && post.registry@[n].token == tok);
            // the new id is on no old registry record
            assert(forall|i: int| 0 <= i < n ==> (#[trigger] pre.registry@[i]).id@ != id@);
            assert(reg_distinct(post.registry@));
            // buckets: only (t, s) changed, by one pushed entry
            assert(post.bucket(ti, si) == pre.bucket(ti, si).push(id));
            // bucket membership is preserved in both directions
            assert forall|u: int, j: int, idc: Seq<char>|
                0 <= u < 3 && 0 <= j < pre.tier_view(u).len() && pre.bucket_has(u, j, idc)
                implies post.bucket_has(u, j, idc) by {
                let k = choose|k: int|
                    0 <= k < pre.bucket(u, j).len() && (#[trigger] pre.bucket(u, j)[k])@ == idc;
                assert(post.bucket(u, j)[k]@ == idc);
            }
            // old registry records remain sound
            assert forall|i: int| 0 <= i < n implies post.reg_entry_ok(
                #[trigger] post.registry@[i],
                x0,
                x1,
                x2,
            ) by {
                let e = pre.registry@[i];
                assert(pre.reg_entry_ok(e, x0, x1, x2));
                assert(pre.bucket_has(e.token.tier as int, e.token.slot as int, e.id@));
                assert(post.bucket_has(e.token.tier as int, e.token.slot as int, e.id@));
            }
            // the new record is sound
            assert(entry_ok(c, ti, si, deadline as int));
            assert(post.bucket(ti, si)[pre.bucket(ti, si).len() as int]@ == id@);
            assert(post.bucket_has(ti, si, id@));
            assert(post.reg_entry_ok(post.registry@[n], x0, x1, x2));
            // every bucket entry is still backed
            assert forall|u: int, j: int, k: int|
                0 <= u < 3 && 0 <= j < post.tier_view(u).len() && 0 <= k < post.bucket(u, j).len()
                implies post.entry_backed(u, j, post.bucket(u, j)[k]) by {
                if u == ti && j == si && k == pre.bucket(ti, si).len() {
                    assert(post.registry@[n].id@ == post.bucket(u, j)[k]@);
                } else {
                    assert(post.bucket(u, j)[k] == pre.bucket(u, j)[k]);
                    assert(pre.entry_backed(u, j, pre.bucket(u, j)[k]));
                    let i = choose|i: int|
                        0 <= i < n && (#[trigger] pre.registry@[i]).id@ == pre.bucket(u, j)[k]@
                            && pre.registry@[i].token.tier == u && pre.registry@[i].token.slot == j;
                    assert(post.registry@[i].id@ == post.bucket(u, j)[k]@);
                }
            }
            assert(post.buckets_backed(0) && post.buckets_backed(1) && post.buckets_backed(2));
            // the pushed id is new to its bucket, so buckets stay duplicate-free
            assert forall|k: int| 0 <= k < pre.bucket(ti, si).len()
                implies (#[trigger] pre.bucket(ti, si)[k])@ != id@ by {
                if pre.bucket(ti, si)[k]@ == id@ {
                    assert(pre.entry_backed(ti, si, pre.bucket(ti, si)[k]));
                    assert(pre.scheduled(id@));
                }
            }
            assert forall|u: int, s2: int, k1: int, k2: int|
                0 <= u < 3 && 0 <= s2 < post.tier_view(u).len() && 0 <= k1 < post.bucket(u, s2).len()
                    && 0 <= k2 < post.bucket(u, s2).len() && k1 != k2
                implies post.bucket(u, s2)[k1]@ != post.bucket(u, s2)[k2]@ by {
                if u == ti && s2 == si {
                    let blen = pre.bucket(ti, si).len() as int;
                    if k1 < blen && k2 < blen {
                        assert(pre.bucket(u, s2)[k1]@ != pre.bucket(u, s2)[k2]@);
                    }
                } else {
                    assert(post.bucket(u, s2) == pre.bucket(u, s2));
                }
            }
            assert(post.buckets_distinct(0) && post.buckets_distinct(1) && post.buckets_distinct(2));
            assert(post.tier_view(0).len() == pre.tier_view(0).len());
            assert(post.tier_view(1).len() == pre.tier_view(1).len());
            assert(post.tier_view(2).len() == pre.tier_view(2).len());
            assert(post.sizes_ok());
            assert forall|i: int| 0 <= i < post.registry@.len() implies post.reg_entry_ok(
                #[trigger] post.registry@[i],
                x0,
                x1,
                x2,
            ) by {
                if i == n {
                    assert(post.reg_entry_ok(post.registry@[n], x0, x1, x2));
                }
            }
            assert(post.wf_x(x0, x1, x2));
            // lookups: the new id maps to the new record, others unchanged
            lemma_reg_find_is(post.registry@, id@, n);
            assert forall|o: Seq<char>| o != id@ implies post.scheduled(o) == pre.scheduled(o) by {
                if post.scheduled(o) {
                    let i = choose|i: int|
                        0 <= i < post.registry@.len() && (#[trigger] post.registry@[i]).id@ == o;
                    assert(i < n && pre.registry@[i].id@ == o);
                }
            }
            assert forall|o: Seq<char>| o != id@ && pre.scheduled(o)
                implies post.deadline_of(o) == pre.deadline_of(o) by {
                let i = choose|i: int|
                    0 <= i < pre.registry@.len() && (#[trigger] pre.registry@[i]).id@ == o;
                lemma_reg_find_is(pre.registry@, o, i);
                lemma_reg_find_is(post.registry@, o, i);
            }
        }
    }
}

impl Wheel {
    /// Registers a timer under a fresh id, to fire `delay` ticks from
    /// now (a zero delay fires at the next tick).  Rejects an id that is
    /// already pending and a delay beyond the coarsest tier's range; a
    /// rejected request changes nothing.
    pub fn start(&mut self, id: String, delay: u64) -> (r: Result<(), StartError>)
        requires
            old(self).wf(),
            old(self).cursor_of() + 36001 <= u64::MAX,
        ensures
            final(self).wf(),
            final(self).cursor_of() == old(self).cursor_of(),
            r is Ok <==> (!old(self).scheduled(id@) && delay <= MAX_DELAY_TICKS),
            r == Err::<(), StartError>(StartError::AlreadyScheduled) <==> old(self).scheduled(id@),
            r is Ok ==> final(self).scheduled(id@) && final(self).deadline_of(id@)
                == old(self).cursor_of() + effective_delay(delay as int),
            forall|o: Seq<char>| o != id@ ==> final(self).scheduled(o) == old(self).scheduled(o),
            forall|o: Seq<char>|
                o != id@ && old(self).scheduled(o)
                    ==> final(self).deadline_of(o) == old(self).deadline_of(o),
            r is Err ==> *final(self) == *old(self),
    {
        if self.find_reg(&id).is_some() {
            return Err(StartError::AlreadyScheduled);
        }
        if delay > MAX_DELAY_TICKS {
            return Err(StartError::DelayTooLong);
        }
        let eff: u64 = if delay == 0 {
            1
        } else {
            delay
        };
        let deadline = self.cursor + eff;
        self.insert_at(id, deadline, Ghost(-1), Ghost(-1), Ghost(-1));
        Ok(())
    }

    /// Cancels the pending timer under `id`, if any; the id will never
    /// be reported as expired afterwards.  Unknown ids are a no-op.
    pub fn stop(&mut self, id: &String) -> (was: bool)
        requires
            old(self).wf(),
        ensures
            final(self).wf(),
            final(self).cursor_of() == old(self).cursor_of(),
            was == old(self).scheduled(id@),
            !final(self).scheduled(id@),
            forall|o: Seq<char>| o != id@ ==> final(self).scheduled(o) == old(self).scheduled(o),
            forall|o: Seq<char>|
                o != id@ && old(self).scheduled(o)
                    ==> final(self).deadline_of(o) == old(self).deadline_of(o),
    {
        let found = self.find_reg(id);
        match found {
            None => false,
            Some(i) => {
                let tok = self.registry[i].token;
                proof {
                    assert(self.reg_entry_ok(self.registry@[i as int], -1, -1, -1));
                }
                let k = self.bucket_find(tok.tier, tok.slot, id);
                self.remove_pair(i, k, Ghost(-1), Ghost(-1), Ghost(-1));
                true
            },
        }
    }

    /// Removes and returns a clone of one bucket entry's id.
    fn bucket_get(&self, t: usize, s: usize, k: usize) -> (id: String)
        requires
            t < 3,
            s < self.tier_view(t as int).len(),
            k < self.bucket(t as int, s as int).len(),
        ensures
            id == self.bucket(t as int, s as int)[k as int],
    {
        if t == 0 {
            self.tier0[s][k].clone()
        } else if t == 1 {
            self.tier1[s][k].clone()
        } else {
            self.tier2[s][k].clone()
        }
    }

    /// Removes the last entry of one bucket together with its registry
    /// record, returning the id and its recorded deadline.
    fn detach_last(
        &mut self,
        t: usize,
        s: usize,
        Ghost(x0): Ghost<int>,
        Ghost(x1): Ghost<int>,
        Ghost(x2): Ghost<int>,
    ) -> (r: (String, u64))
        requires
            old(self).wf_x(x0, x1, x2),
            t < 3,
            s < old(self).tier_view(t as int).len(),
            old(self).bucket(t as int, s as int).len() > 0,
        ensures
            final(self).wf_x(x0, x1, x2),
            final(self).cursor_of() == old(self).cursor_of(),
            old(self).scheduled(r.0@),
            old(self).deadline_of(r.0@) == r.1,
            entry_ok_x(old(self).cursor_of(), t as int, s as int, r.1 as int, x0, x1, x2),
            !final(self).scheduled(r.0@),
            forall|o: Seq<char>| o != r.0@ ==> final(self).scheduled(o) == old(self).scheduled(o),
            forall|o: Seq<char>|
                o != r.0@ && old(self).scheduled(o)
                    ==> final(self).deadline_of(o) == old(self).deadline_of(o),
            final(self).bucket(t as int, s as int) == old(self).bucket(
                t as int,
                s as int,
            ).drop_last(),
            forall|u: int, j: int|
                0 <= u < 3 && 0 <= j < old(self).tier_view(u).len() && !(u == t && j == s)
                    ==> final(self).bucket(u, j) == old(self).bucket(u, j),
            forall|u: int| 0 <= u < 3 ==> final(self).tier_view(u).len() == old(self).tier_view(u).len(),
    {
        let n = self.bucket_len(t, s);
        let k = n - 1;
        let id = self.bucket_get(t, s, k);
        let ghost ti = t as int;
        let ghost si = s as int;
        let ghost ki = k as int;
        proof {
            assert(self.entry_backed(ti, si, self.bucket(ti, si)[ki]));
            let b = choose|b: int|
                0 <= b < self.registry@.len() && (#[trigger] self.registry@[b]).id@ == id@
                    && self.registry@[b].token.tier == ti && self.registry@[b].token.slot == si;
            assert(self.scheduled(id@));
        }
        let iopt = self.find_reg(&id);
        let i = match iopt {
            Some(i) => i,
            None => vstd::pervasive::unreached(),
        };
        let tok = self.registry[i].token;
        proof {
            let ii = i as int;
            let b = choose|b: int|
                0 <= b < self.registry@.len() && (#[trigger] self.registry@[b]).id@ == id@
                    && self.registry@[b].token.tier == ti && self.registry@[b].token.slot == si;
            assert(b == ii);
            assert(tok.tier == t && tok.slot == s);
            lemma_reg_find_is(self.registry@, id@, ii);
            assert(self.deadline_of(id@) == tok.deadline);
            assert(self.reg_entry_ok(self.registry@[ii], x0, x1, x2));
            assert(entry_ok_x(self.cursor_of(), ti, si, tok.deadline as int, x0, x1, x2));
        }
        self.remove_pair(i, k, Ghost(x0), Ghost(x1), Ghost(x2));
        proof {
            let pre = *old(self);
            assert(pre.bucket(ti, si).remove(ki) =~= pre.bucket(ti, si).drop_last());
        }
        (id, tok.deadline)
    }

    /// Removes one pending timer: the registry record at `i` and the
    /// bucket entry at index `k` of the bucket its token names.
    #[verifier::rlimit(60)]
    fn remove_pair(
        &mut self,
        i: usize,
        k: usize,
        Ghost(x0): Ghost<int>,
        Ghost(x1): Ghost<int>,
        Ghost(x2): Ghost<int>,
    )
        requires
            old(self).wf_x(x0, x1, x2),
            i < old(self).reg().len(),
            k < old(self).bucket(
                old(self).reg()[i as int].token.tier as int,
                old(self).reg()[i as int].token.slot as int,
            ).len(),
            old(self).bucket(
                old(self).reg()[i as int].token.tier as int,
                old(self).reg()[i as int].token.slot as int,
            )[k as int]@ == old(self).reg()[i as int].id@,
        ensures
            ({
                let e = old(self).reg()[i as int];
                let et = e.token.tier as int;
                let es = e.token.slot as int;
                &&& final(self).wf_x(x0, x1, x2)
                &&& final(self).cursor_of() == old(self).cursor_of()
                &&& !final(self).scheduled(e.id@)
                &&& forall|o: Seq<char>|
                    o != e.id@ ==> final(self).scheduled(o) == old(self).scheduled(o)
                &&& forall|o: Seq<char>|
                    o != e.id@ && old(self).scheduled(o)
                        ==> final(self).deadline_of(o) == old(self).deadline_of(o)
                &&& final(self).bucket(et, es) == old(self).bucket(et, es).remove(k as int)
                &&& forall|u: int, j: int|
                    0 <= u < 3 && 0 <= j < old(self).tier_view(u).len() && !(u == et && j == es)
                        ==> final(self).bucket(u, j) == old(self).bucket(u, j)
                &&& forall|u: int|
                    0 <= u < 3 ==> final(self).tier_view(u).len() == old(self).tier_view(u).len()
            }),
    {
        let ghost pre = *self;
        let ghost idv = pre.registry@[i as int].id@;
        let tok = self.registry[i].token;
        proof {
            assert(pre.reg_entry_ok(pre.registry@[i as int], x0, x1, x2));
        }
        let t = tok.tier;
        let s = tok.slot;
        self.bucket_remove(t, s, k);
        self.registry.remove(i);
        proof {
            let post = *self;
            let ti = t as int;
            let si = s as int;
            let ki = k as int;
            let ii = i as int;
            let n = pre.registry@.len() as int;
            pre.registry@.remove_ensures(ii);
            pre.bucket(ti, si).remove_ensures(ki);
            assert(post.registry@ == pre.registry@.remove(ii));
            assert(post.bucket(ti, si) == pre.bucket(ti, si).remove(ki));
            // distinctness survives removal
            assert forall|a: int, b: int|
                0 <= a < post.registry@.len() && 0 <= b < post.registry@.len() && a != b
                implies (#[trigger] post.registry@[a]).id@
                    != (#[trigger] post.registry@[b]).id@ by {
                let a0 = if a < ii { a } else { a + 1 };
                let b0 = if b < ii { b } else { b + 1 };
                assert(post.registry@[a] == pre.registry@[a0]);
                assert(post.registry@[b] == pre.registry@[b0]);
            }
            // the removed id is gone
            assert forall|a: int| 0 <= a < post.registry@.len()
                implies (#[trigger] post.registry@[a]).id@ != idv by {
                let a0 = if a < ii { a } else { a + 1 };
                assert(post.registry@[a] == pre.registry@[a0]);
                if a0 != ii && pre.registry@[a0].id@ == idv {
                    assert(pre.registry@[a0].id@ != pre.registry@[ii].id@);
                }
            }
            assert(!post.scheduled(idv));
            // no other bucket entry carried this id, and within the
            // bucket only index k did
            assert forall|u: int, j: int, kk: int|
                0 <= u < 3 && 0 <= j < pre.tier_view(u).len()
                    && 0 <= kk < pre.bucket(u, j).len() && !(u == ti && j == si && kk == ki)
                implies (#[trigger] pre.bucket(u, j)[kk])@ != idv by {
                if pre.bucket(u, j)[kk]@ == idv {
                    assert(pre.entry_backed(u, j, pre.bucket(u, j)[kk]));
                    let b = choose|b: int|
                        0 <= b < n && (#[trigger] pre.registry@[b]).id@ == idv
                            && pre.registry@[b].token.tier == u
                            && pre.registry@[b].token.slot == j;
                    assert(b == ii);
                    assert(u == ti && j == si);
                    assert(pre.bucket(ti, si)[kk]@ == pre.bucket(ti, si)[ki]@);
                }
            }
            // remaining registry records stay sound
            assert forall|a: int| 0 <= a < post.registry@.len()
                implies post.reg_entry_ok(#[trigger] post.registry@[a], x0, x1, x2) by {
                let a0 = if a < ii { a } else { a + 1 };
                let e = pre.registry@[a0];
                assert(post.registry@[a] == e);
                assert(pre.reg_entry_ok(e, x0, x1, x2));
                let et = e.token.tier as int;
                let es = e.token.slot as int;
                let w = choose|w: int|
                    0 <= w < pre.bucket(et, es).len()
                        && (#[trigger] pre.bucket(et, es)[w])@ == e.id@;
                if et == ti && es == si {
                    assert(e.id@ != idv);
                    assert(w != ki);
                    let w2 = if w < ki { w } else { w - 1 };
                    assert(post.bucket(et, es)[w2]@ == e.id@);
                } else {
                    assert(post.bucket(et, es) == pre.bucket(et, es));
                    assert(post.bucket(et, es)[w]@ == e.id@);
                }
                assert(post.bucket_has(et, es, e.id@));
            }
            // bucket entries stay backed
            assert forall|u: int, j: int, kk: int|
                0 <= u < 3 && 0 <= j < post.tier_view(u).len()
                    && 0 <= kk < post.bucket(u, j).len()
                implies post.entry_backed(u, j, post.bucket(u, j)[kk]) by {
                let kk0 = if u == ti && j == si && kk >= ki { kk + 1 } else { kk };
                assert(post.bucket(u, j)[kk] == pre.bucket(u, j)[kk0]);
                assert(pre.entry_backed(u, j, pre.bucket(u, j)[kk0]));
                let b = choose|b: int|
                    0 <= b < n && (#[trigger] pre.registry@[b]).id@ == pre.bucket(u, j)[kk0]@
                        && pre.registry@[b].token.tier == u
                        && pre.registry@[b].token.slot == j;
                assert(pre.bucket(u, j)[kk0]@ != idv);
                assert(b != ii);
                let b2 = if b < ii { b } else { b - 1 };
                assert(post.registry@[b2] == pre.registry@[b]);
            }
            // buckets stay duplicate-free
            assert forall|u: int, j: int, k1: int, k2: int|
                0 <= u < 3 && 0 <= j < post.tier_view(u).len()
                    && 0 <= k1 < post.bucket(u, j).len() && 0 <= k2 < post.bucket(u, j).len()
                    && k1 != k2
                implies post.bucket(u, j)[k1]@ != post.bucket(u, j)[k2]@ by {
                let k10 = if u == ti && j == si && k1 >= ki { k1 + 1 } else { k1 };
                let k20 = if u == ti && j == si && k2 >= ki { k2 + 1 } else { k2 };
                assert(post.bucket(u, j)[k1] == pre.bucket(u, j)[k10]);
                assert(post.bucket(u, j)[k2] == pre.bucket(u, j)[k20]);
            }
            assert(post.tier_view(0).len() == pre.tier_view(0).len());
            assert(post.tier_view(1).len() == pre.tier_view(1).len());
            assert(post.tier_view(2).len() == pre.tier_view(2).len());
            assert(post.sizes_ok());
            assert(post.wf_x(x0, x1, x2));
            // lookups for other ids are unchanged
            assert forall|o: Seq<char>| o != idv
                implies post.scheduled(o) == pre.scheduled(o) by {
                if pre.scheduled(o) {
                    let b = choose|b: int|
                        0 <= b < n && (#[trigger] pre.registry@[b]).id@ == o;
                    assert(b != ii);
                    let b2 = if b < ii { b } else { b - 1 };
                    assert(post.registry@[b2].id@ == o);
                }
                if post.scheduled(o) {
                    let b = choose|b: int|
                        0 <= b < post.registry@.len()
                            && (#[trigger] post.registry@[b]).id@ == o;
                    let b0 = if b < ii { b } else { b + 1 };
                    assert(pre.registry@[b0].id@ == o);
                }
            }
            assert forall|o: Seq<char>| o != idv && pre.scheduled(o)
                implies post.deadline_of(o) == pre.deadline_of(o) by {
                let b = choose|b: int|
                    0 <= b < n && (#[trigger] pre.registry@[b]).id@ == o;
                assert(b != ii);
                let b2 = if b < ii { b } else { b - 1 };
                lemma_reg_find_is(pre.registry@, o, b);
                lemma_reg_find_is(post.registry@, o, b2);
                assert(post.registry@[b2] == pre.registry@[b]);
            }
        }
    }

    /// Index of an id inside one bucket that is known to hold it.
    fn bucket_find(&self, t: usize, s: usize, id: &String) -> (k: usize)
        requires
            t < 3,
            s < self.tier_view(t as int).len(),
            self.bucket_has(t as int, s as int, id@),
        ensures
            k < self.bucket(t as int, s as int).len(),
            self.bucket(t as int, s as int)[k as int]@ == id@,
    {
        let n = self.bucket_len(t, s);
        let mut k: usize = 0;
        while k < n
            invariant
                t < 3,
                s < self.tier_view(t as int).len(),
                self.bucket_has(t as int, s as int, id@),
                n == self.bucket(t as int, s as int).len(),
                k <= n,
                forall|j: int|
                    0 <= j < k ==> (#[trigger] self.bucket(t as int, s as int)[j])@ != id@,
            decreases n - k,
        {
            let hit = if t == 0 {
                self.tier0[s][k] == *id
            } else if t == 1 {
                self.tier1[s][k] == *id
            } else {
                self.tier2[s][k] == *id
            };
            if hit {
                return k;
            }
            k = k + 1;
        }
        proof {
            assert(false);
        }
        0
    }

    /// Removes the entry at index `k` of one bucket.
    fn bucket_remove(&mut self, t: usize, s: usize, k: usize)
        requires
            t < 3,
            s < old(self).tier_view(t as int).len(),
            k < old(self).bucket(t as int, s as int).len(),
        ensures
            final(self).cursor_of() == old(self).cursor_of(),
            final(self).reg() == old(self).reg(),
            final(self).bucket(t as int, s as int) == old(self).bucket(t as int, s as int).remove(
                k as int,
            ),
            forall|u: int, j: int|
                0 <= u < 3 && 0 <= j < old(self).tier_view(u).len() && !(u == t && j == s)
                    ==> final(self).bucket(u, j) == old(self).bucket(u, j),
            forall|u: int| 0 <= u < 3 ==> final(self).tier_view(u).len() == old(self).tier_view(u).len(),
    {
        if t == 0 {
            self.tier0[s].remove(k);
        } else if t == 1 {
            self.tier1[s].remove(k);
        } else {
            self.tier2[s].remove(k);
        }
    }
}

/// A list of expired ids holds this id.
pub open spec fn ids_has(f: Seq<String>, id: Seq<char>) -> bool {
    exists|k: int| 0 <= k < f.len() && (#[trigger] f[k])@ == id
}

/// A list of expired ids reports no id twice.
pub open spec fn ids_distinct(f: Seq<String>) -> bool {
    forall|k1: int, k2: int|
        #![trigger f[k1], f[k2]]
        0 <= k1 < k2 < f.len() ==> f[k1]@ != f[k2]@
}

proof fn lemma_ids_has_push(f: Seq<String>, x: String, o: Seq<char>)
    ensures
        ids_has(f.push(x), o) <==> (ids_has(f, o) || x@ == o),
{
    if ids_has(f, o) {
        let k = choose|k: int| 0 <= k < f.len() && (#[trigger] f[k])@ == o;
        assert(f.push(x)[k]@ == o);
    }
    if x@ == o {
        assert(f.push(x)[f.len() as int]@ == o);
    }
    if ids_has(f.push(x), o) {
        let k = choose|k: int| 0 <= k < f.push(x).len() && (#[trigger] f.push(x)[k])@ == o;
        if k < f.len() {
            assert(f[k]@ == o);
        } else {
            assert(f.push(x)[k] == x);
        }
    }
}

pub proof fn lemma_ids_has_add(a: Seq<String>, b: Seq<String>, o: Seq<char>)
    ensures
        ids_has(a + b, o) <==> (ids_has(a, o) || ids_has(b, o)),
{
    if ids_has(a, o) {
        let k = choose|k: int| 0 <= k < a.len() && (#[trigger] a[k])@ == o;
        assert((a + b)[k]@ == o);
    }
    if ids_has(b, o) {
        let k = choose|k: int| 0 <= k < b.len() && (#[trigger] b[k])@ == o;
        assert((a + b)[k + a.len()]@ == o);
    }
    if ids_has(a + b, o) {
        let k = choose|k: int| 0 <= k < (a + b).len() && (#[trigger] (a + b)[k])@ == o;
        if k < a.len() {
            assert(a[k]@ == o);
        } else {
            assert(b[k - a.len()]@ == o);
        }
    }
}

/// How one entry's placement looks after the cursor advances to `c`:
/// entries in the slots the new tick processes are due, all others
/// remain strictly placed.
proof fn lemma_tick_entry(c: int, t: int, s: int, d: int)
    requires
        0 <= t < 3,
        entry_ok(c - 1, t, s, d),
    ensures
        entry_ok_x(
            c,
            t,
            s,
            d,
            c % 10,
            if c % 10 == 0 {
                (c / 10) % 60
            } else {
                -1
            },
            if c % 600 == 0 {
                (c / 600) % 60
            } else {
                -1
            },
        ),
{
    if t == 0 {
        if s == c % 10 {
            lemma_mod_window(d, c, 10);
        }
    } else if t == 1 {
        lemma_casc_bounds(d, 10);
        let q = (d - 1) / 10;
        let p = casc1_of(d);
        assert(p == q * 10);
        assert(p >= c);
        if c % 10 == 0 {
            let b = c / 10;
            lemma_fundamental_div_mod(c, 10);
            assert(c == 10 * b);
            if s == b % 60 {
                assert(d <= c + 599);
                assert(p <= d - 1 <= c + 598);
                lemma_div_is_ordered(c, p, 10);
                lemma_div_is_ordered(p, c + 598, 10);
                assert(p / 10 == q);
                assert((10 * b + 598) / 10 == b + 59) by {
                    lemma_fundamental_div_mod_converse_div(10 * b + 598, 10, b + 59, 8);
                }
                assert(c / 10 == b);
                assert(b <= q <= b + 59);
                assert(q % 60 == b % 60);
                lemma_mod_window(q, b, 60);
                assert(p == c);
            } else {
                if p == c {
                    assert(p / 10 == c / 10);
                    assert(slot1_of(d) == b % 60);
                }
                assert(p > c);
            }
        } else {
            if p == c {
                lemma_mul_div_cancel(q, 10);
                assert(c % 10 == 0);
            }
            assert(p > c);
        }
    } else {
        lemma_casc_bounds(d, 600);
        let q = (d - 1) / 600;
        let p = casc2_of(d);
        assert(p == q * 600);
        assert(p >= c);
        if c % 600 == 0 {
            let b = c / 600;
            lemma_fundamental_div_mod(c, 600);
            assert(c == 600 * b);
            if s == b % 60 {
                assert(d <= c + 35999);
                assert(p <= d - 1 <= c + 35998);
                lemma_div_is_ordered(c, p, 600);
                lemma_div_is_ordered(p, c + 35998, 600);
                assert(p / 600 == q);
                assert((600 * b + 35998) / 600 == b + 59) by {
                    lemma_fundamental_div_mod_converse_div(600 * b + 35998, 600, b + 59, 598);
                }
                assert(c / 600 == b);
                assert(b <= q <= b + 59);
                assert(q % 60 == b % 60);
                lemma_mod_window(q, b, 60);
                assert(p == c);
            } else {
                if p == c {
                    assert(p / 600 == c / 600);
                    assert(slot2_of(d) == b % 60);
                }
                assert(p > c);
            }
        } else {
            if p == c {
                lemma_mul_div_cancel(q, 600);
                assert(c % 600 == 0);
            }
            assert(p > c);
        }
    }
}

/// A tick at a whole coarse-tier boundary is also at the middle-tier
/// boundary.
proof fn lemma_coarse_boundary(c: int)
    requires
        c % 600 == 0,
    ensures
        c % 10 == 0,
{
    lemma_fundamental_div_mod(c, 600);
    let q = c / 600;
    assert(c == 600 * q);
    lemma_fundamental_div_mod_converse_mod(c, 10, 60 * q, 0);
}

/// Every pending deadline lies strictly ahead of the cursor, within the
/// coarsest tier's range.  In particular a timer can never be reported
/// before its deadline.
pub proof fn lemma_deadlines_future(w: Wheel)
    requires
        w.wf(),
    ensures
        forall|o: Seq<char>|
            w.scheduled(o) ==> w.cursor_of() < w.deadline_of(o) <= w.cursor_of() + 36000,
{
    assert forall|o: Seq<char>| w.scheduled(o)
        implies w.cursor_of() < w.deadline_of(o) <= w.cursor_of() + 36000 by {
        let i = choose|i: int| 0 <= i < w.reg().len() && (#[trigger] w.reg()[i]).id@ == o;
        lemma_reg_find_is(w.reg(), o, i);
        let e = w.reg()[i];
        assert(w.reg_entry_ok(e, -1, -1, -1));
        let d = e.token.deadline as int;
        if e.token.tier == 1 {
            lemma_casc_bounds(d, 10);
        } else if e.token.tier == 2 {
            lemma_casc_bounds(d, 600);
        }
    }
}

impl Wheel {
    /// Moves the cursor forward one tick and returns (and clears) the
    /// ids whose deadline is exactly the new cursor: draining the
    /// current finest-tier slot, after cascading any coarser slot whose
    /// revolution completes on this tick.
    #[verifier::rlimit(100)]
    pub fn advance_one_tick(&mut self) -> (fired: Vec<String>)
        requires
            old(self).wf(),
            old(self).cursor_of() < u64::MAX,
        ensures
            final(self).wf(),
            final(self).cursor_of() == old(self).cursor_of() + 1,
            forall|o: Seq<char>|
                ids_has(fired@, o) <==> (old(self).scheduled(o) && old(self).deadline_of(o)
                    == old(self).cursor_of() + 1),
            ids_distinct(fired@),
            forall|o: Seq<char>|
                final(self).scheduled(o) <==> (old(self).scheduled(o) && old(self).deadline_of(o)
                    != old(self).cursor_of() + 1),
            forall|o: Seq<char>|
                final(self).scheduled(o) ==> final(self).deadline_of(o) == old(self).deadline_of(o),
    {
        self.cursor = self.cursor + 1;
        let c = self.cursor;
        let ghost ci = c as int;
        let s0 = (c % 10) as usize;
        let ghost gx1: int = if ci % 10 == 0 {
            (ci / 10) % 60
        } else {
            -1
        };
        let ghost gx2: int = if ci % 600 == 0 {
            (ci / 600) % 60
        } else {
            -1
        };
        proof {
            assert(s0 as int == ci % 10);
            assert forall|u: int, j: int| 0 <= u < 3 && 0 <= j < self.tier_view(u).len()
                implies self.bucket(u, j) == old(self).bucket(u, j) by {}
            assert forall|i: int| 0 <= i < self.registry@.len() implies self.reg_entry_ok(
                #[trigger] self.registry@[i],
                s0 as int,
                gx1,
                gx2,
            ) by {
                let e = old(self).registry@[i];
                assert(old(self).reg_entry_ok(e, -1, -1, -1));
                lemma_tick_entry(ci, e.token.tier as int, e.token.slot as int, e.token.deadline as int);
                assert(entry_ok_x(
                    ci,
                    e.token.tier as int,
                    e.token.slot as int,
                    e.token.deadline as int,
                    s0 as int,
                    gx1,
                    gx2,
                ));
                assert(self.bucket(e.token.tier as int, e.token.slot as int) == old(self).bucket(
                    e.token.tier as int,
                    e.token.slot as int,
                ));
                assert(self.bucket_has(e.token.tier as int, e.token.slot as int, e.id@));
            }
            assert(self.wf_x(s0 as int, gx1, gx2));
        }
        let mut fired: Vec<String> = Vec::new();
        while self.bucket_len(0, s0) > 0
            invariant
                self.wf_x(s0 as int, gx1, gx2),
                self.cursor_of() == ci,
                ci == old(self).cursor_of() + 1,
                s0 as int == ci % 10,
                s0 < 10,
                forall|o: Seq<char>|
                    old(self).scheduled(o) <==> (self.scheduled(o) || ids_has(fired@, o)),
                forall|o: Seq<char>|
                    ids_has(fired@, o) ==> old(self).scheduled(o) && old(self).deadline_of(o) == ci
                        && !self.scheduled(o),
                forall|o: Seq<char>|
                    self.scheduled(o) ==> self.deadline_of(o) == old(self).deadline_of(o),
                ids_distinct(fired@),
            decreases self.bucket(0, s0 as int).len(),
        {
            let ghost a = *self;
            let ghost facc = fired@;
            let r = self.detach_last(0, s0, Ghost(s0 as int), Ghost(gx1), Ghost(gx2));
            proof {
                assert(entry_ok_x(ci, 0, s0 as int, r.1 as int, s0 as int, gx1, gx2));
                assert(entry_due(ci, 0, s0 as int, r.1 as int));
                assert(r.1 == ci);
            }
            fired.push(r.0);
            proof {
                assert(fired@ == facc.push(r.0));
                assert forall|o: Seq<char>| true implies (ids_has(fired@, o) <==> (ids_has(
                    facc,
                    o,
                ) || r.0@ == o)) by {
                    lemma_ids_has_push(facc, r.0, o);
                }
                assert(ids_distinct(fired@)) by {
                    assert(forall|k: int| 0 <= k < facc.len() ==> (#[trigger] facc[k])@ != r.0@);
                    assert(forall|k: int|
                        0 <= k < facc.len() ==> #[trigger] fired@[k] == facc[k]);
                    assert(fired@[facc.len() as int] == r.0);
                }
            }
        }
        proof {
            assert forall|i: int| 0 <= i < self.registry@.len() implies self.reg_entry_ok(
                #[trigger] self.registry@[i],
                -1,
                gx1,
                gx2,
            ) by {
                let e = self.registry@[i];
                assert(self.reg_entry_ok(e, s0 as int, gx1, gx2));
                if e.token.tier as int == 0 && e.token.slot as int == s0 as int {
                    assert(self.bucket_has(0, s0 as int, e.id@));
                    assert(false);
                }
            }
            assert(self.wf_x(-1, gx1, gx2));
        }
        if c % 10 == 0 {
            let s1 = ((c / 10) % 60) as usize;
            proof {
                assert(s1 as int == gx1);
            }
            while self.bucket_len(1, s1) > 0
                invariant
                    self.wf_x(-1, s1 as int, gx2),
                    self.cursor_of() == ci,
                    ci == old(self).cursor_of() + 1,
                    ci % 10 == 0,
                    s1 as int == gx1,
                    gx1 == (ci / 10) % 60,
                    s1 < 60,
                    forall|o: Seq<char>|
                        old(self).scheduled(o) <==> (self.scheduled(o) || ids_has(fired@, o)),
                    forall|o: Seq<char>|
                        ids_has(fired@, o) ==> old(self).scheduled(o) && old(self).deadline_of(o)
                            == ci && !self.scheduled(o),
                    forall|o: Seq<char>|
                        self.scheduled(o) ==> self.deadline_of(o) == old(self).deadline_of(o),
                    ids_distinct(fired@),
                decreases self.bucket(1, s1 as int).len(),
            {
                let ghost a = *self;
                let r = self.detach_last(1, s1, Ghost(-1), Ghost(s1 as int), Ghost(gx2));
                proof {
                    assert(entry_ok_x(ci, 1, s1 as int, r.1 as int, -1, s1 as int, gx2));
                    assert(entry_due(ci, 1, s1 as int, r.1 as int));
                    lemma_casc_bounds(r.1 as int, 10);
                    assert(ci < r.1 <= ci + 10);
                }
                self.insert_at(r.0, r.1, Ghost(-1), Ghost(s1 as int), Ghost(gx2));
                proof {
                    assert forall|o: Seq<char>| true implies (self.scheduled(o) <==> a.scheduled(
                        o,
                    )) by {}
                    assert forall|o: Seq<char>| self.scheduled(o) implies self.deadline_of(o)
                        == a.deadline_of(o) by {}
                }
            }
            proof {
                assert forall|i: int| 0 <= i < self.registry@.len() implies self.reg_entry_ok(
                    #[trigger] self.registry@[i],
                    -1,
                    -1,
                    gx2,
                ) by {
                    let e = self.registry@[i];
                    assert(self.reg_entry_ok(e, -1, s1 as int, gx2));
                    if e.token.tier as int == 1 && e.token.slot as int == s1 as int {
                        assert(self.bucket_has(1, s1 as int, e.id@));
                        assert(false);
                    }
                }
                assert(self.wf_x(-1, -1, gx2));
            }
            if c % 600 == 0 {
                let s2 = ((c / 600) % 60) as usize;
                proof {
                    assert(s2 as int == gx2);
                }
                while self.bucket_len(2, s2) > 0
                    invariant
                        self.wf_x(-1, -1, s2 as int),
                        self.cursor_of() == ci,
                        ci == old(self).cursor_of() + 1,
                        ci % 600 == 0,
                        s2 as int == gx2,
                        gx2 == (ci / 600) % 60,
                        s2 < 60,
                        forall|o: Seq<char>|
                            old(self).scheduled(o) <==> (self.scheduled(o) || ids_has(fired@, o)),
                        forall|o: Seq<char>|
                            ids_has(fired@, o) ==> old(self).scheduled(o) && old(
                                self,
                            ).deadline_of(o) == ci && !self.scheduled(o),
                        forall|o: Seq<char>|
                            self.scheduled(o) ==> self.deadline_of(o) == old(self).deadline_of(o),
                        ids_distinct(fired@),
                    decreases self.bucket(2, s2 as int).len(),
                {
                    let ghost a = *self;
                    let r = self.detach_last(2, s2, Ghost(-1), Ghost(-1), Ghost(s2 as int));
                    proof {
                        assert(entry_ok_x(ci, 2, s2 as int, r.1 as int, -1, -1, s2 as int));
                        assert(entry_due(ci, 2, s2 as int, r.1 as int));
                        lemma_casc_bounds(r.1 as int, 600);
                        assert(ci < r.1 <= ci + 600);
                    }
                    self.insert_at(r.0, r.1, Ghost(-1), Ghost(-1), Ghost(s2 as int));
                    proof {
                        assert forall|o: Seq<char>| true implies (self.scheduled(o)
                            <==> a.scheduled(o)) by {}
                        assert forall|o: Seq<char>| self.scheduled(o) implies self.deadline_of(o)
                            == a.deadline_of(o) by {}
                    }
                }
                proof {
                    assert forall|i: int| 0 <= i < self.registry@.len() implies self.reg_entry_ok(
                        #[trigger] self.registry@[i],
                        -1,
                        -1,
                        -1,
                    ) by {
                        let e = self.registry@[i];
                        assert(self.reg_entry_ok(e, -1, -1, s2 as int));
                        if e.token.tier as int == 2 && e.token.slot as int == s2 as int {
                            assert(self.bucket_has(2, s2 as int, e.id@));
                            assert(false);
                        }
                    }
                    assert(self.wf());
                }
            } else {
                proof {
                    assert(gx2 == -1);
                    assert(self.wf());
                }
            }
        } else {
            proof {
                if ci % 600 == 0 {
                    lemma_coarse_boundary(ci);
                }
                assert(gx1 == -1 && gx2 == -1);
                assert(self.wf());
            }
        }
        proof {
            lemma_deadlines_future(*self);
            assert forall|o: Seq<char>| true implies (ids_has(fired@, o) <==> (old(
                self,
            ).scheduled(o) && old(self).deadline_of(o) == ci)) by {
                if old(self).scheduled(o) && old(self).deadline_of(o) == ci {
                    if self.scheduled(o) {
                        assert(self.deadline_of(o) == ci);
                        assert(self.cursor_of() < self.deadline_of(o));
                    }
                }
            }
            assert forall|o: Seq<char>| true implies (self.scheduled(o) <==> (old(
                self,
            ).scheduled(o) && old(self).deadline_of(o) != ci)) by {
                if self.scheduled(o) {
                    assert(self.cursor_of() < self.deadline_of(o));
                }
                if old(self).scheduled(o) && old(self).deadline_of(o) != ci {
                    assert(!ids_has(fired@, o));
                }
            }
        }
        fired
    }

    /// Moves the cursor forward `n` whole ticks, collecting the expired
    /// ids of every intermediate tick in firing order.  A zero advance
    /// returns nothing and changes nothing.
    pub fn advance(&mut self, n: u64) -> (fired: Vec<String>)
        requires
            old(self).wf(),
            old(self).cursor_of() + n <= u64::MAX,
        ensures
            final(self).wf(),
            final(self).cursor_of() == old(self).cursor_of() + n,
            forall|o: Seq<char>|
                ids_has(fired@, o) <==> (old(self).scheduled(o) && old(self).deadline_of(o)
                    <= old(self).cursor_of() + n),
            ids_distinct(fired@),
            forall|o: Seq<char>|
                final(self).scheduled(o) <==> (old(self).scheduled(o) && old(self).deadline_of(o)
                    > old(self).cursor_of() + n),
            forall|o: Seq<char>|
                final(self).scheduled(o) ==> final(self).deadline_of(o) == old(self).deadline_of(o),
            advance_rel(*old(self), *final(self), fired@, n as int),
            n == 0 ==> *final(self) == *old(self) && fired@.len() == 0,
    {
        proof {
            lemma_deadlines_future(*old(self));
        }
        let mut fired: Vec<String> = Vec::new();
        let mut i: u64 = 0;
        while i < n
            invariant
                self.wf(),
                i <= n,
                old(self).cursor_of() + n <= u64::MAX,
                self.cursor_of() == old(self).cursor_of() + i,
                forall|o: Seq<char>|
                    old(self).scheduled(o) ==> old(self).cursor_of() < old(self).deadline_of(o),
                forall|o: Seq<char>|
                    ids_has(fired@, o) <==> (old(self).scheduled(o) && old(self).deadline_of(o)
                        <= old(self).cursor_of() + i),
                ids_distinct(fired@),
                forall|o: Seq<char>|
                    self.scheduled(o) <==> (old(self).scheduled(o) && old(self).deadline_of(o)
                        > old(self).cursor_of() + i),
                forall|o: Seq<char>|
                    self.scheduled(o) ==> self.deadline_of(o) == old(self).deadline_of(o),
                i > 0 || (*self == *old(self) && fired@.len() == 0),
            decreases n - i,
        {
            let ghost facc = fired@;
            let ghost a = *self;
            let mut batch = self.advance_one_tick();
            let ghost bv = batch@;
            fired.append(&mut batch);
            i = i + 1;
            proof {
                assert(fired@ == facc + bv);
                assert forall|o: Seq<char>| true implies (ids_has(fired@, o) <==> (ids_has(
                    facc,
                    o,
                ) || ids_has(bv, o))) by {
                    lemma_ids_has_add(facc, bv, o);
                }
                assert forall|k1: int, k2: int|
                    0 <= k1 < k2 < fired@.len() implies fired@[k1]@ != fired@[k2]@ by {
                    if k1 < facc.len() && k2 >= facc.len() {
                        assert(fired@[k1] == facc[k1]);
                        assert(fired@[k2] == bv[k2 - facc.len()]);
                        assert(ids_has(facc, facc[k1]@));
                        assert(ids_has(bv, bv[k2 - facc.len()]@));
                    } else if k1 >= facc.len() {
                        assert(fired@[k1] == bv[k1 - facc.len()]);
                        assert(fired@[k2] == bv[k2 - facc.len()]);
                    } else {
                        assert(fired@[k1] == facc[k1]);
                        assert(fired@[k2] == facc[k2]);
                    }
                }
            }
        }
        fired
    }

    /// Elapsed base ticks since this wheel was created.
    pub fn cursor(&self) -> (c: u64)
        ensures
            c == self.cursor_of(),
    {
        self.cursor
    }

    /// Number of pending timers.
    pub fn pending_count(&self) -> (n: usize)
        ensures
            n == self.pending_ids().len(),
    {
        self.registry.len()
    }
}

/// The contract of one `advance` call, as a relation between the
/// state before, the state after, the returned list, and the tick
/// count: exactly the timers whose deadline falls in the advanced
/// range are reported, each once, and removed; all others survive with
/// their deadlines intact.
pub open spec fn advance_rel(pre: Wheel, post: Wheel, fired: Seq<String>, n: int) -> bool {
    &&& post.wf()
    &&& post.cursor_of() == pre.cursor_of() + n
    &&& (forall|o: Seq<char>|
        ids_has(fired, o) <==> (pre.scheduled(o) && pre.deadline_of(o) <= pre.cursor_of() + n))
    &&& ids_distinct(fired)
    &&& (forall|o: Seq<char>|
        post.scheduled(o) <==> (pre.scheduled(o) && pre.deadline_of(o) > pre.cursor_of() + n))
    &&& (forall|o: Seq<char>| post.scheduled(o) ==> post.deadline_of(o) == pre.deadline_of(o))
}

/// Eventual firing: a pending timer that is never cancelled is
/// reported in exactly one expiry result — that of the first advance
/// whose range reaches its deadline — and, being removed then, is
/// never reported nor pending again.
pub proof fn lemma_eventual_firing(
    w0: Wheel,
    w1: Wheel,
    w2: Wheel,
    f1: Seq<String>,
    f2: Seq<String>,
    id: Seq<char>,
    n: int,
    m: int,
)
    requires
        w0.wf(),
        w0.scheduled(id),
        advance_rel(w0, w1, f1, n),
        advance_rel(w1, w2, f2, m),
        w0.cursor_of() + n >= w0.deadline_of(id),
    ensures
        ids_has(f1, id),
        !w1.scheduled(id),
        !ids_has(f2, id),
        !w2.scheduled(id),
{
}

/// Uniqueness of pending timers: in a well-formed wheel the pending ids
/// are pairwise distinct — at most one pending timer exists per id —
/// and an id is scheduled exactly when it is among them.
pub proof fn lemma_pending_unique(w: Wheel)
    requires
        w.wf(),
    ensures
        forall|i: int, j: int|
            0 <= i < j < w.pending_ids().len() ==> w.pending_ids()[i] != w.pending_ids()[j],
        forall|id: Seq<char>| w.scheduled(id) <==> w.pending_ids().contains(id),
{
    assert forall|id: Seq<char>| w.scheduled(id) implies w.pending_ids().contains(id) by {
        let i = choose|i: int| 0 <= i < w.reg().len() && (#[trigger] w.reg()[i]).id@ == id;
        assert(w.pending_ids()[i] == id);
    }
    assert forall|id: Seq<char>| w.pending_ids().contains(id) implies w.scheduled(id) by {
        let i = choose|i: int| 0 <= i < w.pending_ids().len() && w.pending_ids()[i] == id;
        assert(w.reg()[i].id@ == id);
    }
}

/// With distinct ids, lookup of a present id lands on its sole record.
proof fn lemma_reg_find_is(r: Seq<RegEntry>, id: Seq<char>, i: int)
    requires
        reg_distinct(r),
        0 <= i < r.len(),
        r[i].id@ == id,
    ensures
        reg_has(r, id),
        reg_find(r, id) == i,
{
    assert(reg_has(r, id));
    let j = reg_find(r, id);
    assert(0 <= j < r.len() && r[j].id@ == id);
    if j != i {
        assert(r[i].id@ != r[j].id@);
    }
}

} // verus!
