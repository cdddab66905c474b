//! The compact binary form of timestamps and durations that crosses the
//! service boundary.
//!
//! A timestamp travels as twelve little-endian bytes: 48-bit
//! two's-complement seconds of the unix epoch, 32-bit nanoseconds
//! within the second, and 16-bit two's-complement utc offset in
//! minutes.  A duration travels as twelve bytes too: 64-bit seconds and
//! 32-bit nanoseconds.  Adding or subtracting a duration is plain
//! integer arithmetic on this form; the calendar itself never enters.

use vstd::prelude::*;
use vstd::arithmetic::div_mod::{lemma_fundamental_div_mod, lemma_fundamental_div_mod_converse_div, lemma_fundamental_div_mod_converse_mod};

verus! {

/// Smallest representable seconds value (48-bit two's complement).
pub const SECS_MIN: i64 = -140737488355328;
/// Largest representable seconds value (48-bit two's complement).
pub const SECS_MAX: i64 = 140737488355327;
pub const NANOS_PER_SEC: u32 = 1000000000;
/// A second may carry up to one spare second of nanoseconds (a leap
/// second holds up to 1999999999 of them).
pub const MAX_STAMP_NANOS: u32 = 1999999999;
/// Largest offset magnitude, in minutes: strictly less than one day.
pub const MAX_OFFSET_MINUTES: i16 = 1439;

/// An instant with a fixed utc offset, free of any calendar: seconds of
/// the unix epoch, nanoseconds within the second, offset in minutes.
#[derive(Clone, Copy, PartialEq, Eq, Structural, Debug)]
pub struct Stamp {
    pub secs: i64,
    pub nanos: u32,
    pub offset_min: i16,
}

/// A non-negative span of time.
#[derive(Clone, Copy, PartialEq, Eq, Structural, Debug)]
pub struct Dur {
    pub secs: u64,
    pub nanos: u32,
}

impl Stamp {
    pub open spec fn wf(self) -> bool {
        &&& SECS_MIN <= self.secs <= SECS_MAX
        &&& self.nanos <= MAX_STAMP_NANOS
        &&& -MAX_OFFSET_MINUTES <= self.offset_min <= MAX_OFFSET_MINUTES
    }
}

impl Dur {
    pub open spec fn wf(self) -> bool {
        self.nanos < NANOS_PER_SEC
    }
}

/// The `n` little-endian bytes of the non-negative value `v`.
pub open spec fn le_bytes(v: int, n: nat) -> Seq<u8>
    decreases n,
{
    if n == 0 {
        Seq::empty()
    } else {
        seq![(v % 256) as u8] + le_bytes(v / 256, (n - 1) as nat)
    }
}

/// The non-negative value read from little-endian bytes.
pub open spec fn le_value(b: Seq<u8>) -> int
    decreases b.len(),
{
    if b.len() == 0 {
        0
    } else {
        b[0] + 256 * le_value(b.skip(1))
    }
}

/// 256 to the `n`th power.
pub open spec fn pow256(n: nat) -> int
    decreases n,
{
    if n == 0 {
        1
    } else {
        256 * pow256((n - 1) as nat)
    }
}

proof fn lemma_le_value_bound(b: Seq<u8>)
    ensures
        0 <= le_value(b) < pow256(b.len()),
    decreases b.len(),
{
    if b.len() > 0 {
        lemma_le_value_bound(b.skip(1));
    }
}

/// The twelve bytes of a stamp.
pub open spec fn stamp_bytes(s: Stamp) -> Seq<u8> {
    le_bytes((s.secs as int) % 281474976710656, 6) + le_bytes(s.nanos as int, 4) + le_bytes(
        (s.offset_min as int) % 65536,
        2,
    )
}

/// The twelve bytes of a duration.
pub open spec fn dur_bytes(d: Dur) -> Seq<u8> {
    le_bytes(d.secs as int, 8) + le_bytes(d.nanos as int, 4)
}

/// What decoding stamp bytes yields: the first twelve bytes are read
/// and any trailing bytes are ignored; fewer than twelve bytes, a
/// nanosecond count above one spare second, or an offset of a day or
/// more yield nothing.
pub open spec fn stamp_dec(b: Seq<u8>) -> Option<Stamp> {
    if b.len() < 12 {
        None
    } else {
        let u = le_value(b.subrange(0, 6));
        let secs = if u < 140737488355328 {
            u
        } else {
            u - 281474976710656
        };
        let nanos = le_value(b.subrange(6, 10));
        let off_u = le_value(b.subrange(10, 12));
        let off = if off_u < 32768 {
            off_u
        } else {
            off_u - 65536
        };
        if nanos <= MAX_STAMP_NANOS && -1439 <= off <= 1439 {
            Some(Stamp { secs: secs as i64, nanos: nanos as u32, offset_min: off as i16 })
        } else {
            None
        }
    }
}

/// What decoding duration bytes yields: the first twelve bytes are
/// read and any trailing bytes are ignored; nanoseconds of a whole
/// second or more carry into the seconds, failing only when fewer than
/// twelve bytes arrive or the carry overflows the seconds field.
pub open spec fn dur_dec(b: Seq<u8>) -> Option<Dur> {
    if b.len() < 12 {
        None
    } else {
        let secs = le_value(b.subrange(0, 8));
        let nanos = le_value(b.subrange(8, 12));
        if secs + nanos / 1000000000 <= u64::MAX {
            Some(
                Dur {
                    secs: (secs + nanos / 1000000000) as u64,
                    nanos: (nanos % 1000000000) as u32,
                },
            )
        } else {
            None
        }
    }
}

/// A stamp moved forward by a duration: plain addition with a carry
/// from the nanoseconds; the offset is kept.  Nothing is produced when
/// the seconds would pass the representable maximum.
pub open spec fn stamp_plus(s: Stamp, d: Dur) -> Option<Stamp> {
    let n = s.nanos + d.nanos;
    let rs = s.secs + d.secs + n / 1000000000;
    if rs <= SECS_MAX {
        Some(Stamp { secs: rs as i64, nanos: (n % 1000000000) as u32, offset_min: s.offset_min })
    } else {
        None
    }
}

/// A stamp moved backward by a duration: plain subtraction with a
/// borrow into the nanoseconds; the offset is kept.  Nothing is
/// produced when the seconds would pass the representable minimum.
pub open spec fn stamp_minus(s: Stamp, d: Dur) -> Option<Stamp> {
    let n = s.nanos - d.nanos;
    let borrow: int = if n < 0 {
        1
    } else {
        0
    };
    let rn = if n < 0 {
        n + 1000000000
    } else {
        n
    };
    let rs = s.secs - d.secs - borrow;
    if rs >= SECS_MIN {
        Some(Stamp { secs: rs as i64, nanos: rn as u32, offset_min: s.offset_min })
    } else {
        None
    }
}


/// A value below `pow256(n)` survives the little-endian round trip.
proof fn lemma_le_round(v: int, n: nat)
    requires
        0 <= v < pow256(n),
    ensures
        le_bytes(v, n).len() == n,
        le_value(le_bytes(v, n)) == v,
    decreases n,
{
    if n > 0 {
        lemma_fundamental_div_mod(v, 256);
        assert(v / 256 < pow256((n - 1) as nat)) by {
            if v / 256 >= pow256((n - 1) as nat) {
                assert(256 * (v / 256) >= 256 * pow256((n - 1) as nat)) by (nonlinear_arith)
                    requires v / 256 >= pow256((n - 1) as nat);
            }
        }
        vstd::arithmetic::div_mod::lemma_div_pos_is_pos(v, 256);
        lemma_le_round(v / 256, (n - 1) as nat);
        let t = le_bytes(v, n);
        assert(t.skip(1) =~= le_bytes(v / 256, (n - 1) as nat));
        assert(t[0] == (v % 256) as u8);
        assert(le_value(t) == v % 256 + 256 * le_value(t.skip(1)));
    }
}

/// Round trip of the stamp byte codec: decoding the twelve bytes of a
/// well-formed stamp returns it unchanged.
pub proof fn lemma_stamp_codec_round_trip(s: Stamp)
    requires
        s.wf(),
    ensures
        stamp_bytes(s).len() == 12,
        stamp_dec(stamp_bytes(s)) == Some(s),
{
    let u = (s.secs as int) % 281474976710656;
    let nn = s.nanos as int;
    let ov = (s.offset_min as int) % 65536;
    if s.secs >= 0 {
        lemma_fundamental_div_mod_converse_mod(s.secs as int, 281474976710656, 0, s.secs as int);
        assert(u == s.secs);
    } else {
        lemma_fundamental_div_mod_converse_mod(
            s.secs as int,
            281474976710656,
            -1,
            s.secs + 281474976710656,
        );
        assert(u == s.secs + 281474976710656);
    }
    if s.offset_min >= 0 {
        lemma_fundamental_div_mod_converse_mod(s.offset_min as int, 65536, 0, s.offset_min as int);
        assert(ov == s.offset_min);
    } else {
        lemma_fundamental_div_mod_converse_mod(s.offset_min as int, 65536, -1, s.offset_min + 65536);
        assert(ov == s.offset_min + 65536);
    }
    assert(pow256(6) == 281474976710656 && pow256(4) == 0x100000000 && pow256(2) == 0x10000) by {
        assert(pow256(0) == 1);
        assert(pow256(1) == 256);
        assert(pow256(2) == 0x10000);
        assert(pow256(3) == 0x1000000);
        assert(pow256(4) == 0x100000000);
        assert(pow256(5) == 0x10000000000);
    }
    lemma_le_round(u, 6);
    lemma_le_round(nn, 4);
    lemma_le_round(ov, 2);
    let b = stamp_bytes(s);
    let pa = le_bytes(u, 6);
    let pb = le_bytes(nn, 4);
    let pc = le_bytes(ov, 2);
    assert(b.len() == 12);
    assert(b.subrange(0, 6) =~= pa);
    assert(b.subrange(6, 10) =~= pb);
    assert(b.subrange(10, 12) =~= pc);
    assert(stamp_dec(b) == Some(s));
}

/// Round trip of the duration byte codec: decoding the twelve bytes of
/// a well-formed duration returns it unchanged.
pub proof fn lemma_dur_codec_round_trip(d: Dur)
    requires
        d.wf(),
    ensures
        dur_bytes(d).len() == 12,
        dur_dec(dur_bytes(d)) == Some(d),
{
    assert(pow256(8) == 0x10000000000000000 && pow256(4) == 0x100000000) by {
        assert(pow256(0) == 1);
        assert(pow256(1) == 256);
        assert(pow256(2) == 0x10000);
        assert(pow256(3) == 0x1000000);
        assert(pow256(4) == 0x100000000);
        assert(pow256(5) == 0x10000000000);
        assert(pow256(6) == 0x1000000000000);
        assert(pow256(7) == 0x100000000000000);
    }
    lemma_le_round(d.secs as int, 8);
    lemma_le_round(d.nanos as int, 4);
    let b = dur_bytes(d);
    assert(b.len() == 12);
    assert(b.subrange(0, 8) =~= le_bytes(d.secs as int, 8));
    assert(b.subrange(8, 12) =~= le_bytes(d.nanos as int, 4));
    lemma_fundamental_div_mod_converse_div(d.nanos as int, 1000000000, 0, d.nanos as int);
    lemma_fundamental_div_mod_converse_mod(d.nanos as int, 1000000000, 0, d.nanos as int);
    assert(dur_dec(b) == Some(d));
}

/// Appends the `n` little-endian bytes of `v`.
fn push_le(out: &mut Vec<u8>, v: u64, n: usize)
    ensures
        final(out)@ == old(out)@ + le_bytes(v as int, n as nat),
{
    let ghost base = out@;
    let ghost v0 = v as int;
    let mut rest = v;
    let mut k: usize = 0;
    while k < n
        invariant
            k <= n,
            out@.len() == base.len() + k,
            base + le_bytes(v0, n as nat) =~= out@ + le_bytes(rest as int, (n - k) as nat),
        decreases n - k,
    {
        let b = (rest % 256) as u8;
        let ghost mid = rest as int;
        out.push(b);
        rest = rest / 256;
        k = k + 1;
        proof {
            assert(le_bytes(mid, (n - k + 1) as nat) =~= seq![(mid % 256) as u8] + le_bytes(
                mid / 256,
                (n - k) as nat,
            ));
            assert(base + le_bytes(v0, n as nat) =~= out@ + le_bytes(rest as int, (n - k) as nat));
        }
    }
    proof {
        assert(le_bytes(rest as int, 0nat) =~= Seq::<u8>::empty());
        assert(out@ =~= base + le_bytes(v0, n as nat));
    }
}

/// Reads `n` little-endian bytes starting at `off` as a value.
fn read_le(b: &Vec<u8>, off: usize, n: usize) -> (v: u64)
    requires
        off + n <= b@.len(),
        n <= 8,
    ensures
        v == le_value(b@.subrange(off as int, off as int + n)),
        0 <= v < pow256(n as nat),
{
    proof {
        lemma_le_value_bound(b@.subrange(off as int, off as int + n));
        assert(pow256(8) == 0x10000000000000000) by {
            assert(pow256(0) == 1);
            assert(pow256(1) == 256);
            assert(pow256(2) == 0x10000);
            assert(pow256(3) == 0x1000000);
            assert(pow256(4) == 0x100000000);
            assert(pow256(5) == 0x10000000000);
            assert(pow256(6) == 0x1000000000000);
            assert(pow256(7) == 0x100000000000000);
        }
    }
    let blen = b.len();
    let mut v: u64 = 0;
    let mut k: usize = n;
    while k > 0
        invariant
            k <= n,
            n <= 8,
            blen == b@.len(),
            off + n <= blen,
            0 <= v < pow256((n - k) as nat),
            pow256(8) == 0x10000000000000000,
            v == le_value(b@.subrange(off as int + k, off as int + n)),
        decreases k,
    {
        proof {
            lemma_pow256_mono((n - k) as nat, 7nat);
            lemma_pow256_mono((n - k + 1) as nat, 8nat);
            assert(pow256((n - k + 1) as nat) == 256 * pow256((n - k) as nat));
        }
        let byte = b[off + (k - 1)];
        v = v * 256 + (byte as u64);
        k = k - 1;
        proof {
            let s = b@.subrange(off as int + k, off as int + n);
            assert(s[0] == b@[off as int + k]);
            assert(s.skip(1) =~= b@.subrange(off as int + k + 1, off as int + n));
            assert(v == le_value(s));
        }
    }
    proof {
        assert(b@.subrange(off as int, off as int + n) == b@.subrange(
            off as int + 0,
            off as int + n,
        ));
    }
    v
}

proof fn lemma_pow256_mono(a: nat, b: nat)
    requires
        a <= b,
    ensures
        pow256(a) <= pow256(b),
        pow256(a) >= 1,
    decreases b,
{
    if a < b {
        lemma_pow256_mono(a, (b - 1) as nat);
    } else if b > 0 {
        lemma_pow256_mono((a - 1) as nat, (b - 1) as nat);
    }
}

/// Encodes a stamp into its twelve bytes.
pub fn stamp_to_bytes(s: &Stamp) -> (b: Vec<u8>)
    requires
        s.wf(),
    ensures
        b@ == stamp_bytes(*s),
        b@.len() == 12,
{
    let mut out: Vec<u8> = Vec::new();
    let u: u64 = if s.secs >= 0 {
        s.secs as u64
    } else {
        (s.secs + 281474976710656i64) as u64
    };
    proof {
        if s.secs >= 0 {
            lemma_fundamental_div_mod_converse_mod(s.secs as int, 281474976710656, 0, s.secs as int);
        } else {
            lemma_fundamental_div_mod_converse_mod(
                s.secs as int,
                281474976710656,
                -1,
                s.secs + 281474976710656,
            );
        }
        assert(u == (s.secs as int) % 281474976710656);
    }
    push_le(&mut out, u, 6);
    push_le(&mut out, s.nanos as u64, 4);
    let ou: u64 = if s.offset_min >= 0 {
        s.offset_min as u64
    } else {
        ((s.offset_min as i64) + 65536) as u64
    };
    proof {
        if s.offset_min >= 0 {
            lemma_fundamental_div_mod_converse_mod(
                s.offset_min as int,
                65536,
                0,
                s.offset_min as int,
            );
        } else {
            lemma_fundamental_div_mod_converse_mod(
                s.offset_min as int,
                65536,
                -1,
                s.offset_min + 65536,
            );
        }
        assert(ou == (s.offset_min as int) % 65536);
    }
    push_le(&mut out, ou, 2);
    proof {
        lemma_le_bytes_len((s.secs as int) % 281474976710656, 6);
        lemma_le_bytes_len(s.nanos as int, 4);
        lemma_le_bytes_len((s.offset_min as int) % 65536, 2);
        assert(out@ =~= stamp_bytes(*s));
    }
    out
}

proof fn lemma_le_bytes_len(v: int, n: nat)
    ensures
        le_bytes(v, n).len() == n,
    decreases n,
{
    if n > 0 {
        lemma_le_bytes_len(v / 256, (n - 1) as nat);
    }
}

/// Encodes a duration into its twelve bytes.
pub fn dur_to_bytes(d: &Dur) -> (b: Vec<u8>)
    ensures
        b@ == dur_bytes(*d),
        b@.len() == 12,
{
    let mut out: Vec<u8> = Vec::new();
    push_le(&mut out, d.secs, 8);
    push_le(&mut out, d.nanos as u64, 4);
    proof {
        lemma_le_bytes_len(d.secs as int, 8);
        lemma_le_bytes_len(d.nanos as int, 4);
        assert(out@ =~= dur_bytes(*d));
    }
    out
}

/// Decodes the first twelve bytes of a stamp payload (trailing bytes
/// are ignored), rejecting a short payload, an out-of-range nanosecond
/// count and an offset of a day or more.
pub fn bytes_to_stamp(b: &Vec<u8>) -> (r: Option<Stamp>)
    ensures
        r == stamp_dec(b@),
        r matches Some(s) ==> s.wf(),
{
    if b.len() < 12 {
        return None;
    }
    let u = read_le(b, 0, 6);
    let nanos64 = read_le(b, 6, 4);
    let off_u = read_le(b, 10, 2);
    proof {
        assert(pow256(6) == 281474976710656) by {
            assert(pow256(0) == 1);
            assert(pow256(1) == 256);
            assert(pow256(2) == 0x10000);
            assert(pow256(3) == 0x1000000);
            assert(pow256(4) == 0x100000000);
            assert(pow256(5) == 0x10000000000);
        }
        assert(pow256(4) == 0x100000000) by {
            assert(pow256(0) == 1);
            assert(pow256(1) == 256);
            assert(pow256(2) == 0x10000);
            assert(pow256(3) == 0x1000000);
        }
        assert(pow256(2) == 0x10000) by {
            assert(pow256(0) == 1);
            assert(pow256(1) == 256);
        }
    }
    let secs: i64 = if u < 140737488355328 {
        u as i64
    } else {
        (u as i64) - 281474976710656
    };
    let off: i64 = if off_u < 32768 {
        off_u as i64
    } else {
        (off_u as i64) - 65536
    };
    if nanos64 <= 1999999999 && -1439 <= off && off <= 1439 {
        Some(Stamp { secs, nanos: nanos64 as u32, offset_min: off as i16 })
    } else {
        None
    }
}

/// Decodes the first twelve bytes of a duration payload (trailing
/// bytes are ignored), normalising a nanosecond count of a second or
/// more into the seconds.
pub fn bytes_to_dur(b: &Vec<u8>) -> (r: Option<Dur>)
    ensures
        r == dur_dec(b@),
        r matches Some(d) ==> d.wf(),
{
    if b.len() < 12 {
        return None;
    }
    let secs = read_le(b, 0, 8);
    let nanos64 = read_le(b, 8, 4);
    let carry = nanos64 / 1000000000;
    if carry > u64::MAX - secs {
        return None;
    }
    Some(Dur { secs: secs + carry, nanos: (nanos64 % 1000000000) as u32 })
}

/// Moves a stamp forward by a duration; the offset is kept.  Nothing is
/// returned when the result would pass the representable maximum.
pub fn stamp_add(s: &Stamp, d: &Dur) -> (r: Option<Stamp>)
    requires
        s.wf(),
        d.wf(),
    ensures
        r == stamp_plus(*s, *d),
        r matches Some(x) ==> x.wf(),
{
    let n: u64 = (s.nanos as u64) + (d.nanos as u64);
    let carry: u64 = n / 1000000000;
    let rn: u32 = (n % 1000000000) as u32;
    let base: i64 = s.secs + (carry as i64);
    if base > SECS_MAX {
        return None;
    }
    let room: u64 = (SECS_MAX - base) as u64;
    if d.secs > room {
        return None;
    }
    Some(Stamp { secs: base + (d.secs as i64), nanos: rn, offset_min: s.offset_min })
}

/// Moves a stamp backward by a duration; the offset is kept.  Nothing
/// is returned when the result would pass the representable minimum.
pub fn stamp_sub(s: &Stamp, d: &Dur) -> (r: Option<Stamp>)
    requires
        s.wf(),
        d.wf(),
    ensures
        r == stamp_minus(*s, *d),
        r matches Some(x) ==> x.wf(),
{
    let diff: i64 = (s.nanos as i64) - (d.nanos as i64);
    let borrow: i64 = if diff < 0 {
        1
    } else {
        0
    };
    let rn: u32 = if diff < 0 {
        (diff + 1000000000) as u32
    } else {
        diff as u32
    };
    let base: i64 = s.secs - borrow;
    if base < SECS_MIN {
        return None;
    }
    let room: u64 = (base - SECS_MIN) as u64;
    if d.secs > room {
        return None;
    }
    Some(Stamp { secs: base - (d.secs as i64), nanos: rn, offset_min: s.offset_min })
}

} // verus!
