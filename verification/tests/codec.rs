use tickwheel::codec::{
    bytes_to_dur, bytes_to_stamp, dur_to_bytes, stamp_add, stamp_sub, stamp_to_bytes, Dur, Stamp,
    MAX_STAMP_NANOS, SECS_MAX, SECS_MIN,
};
use tickwheel::z85::{
    datetime_add_duration, datetime_sub_duration, dur_to_z85, stamp_to_z85, z85_to_dur,
    z85_to_stamp,
};
use zero85::{FromZ85, ToZ85};

fn st(secs: i64, nanos: u32, offset_min: i16) -> Stamp {
    Stamp { secs, nanos, offset_min }
}

#[test]
fn stamp_bytes_are_little_endian() {
    let b = stamp_to_bytes(&st(1, 2, 3));
    assert_eq!(b, vec![1, 0, 0, 0, 0, 0, 2, 0, 0, 0, 3, 0]);
    let b = stamp_to_bytes(&st(0x0102030405, 0x01020304, 0x0102));
    assert_eq!(b, vec![5, 4, 3, 2, 1, 0, 4, 3, 2, 1, 2, 1]);
}

#[test]
fn negative_values_use_twos_complement() {
    let b = stamp_to_bytes(&st(-1, 0, -1));
    assert_eq!(b, vec![255, 255, 255, 255, 255, 255, 0, 0, 0, 0, 255, 255]);
    assert_eq!(bytes_to_stamp(&b), Some(st(-1, 0, -1)));
}

#[test]
fn stamp_round_trips_through_bytes() {
    let cases = [
        st(0, 0, 0),
        st(1710000000, 999999999, 120),
        st(-1234567890, 1500000000, -720),
        st(SECS_MIN, 0, -1439),
        st(SECS_MAX, MAX_STAMP_NANOS, 1439),
    ];
    for s in cases {
        let b = stamp_to_bytes(&s);
        assert_eq!(b.len(), 12);
        assert_eq!(bytes_to_stamp(&b), Some(s));
    }
}

#[test]
fn stamp_decode_rejects_bad_input() {
    // too short
    assert_eq!(bytes_to_stamp(&vec![0u8; 11]), None);
    // nanoseconds beyond one spare second
    let mut b = stamp_to_bytes(&st(0, 0, 0));
    b[6] = 0x00;
    b[7] = 0x94;
    b[8] = 0x35;
    b[9] = 0x77;
    // 0x77359400 == 2_000_000_000
    assert_eq!(bytes_to_stamp(&b), None);
    // an offset of a whole day
    let mut b = stamp_to_bytes(&st(0, 0, 0));
    b[10] = 0xA0;
    b[11] = 0x05;
    // 0x05A0 == 1440 minutes
    assert_eq!(bytes_to_stamp(&b), None);
}

#[test]
fn dur_round_trips_and_normalises() {
    let d = Dur { secs: 90061, nanos: 500000000 };
    let b = dur_to_bytes(&d);
    assert_eq!(b.len(), 12);
    assert_eq!(bytes_to_dur(&b), Some(d));
    // 1_500_000_000 stored nanoseconds read back as one carried second
    let mut raw = vec![0u8; 12];
    raw[8] = 0x00;
    raw[9] = 0x2F;
    raw[10] = 0x68;
    raw[11] = 0x59;
    // 0x592F6800 == 1_500_000_000
    assert_eq!(bytes_to_dur(&raw), Some(Dur { secs: 1, nanos: 500000000 }));
    assert_eq!(bytes_to_dur(&vec![0u8; 10]), None);
}

#[test]
fn trailing_bytes_are_ignored() {
    // the first twelve bytes decide; anything after them is ignored
    let mut b = stamp_to_bytes(&st(7, 8, 9));
    b.push(0xAA);
    b.push(0xBB);
    assert_eq!(bytes_to_stamp(&b), Some(st(7, 8, 9)));
    assert_eq!(bytes_to_stamp(&vec![0u8; 13]), Some(st(0, 0, 0)));
    let mut d = dur_to_bytes(&Dur { secs: 4, nanos: 5 });
    d.extend_from_slice(&[1, 2, 3, 4]);
    assert_eq!(bytes_to_dur(&d), Some(Dur { secs: 4, nanos: 5 }));
}

#[test]
fn add_and_sub_are_exact() {
    let s = st(100, 900000000, 60);
    let d = Dur { secs: 5, nanos: 200000000 };
    assert_eq!(stamp_add(&s, &d), Some(st(106, 100000000, 60)));
    assert_eq!(stamp_sub(&s, &d), Some(st(95, 700000000, 60)));
    // the nanosecond borrow
    let s2 = st(10, 100000000, 0);
    assert_eq!(stamp_sub(&s2, &d), Some(st(4, 900000000, 0)));
    // saturating bounds are errors, not wraparound
    assert_eq!(stamp_add(&st(SECS_MAX, 0, 0), &Dur { secs: 1, nanos: 0 }), None);
    assert_eq!(stamp_sub(&st(SECS_MIN, 0, 0), &Dur { secs: 1, nanos: 0 }), None);
}

#[test]
fn z85_text_of_zero_is_all_zero_digits() {
    assert_eq!(stamp_to_z85(&st(0, 0, 0)), "000000000000000");
    assert_eq!(dur_to_z85(&Dur { secs: 0, nanos: 0 }), "000000000000000");
}

#[test]
fn z85_text_of_one_second() {
    // bytes [1,0,0,0] make the big-endian block 0x01000000, whose
    // base-85 digits are 0,27,27,9,1
    assert_eq!(stamp_to_z85(&st(1, 0, 0)), "0rr910000000000");
    assert_eq!(z85_to_stamp("0rr910000000000"), Some(st(1, 0, 0)));
}

#[test]
fn z85_round_trips() {
    let cases = [st(1710000000, 123456789, -300), st(SECS_MIN, 0, 0), st(-1, 1, 1)];
    for s in cases {
        let t = stamp_to_z85(&s);
        assert_eq!(t.chars().count(), 15);
        assert_eq!(z85_to_stamp(&t), Some(s));
    }
    let d = Dur { secs: 3600, nanos: 1 };
    assert_eq!(z85_to_dur(&dur_to_z85(&d)), Some(d));
}

#[test]
fn z85_decode_rejects_malformed_text() {
    assert_eq!(z85_to_stamp(""), None);
    assert_eq!(z85_to_stamp("abc"), None);
    // well-formed Z85 but too few bytes
    assert_eq!(z85_to_stamp("00000"), None);
    // a space is outside the alphabet
    assert_eq!(z85_to_stamp("0000 0000000000"), None);
    // a block worth 2^32 or more is not canonical Z85
    assert_eq!(z85_to_stamp("#####0000000000"), None);
    // twenty characters decode to sixteen bytes; the trailing four are
    // ignored by the stamp decoder
    assert_eq!(z85_to_stamp("00000000000000000000"), Some(st(0, 0, 0)));
}

#[test]
fn agrees_with_the_zero85_crate() {
    let cases = [
        st(0, 0, 0),
        st(1, 0, 0),
        st(1710000000, 123456789, -300),
        st(SECS_MIN, 0, -1439),
        st(SECS_MAX, MAX_STAMP_NANOS, 1439),
    ];
    for s in cases {
        let bytes = stamp_to_bytes(&s);
        let ours = stamp_to_z85(&s);
        assert_eq!(ours, bytes.as_slice().to_z85().unwrap());
        assert_eq!(ours.as_str().from_z85().unwrap(), bytes);
    }
}

#[test]
fn add_duration_over_z85_texts() {
    let zero = stamp_to_z85(&st(0, 0, 0));
    let one_sec = dur_to_z85(&Dur { secs: 1, nanos: 0 });
    let shifted = datetime_add_duration(&zero, &one_sec);
    assert_eq!(shifted, Some(stamp_to_z85(&st(1, 0, 0))));
    // and back
    let back = datetime_sub_duration(&shifted.unwrap(), &one_sec);
    assert_eq!(back, Some(zero.clone()));
    // the offset rides along unchanged
    let offset = stamp_to_z85(&st(500, 0, -90));
    let later = datetime_add_duration(&offset, &one_sec).unwrap();
    assert_eq!(z85_to_stamp(&later), Some(st(501, 0, -90)));
    // malformed operands yield nothing
    assert_eq!(datetime_add_duration("nope", &one_sec), None);
    assert_eq!(datetime_add_duration(&zero, "nope"), None);
}
