//! Z85 text transport of the compact binary forms.
//!
//! The twelve-byte forms of `codec` travel across the host boundary as
//! fifteen characters of Z85 text: each four-byte group, read as a
//! 32-bit big-endian value, becomes five base-85 digits over a fixed
//! 85-character alphabet, most significant digit first.  The codec is
//! implemented and verified here, and decoding an encoded value is
//! proved to return it unchanged.

use vstd::prelude::*;
use vstd::arithmetic::div_mod::{
    lemma_div_denominator, lemma_fundamental_div_mod, lemma_fundamental_div_mod_converse_div,
    lemma_fundamental_div_mod_converse_mod,
};
use crate::codec::{
    Stamp, Dur, stamp_bytes, dur_bytes, stamp_dec, dur_dec, stamp_plus, stamp_minus,
    stamp_to_bytes, bytes_to_stamp, dur_to_bytes, bytes_to_dur, stamp_add, stamp_sub,
    lemma_stamp_codec_round_trip, lemma_dur_codec_round_trip,
};

verus! {

/// The Z85 alphabet: the character of digit `d`.
#[verifier::opaque]
pub open spec fn z85_char_of(d: int) -> char {
    if d == 0 {
        '0'
    } else if d == 1 {
        '1'
    } else if d == 2 {
        '2'
    } else if d == 3 {
        '3'
    } else if d == 4 {
        '4'
    } else if d == 5 {
        '5'
    } else if d == 6 {
        '6'
    } else if d == 7 {
        '7'
    } else if d == 8 {
        '8'
    } else if d == 9 {
        '9'
    } else if d == 10 {
        'a'
    } else if d == 11 {
        'b'
    } else if d == 12 {
        'c'
    } else if d == 13 {
        'd'
    } else if d == 14 {
        'e'
    } else if d == 15 {
        'f'
    } else if d == 16 {
        'g'
    } else if d == 17 {
        'h'
    } else if d == 18 {
        'i'
    } else if d == 19 {
        'j'
    } else if d == 20 {
        'k'
    } else if d == 21 {
        'l'
    } else if d == 22 {
        'm'
    } else if d == 23 {
        'n'
    } else if d == 24 {
        'o'
    } else if d == 25 {
        'p'
    } else if d == 26 {
        'q'
    } else if d == 27 {
        'r'
    } else if d == 28 {
        's'
    } else if d == 29 {
        't'
    } else if d == 30 {
        'u'
    } else if d == 31 {
        'v'
    } else if d == 32 {
        'w'
    } else if d == 33 {
        'x'
    } else if d == 34 {
        'y'
    } else if d == 35 {
        'z'
    } else if d == 36 {
        'A'
    } else if d == 37 {
        'B'
    } else if d == 38 {
        'C'
    } else if d == 39 {
        'D'
    } else if d == 40 {
        'E'
    } else if d == 41 {
        'F'
    } else if d == 42 {
        'G'
    } else if d == 43 {
        'H'
    } else if d == 44 {
        'I'
    } else if d == 45 {
        'J'
    } else if d == 46 {
        'K'
    } else if d == 47 {
        'L'
    } else if d == 48 {
        'M'
    } else if d == 49 {
        'N'
    } else if d == 50 {
        'O'
    } else if d == 51 {
        'P'
    } else if d == 52 {
        'Q'
    } else if d == 53 {
        'R'
    } else if d == 54 {
        'S'
    } else if d == 55 {
        'T'
    } else if d == 56 {
        'U'
    } else if d == 57 {
        'V'
    } else if d == 58 {
        'W'
    } else if d == 59 {
        'X'
    } else if d == 60 {
        'Y'
    } else if d == 61 {
        'Z'
    } else if d == 62 {
        '.'
    } else if d == 63 {
        '-'
    } else if d == 64 {
        ':'
    } else if d == 65 {
        '+'
    } else if d == 66 {
        '='
    } else if d == 67 {
        '^'
    } else if d == 68 {
        '!'
    } else if d == 69 {
        '/'
    } else if d == 70 {
        '*'
    } else if d == 71 {
        '?'
    } else if d == 72 {
        '&'
    } else if d == 73 {
        '<'
    } else if d == 74 {
        '>'
    } else if d == 75 {
        '('
    } else if d == 76 {
        ')'
    } else if d == 77 {
        '['
    } else if d == 78 {
        ']'
    } else if d == 79 {
        '{'
    } else if d == 80 {
        '}'
    } else if d == 81 {
        '@'
    } else if d == 82 {
        '%'
    } else if d == 83 {
        '$'
    } else {
        '#'
    }
}

/// The digit of a character: its index in the Z85 alphabet, or `-1`
/// for a character outside it.
#[verifier::opaque]
pub open spec fn z85_digit_of(c: char) -> int {
    if c == '0' {
        0
    } else if c == '1' {
        1
    } else if c == '2' {
        2
    } else if c == '3' {
        3
    } else if c == '4' {
        4
    } else if c == '5' {
        5
    } else if c == '6' {
        6
    } else if c == '7' {
        7
    } else if c == '8' {
        8
    } else if c == '9' {
        9
    } else if c == 'a' {
        10
    } else if c == 'b' {
        11
    } else if c == 'c' {
        12
    } else if c == 'd' {
        13
    } else if c == 'e' {
        14
    } else if c == 'f' {
        15
    } else if c == 'g' {
        16
    } else if c == 'h' {
        17
    } else if c == 'i' {
        18
    } else if c == 'j' {
        19
    } else if c == 'k' {
        20
    } else if c == 'l' {
        21
    } else if c == 'm' {
        22
    } else if c == 'n' {
        23
    } else if c == 'o' {
        24
    } else if c == 'p' {
        25
    } else if c == 'q' {
        26
    } else if c == 'r' {
        27
    } else if c == 's' {
        28
    } else if c == 't' {
        29
    } else if c == 'u' {
        30
    } else if c == 'v' {
        31
    } else if c == 'w' {
        32
    } else if c == 'x' {
        33
    } else if c == 'y' {
        34
    } else if c == 'z' {
        35
    } else if c == 'A' {
        36
    } else if c == 'B' {
        37
    } else if c == 'C' {
        38
    } else if c == 'D' {
        39
    } else if c == 'E' {
        40
    } else if c == 'F' {
        41
    } else if c == 'G' {
        42
    } else if c == 'H' {
        43
    } else if c == 'I' {
        44
    } else if c == 'J' {
        45
    } else if c == 'K' {
        46
    } else if c == 'L' {
        47
    } else if c == 'M' {
        48
    } else if c == 'N' {
        49
    } else if c == 'O' {
        50
    } else if c == 'P' {
        51
    } else if c == 'Q' {
        52
    } else if c == 'R' {
        53
    } else if c == 'S' {
        54
    } else if c == 'T' {
        55
    } else if c == 'U' {
        56
    } else if c == 'V' {
        57
    } else if c == 'W' {
        58
    } else if c == 'X' {
        59
    } else if c == 'Y' {
        60
    } else if c == 'Z' {
        61
    } else if c == '.' {
        62
    } else if c == '-' {
        63
    } else if c == ':' {
        64
    } else if c == '+' {
        65
    } else if c == '=' {
        66
    } else if c == '^' {
        67
    } else if c == '!' {
        68
    } else if c == '/' {
        69
    } else if c == '*' {
        70
    } else if c == '?' {
        71
    } else if c == '&' {
        72
    } else if c == '<' {
        73
    } else if c == '>' {
        74
    } else if c == '(' {
        75
    } else if c == ')' {
        76
    } else if c == '[' {
        77
    } else if c == ']' {
        78
    } else if c == '{' {
        79
    } else if c == '}' {
        80
    } else if c == '@' {
        81
    } else if c == '%' {
        82
    } else if c == '$' {
        83
    } else if c == '#' {
        84
    } else {
        -1
    }
}

/// The digit table inverts the alphabet.
proof fn lemma_z85_table(d: int)
    requires
        0 <= d < 85,
    ensures
        z85_digit_of(z85_char_of(d)) == d,
{
    reveal(z85_char_of);
    reveal(z85_digit_of);
}

/// The value of four big-endian bytes.
pub open spec fn be_value(b: Seq<u8>) -> int
    recommends
        b.len() == 4,
{
    b[0] * 16777216 + b[1] * 65536 + b[2] * 256 + b[3]
}

/// The four big-endian bytes of a value below two to the 32nd.
pub open spec fn be_bytes(v: int) -> Seq<u8> {
    seq![
        ((v / 16777216) % 256) as u8,
        ((v / 65536) % 256) as u8,
        ((v / 256) % 256) as u8,
        (v % 256) as u8,
    ]
}

/// The five base-85 digits of a block value, most significant first.
pub open spec fn z85_block(v: int) -> Seq<char> {
    seq![
        z85_char_of((v / 52200625) % 85),
        z85_char_of((v / 614125) % 85),
        z85_char_of((v / 7225) % 85),
        z85_char_of((v / 85) % 85),
        z85_char_of(v % 85),
    ]
}

/// The value of five Z85 digits.
pub open spec fn z85_block_val(s: Seq<char>) -> int
    recommends
        s.len() == 5,
{
    (((z85_digit_of(s[0]) * 85 + z85_digit_of(s[1])) * 85 + z85_digit_of(s[2])) * 85
        + z85_digit_of(s[3])) * 85 + z85_digit_of(s[4])
}

/// A well-formed block: five alphabet characters denoting a value that
/// fits in 32 bits.
pub open spec fn z85_block_ok(s: Seq<char>) -> bool {
    &&& s.len() == 5
    &&& forall|k: int| 0 <= k < 5 ==> z85_digit_of(#[trigger] s[k]) >= 0
    &&& z85_block_val(s) < 4294967296
}

/// The Z85 text of a byte string whose length is a positive multiple
/// of four: five text characters for each four bytes.
pub open spec fn z85_of(b: Seq<u8>) -> Seq<char>
    recommends
        b.len() % 4 == 0,
    decreases b.len(),
{
    if b.len() < 4 {
        Seq::empty()
    } else {
        z85_block(be_value(b.take(4))) + z85_of(b.skip(4))
    }
}

/// Decoding of whole blocks: four bytes for each well-formed
/// five-character block, nothing as soon as one block is malformed.
pub open spec fn z85_dec_groups(s: Seq<char>) -> Option<Seq<u8>>
    decreases s.len(),
{
    if s.len() == 0 {
        Some(Seq::empty())
    } else if s.len() < 5 || !z85_block_ok(s.take(5)) {
        None
    } else {
        match z85_dec_groups(s.skip(5)) {
            None => None,
            Some(rest) => Some(be_bytes(z85_block_val(s.take(5))) + rest),
        }
    }
}

/// What Z85 decoding yields for a text: the bytes, or nothing when the
/// text is empty, not a multiple of five characters, holds a character
/// outside the alphabet, or holds a block denoting a value of 32 bits
/// or more.
pub open spec fn z85_dec(s: Seq<char>) -> Option<Seq<u8>> {
    if s.len() == 0 {
        None
    } else {
        z85_dec_groups(s)
    }
}

/// The Z85 character of a digit.
fn z85_char(d: u64) -> (c: char)
    requires
        d < 85,
    ensures
        c == z85_char_of(d as int),
{
    proof {
        reveal(z85_char_of);
    }
        if d == 0 {
            '0'
        } else if d == 1 {
            '1'
        } else if d == 2 {
            '2'
        } else if d == 3 {
            '3'
        } else if d == 4 {
            '4'
        } else if d == 5 {
            '5'
        } else if d == 6 {
            '6'
        } else if d == 7 {
            '7'
        } else if d == 8 {
            '8'
        } else if d == 9 {
            '9'
        } else if d == 10 {
            'a'
        } else if d == 11 {
            'b'
        } else if d == 12 {
            'c'
        } else if d == 13 {
            'd'
        } else if d == 14 {
            'e'
        } else if d == 15 {
            'f'
        } else if d == 16 {
            'g'
        } else if d == 17 {
            'h'
        } else if d == 18 {
            'i'
        } else if d == 19 {
            'j'
        } else if d == 20 {
            'k'
        } else if d == 21 {
            'l'
        } else if d == 22 {
            'm'
        } else if d == 23 {
            'n'
        } else if d == 24 {
            'o'
        } else if d == 25 {
            'p'
        } else if d == 26 {
            'q'
        } else if d == 27 {
            'r'
        } else if d == 28 {
            's'
        } else if d == 29 {
            't'
        } else if d == 30 {
            'u'
        } else if d == 31 {
            'v'
        } else if d == 32 {
            'w'
        } else if d == 33 {
            'x'
        } else if d == 34 {
            'y'
        } else if d == 35 {
            'z'
        } else if d == 36 {
            'A'
        } else if d == 37 {
            'B'
        } else if d == 38 {
            'C'
        } else if d == 39 {
            'D'
        } else if d == 40 {
            'E'
        } else if d == 41 {
            'F'
        } else if d == 42 {
            'G'
        } else if d == 43 {
            'H'
        } else if d == 44 {
            'I'
        } else if d == 45 {
            'J'
        } else if d == 46 {
            'K'
        } else if d == 47 {
            'L'
        } else if d == 48 {
            'M'
        } else if d == 49 {
            'N'
        } else if d == 50 {
            'O'
        } else if d == 51 {
            'P'
        } else if d == 52 {
            'Q'
        } else if d == 53 {
            'R'
        } else if d == 54 {
            'S'
        } else if d == 55 {
            'T'
        } else if d == 56 {
            'U'
        } else if d == 57 {
            'V'
        } else if d == 58 {
            'W'
        } else if d == 59 {
            'X'
        } else if d == 60 {
            'Y'
        } else if d == 61 {
            'Z'
        } else if d == 62 {
            '.'
        } else if d == 63 {
            '-'
        } else if d == 64 {
            ':'
        } else if d == 65 {
            '+'
        } else if d == 66 {
            '='
        } else if d == 67 {
            '^'
        } else if d == 68 {
            '!'
        } else if d == 69 {
            '/'
        } else if d == 70 {
            '*'
        } else if d == 71 {
            '?'
        } else if d == 72 {
            '&'
        } else if d == 73 {
            '<'
        } else if d == 74 {
            '>'
        } else if d == 75 {
            '('
        } else if d == 76 {
            ')'
        } else if d == 77 {
            '['
        } else if d == 78 {
            ']'
        } else if d == 79 {
            '{'
        } else if d == 80 {
            '}'
        } else if d == 81 {
            '@'
        } else if d == 82 {
            '%'
        } else if d == 83 {
            '$'
        } else {
            '#'
        }
}

/// The digit of a character, `-1` outside the alphabet.
fn z85_digit(c: char) -> (r: i32)
    ensures
        r as int == z85_digit_of(c),
{
    proof {
        reveal(z85_digit_of);
    }
        if c == '0' {
            0
        } else if c == '1' {
            1
        } else if c == '2' {
            2
        } else if c == '3' {
            3
        } else if c == '4' {
            4
        } else if c == '5' {
            5
        } else if c == '6' {
            6
        } else if c == '7' {
            7
        } else if c == '8' {
            8
        } else if c == '9' {
            9
        } else if c == 'a' {
            10
        } else if c == 'b' {
            11
        } else if c == 'c' {
            12
        } else if c == 'd' {
            13
        } else if c == 'e' {
            14
        } else if c == 'f' {
            15
        } else if c == 'g' {
            16
        } else if c == 'h' {
            17
        } else if c == 'i' {
            18
        } else if c == 'j' {
            19
        } else if c == 'k' {
            20
        } else if c == 'l' {
            21
        } else if c == 'm' {
            22
        } else if c == 'n' {
            23
        } else if c == 'o' {
            24
        } else if c == 'p' {
            25
        } else if c == 'q' {
            26
        } else if c == 'r' {
            27
        } else if c == 's' {
            28
        } else if c == 't' {
            29
        } else if c == 'u' {
            30
        } else if c == 'v' {
            31
        } else if c == 'w' {
            32
        } else if c == 'x' {
            33
        } else if c == 'y' {
            34
        } else if c == 'z' {
            35
        } else if c == 'A' {
            36
        } else if c == 'B' {
            37
        } else if c == 'C' {
            38
        } else if c == 'D' {
            39
        } else if c == 'E' {
            40
        } else if c == 'F' {
            41
        } else if c == 'G' {
            42
        } else if c == 'H' {
            43
        } else if c == 'I' {
            44
        } else if c == 'J' {
            45
        } else if c == 'K' {
            46
        } else if c == 'L' {
            47
        } else if c == 'M' {
            48
        } else if c == 'N' {
            49
        } else if c == 'O' {
            50
        } else if c == 'P' {
            51
        } else if c == 'Q' {
            52
        } else if c == 'R' {
            53
        } else if c == 'S' {
            54
        } else if c == 'T' {
            55
        } else if c == 'U' {
            56
        } else if c == 'V' {
            57
        } else if c == 'W' {
            58
        } else if c == 'X' {
            59
        } else if c == 'Y' {
            60
        } else if c == 'Z' {
            61
        } else if c == '.' {
            62
        } else if c == '-' {
            63
        } else if c == ':' {
            64
        } else if c == '+' {
            65
        } else if c == '=' {
            66
        } else if c == '^' {
            67
        } else if c == '!' {
            68
        } else if c == '/' {
            69
        } else if c == '*' {
            70
        } else if c == '?' {
            71
        } else if c == '&' {
            72
        } else if c == '<' {
            73
        } else if c == '>' {
            74
        } else if c == '(' {
            75
        } else if c == ')' {
            76
        } else if c == '[' {
            77
        } else if c == ']' {
            78
        } else if c == '{' {
            79
        } else if c == '}' {
            80
        } else if c == '@' {
            81
        } else if c == '%' {
            82
        } else if c == '$' {
            83
        } else if c == '#' {
            84
        } else {
            -1
        }
}

/// Relies on std's `FromIterator` for `String`: collecting characters
/// yields exactly those characters.
#[verifier::external_body]
fn chars_to_string(v: &Vec<char>) -> (r: String)
    ensures
        r@ == v@,
{
    v.iter().collect()
}

/// Encodes a byte string whose length is a positive multiple of four
/// as Z85 text, five characters per four bytes.
fn z85_encode(b: &Vec<u8>) -> (r: Option<String>)
    ensures
        r is Some <==> (b@.len() > 0 && b@.len() % 4 == 0),
        r matches Some(s) ==> s@ == z85_of(b@) && s@.len() == b@.len() / 4 * 5,
{
    let n = b.len();
    if n == 0 || n % 4 != 0 {
        return None;
    }
    let mut out: Vec<char> = Vec::new();
    let mut i: usize = 0;
    proof {
        assert(b@.skip(0) =~= b@);
        assert(Seq::<char>::empty() + z85_of(b@) =~= z85_of(b@));
    }
    while i < n
        invariant
            i <= n,
            i % 4 == 0,
            n % 4 == 0,
            n == b@.len(),
            z85_of(b@) == out@ + z85_of(b@.skip(i as int)),
            5 * i == 4 * out@.len(),
        decreases n - i,
    {
        let ghost iold = i as int;
        let ghost oold = out@;
        let v: u64 = (b[i] as u64) * 16777216 + (b[i + 1] as u64) * 65536 + (b[i + 2] as u64)
            * 256 + (b[i + 3] as u64);
        out.push(z85_char((v / 52200625) % 85));
        out.push(z85_char((v / 614125) % 85));
        out.push(z85_char((v / 7225) % 85));
        out.push(z85_char((v / 85) % 85));
        out.push(z85_char(v % 85));
        i = i + 4;
        proof {
            let bi = b@.skip(iold);
            assert(bi.take(4) =~= b@.subrange(iold, iold + 4));
            assert(bi.skip(4) =~= b@.skip(iold + 4));
            assert(bi.take(4)[0] == b@[iold] && bi.take(4)[1] == b@[iold + 1] && bi.take(4)[2]
                == b@[iold + 2] && bi.take(4)[3] == b@[iold + 3]);
            assert(v as int == be_value(bi.take(4)));
            assert(z85_of(bi) == z85_block(v as int) + z85_of(b@.skip(i as int)));
            assert(out@ =~= oold + z85_block(v as int));
            assert((oold + z85_block(v as int)) + z85_of(b@.skip(i as int)) =~= oold + z85_of(
                bi,
            ));
            assert(z85_of(b@) == out@ + z85_of(b@.skip(i as int)));
        }
    }
    proof {
        assert(b@.skip(n as int) =~= Seq::<u8>::empty());
        assert(z85_of(Seq::<u8>::empty()) == Seq::<char>::empty());
        assert(out@ + Seq::<char>::empty() =~= out@);
        assert(out@ == z85_of(b@));
        lemma_fundamental_div_mod(n as int, 4);
        assert(out@.len() == (n as int / 4) * 5) by (nonlinear_arith)
            requires
                4 * out@.len() == 5 * (n as int),
                n as int == 4 * (n as int / 4);
    }
    Some(chars_to_string(&out))
}

/// Decodes Z85 text into the bytes it denotes.
fn z85_decode(s: &str) -> (r: Option<Vec<u8>>)
    ensures
        r is Some <==> z85_dec(s@) is Some,
        r matches Some(v) ==> z85_dec(s@) == Some(v@),
{
    let n = s.unicode_len();
    if n == 0 {
        return None;
    }
    let mut out: Vec<u8> = Vec::new();
    let mut i: usize = 0;
    proof {
        assert(s@.skip(0) =~= s@);
        let g = z85_dec_groups(s@);
        if g is Some {
            assert(Seq::<u8>::empty() + g.unwrap() =~= g.unwrap());
        }
    }
    while i < n
        invariant
            i <= n,
            i % 5 == 0,
            n == s@.len(),
            n > 0,
            z85_dec_groups(s@) == match z85_dec_groups(s@.skip(i as int)) {
                None => None::<Seq<u8>>,
                Some(rest) => Some(out@ + rest),
            },
        decreases n - i,
    {
        let ghost iold = i as int;
        let ghost oold = out@;
        let ghost si = s@.skip(iold);
        if n - i < 5 {
            proof {
                assert(0 < si.len() < 5);
                assert(z85_dec_groups(si) is None);
            }
            return None;
        }
        let d0 = z85_digit(s.get_char(i));
        let d1 = z85_digit(s.get_char(i + 1));
        let d2 = z85_digit(s.get_char(i + 2));
        let d3 = z85_digit(s.get_char(i + 3));
        let d4 = z85_digit(s.get_char(i + 4));
        proof {
            assert(si.take(5) =~= s@.subrange(iold, iold + 5));
            assert(si.take(5)[0] == s@[iold] && si.take(5)[1] == s@[iold + 1] && si.take(5)[2]
                == s@[iold + 2] && si.take(5)[3] == s@[iold + 3] && si.take(5)[4] == s@[iold
                + 4]);
        }
        if d0 < 0 || d1 < 0 || d2 < 0 || d3 < 0 || d4 < 0 {
            proof {
                assert(!z85_block_ok(si.take(5)));
                assert(z85_dec_groups(si) is None);
            }
            return None;
        }
        let v: u64 = ((((d0 as u64) * 85 + (d1 as u64)) * 85 + (d2 as u64)) * 85 + (d3 as u64))
            * 85 + (d4 as u64);
        proof {
            assert(v as int == z85_block_val(si.take(5)));
        }
        if v >= 4294967296 {
            proof {
                assert(!z85_block_ok(si.take(5)));
                assert(z85_dec_groups(si) is None);
            }
            return None;
        }
        out.push(((v / 16777216) % 256) as u8);
        out.push(((v / 65536) % 256) as u8);
        out.push(((v / 256) % 256) as u8);
        out.push((v % 256) as u8);
        i = i + 5;
        proof {
            assert(z85_block_ok(si.take(5)));
            assert(si.skip(5) =~= s@.skip(i as int));
            assert(out@ =~= oold + be_bytes(v as int));
            assert(z85_dec_groups(si) == match z85_dec_groups(s@.skip(i as int)) {
                None => None::<Seq<u8>>,
                Some(rest) => Some(be_bytes(v as int) + rest),
            });
            let gr = z85_dec_groups(s@.skip(i as int));
            if gr is Some {
                let rest = gr.unwrap();
                assert((oold + be_bytes(v as int)) + rest =~= oold + (be_bytes(v as int)
                    + rest));
            }
        }
    }
    proof {
        assert(s@.skip(n as int) =~= Seq::<char>::empty());
        assert(z85_dec_groups(Seq::<char>::empty()) == Some(Seq::<u8>::empty()));
        assert(out@ + Seq::<u8>::empty() =~= out@);
        assert(z85_dec(s@) == Some(out@));
    }
    Some(out)
}

/// Every block value below two to the 32nd survives the digit round
/// trip.
proof fn lemma_block_round_trip(v: int)
    requires
        0 <= v < 4294967296,
    ensures
        z85_block_ok(z85_block(v)),
        z85_block_val(z85_block(v)) == v,
{
    lemma_fundamental_div_mod(v, 85);
    lemma_div_denominator(v, 85, 85);
    lemma_fundamental_div_mod(v / 85, 85);
    lemma_div_denominator(v, 7225, 85);
    lemma_fundamental_div_mod(v / 7225, 85);
    lemma_div_denominator(v, 614125, 85);
    lemma_fundamental_div_mod(v / 614125, 85);
    assert(v / 52200625 <= 82) by {
        vstd::arithmetic::div_mod::lemma_div_is_ordered(v, 4294967295, 52200625);
        lemma_fundamental_div_mod_converse_div(4294967295, 52200625, 82, 14516045);
    }
    vstd::arithmetic::div_mod::lemma_div_pos_is_pos(v, 52200625);
    lemma_fundamental_div_mod_converse_mod(v / 52200625, 85, 0, v / 52200625);
    lemma_z85_table((v / 52200625) % 85);
    lemma_z85_table((v / 614125) % 85);
    lemma_z85_table((v / 7225) % 85);
    lemma_z85_table((v / 85) % 85);
    lemma_z85_table(v % 85);
}

/// Every four-byte group survives the value round trip.
proof fn lemma_be_round_trip(b: Seq<u8>)
    requires
        b.len() == 4,
    ensures
        0 <= be_value(b) < 4294967296,
        be_bytes(be_value(b)) == b,
{
    let v = be_value(b);
    lemma_fundamental_div_mod_converse_mod(v, 256, b[0] * 65536 + b[1] * 256 + b[2], b[3] as int);
    lemma_fundamental_div_mod_converse_div(v, 256, b[0] * 65536 + b[1] * 256 + b[2], b[3] as int);
    let v1 = b[0] * 65536 + b[1] * 256 + b[2];
    lemma_fundamental_div_mod_converse_mod(v1, 256, b[0] * 256 + b[1], b[2] as int);
    lemma_fundamental_div_mod_converse_div(v1, 256, b[0] * 256 + b[1], b[2] as int);
    let v2 = b[0] * 256 + b[1];
    lemma_fundamental_div_mod_converse_mod(v2, 256, b[0] as int, b[1] as int);
    lemma_fundamental_div_mod_converse_div(v2, 256, b[0] as int, b[1] as int);
    lemma_fundamental_div_mod_converse_mod(b[0] as int, 256, 0, b[0] as int);
    lemma_div_denominator(v, 256, 256);
    lemma_div_denominator(v, 65536, 256);
    assert(v / 65536 == v1 / 256);
    assert(v / 16777216 == v2 / 256);
    assert(be_bytes(v) =~= b);
}

proof fn lemma_z85_groups_round_trip(b: Seq<u8>)
    requires
        b.len() % 4 == 0,
    ensures
        z85_of(b).len() == b.len() / 4 * 5,
        z85_dec_groups(z85_of(b)) == Some(b),
    decreases b.len(),
{
    if b.len() == 0 {
        assert(z85_of(b) =~= Seq::<char>::empty());
    } else {
        let head = b.take(4);
        lemma_be_round_trip(head);
        let v = be_value(head);
        lemma_block_round_trip(v);
        assert(b.skip(4).len() % 4 == 0) by {
            lemma_fundamental_div_mod(b.len() as int, 4);
            lemma_fundamental_div_mod_converse_mod(b.len() - 4, 4, b.len() / 4 - 1, 0);
        }
        lemma_z85_groups_round_trip(b.skip(4));
        let t = z85_of(b);
        assert(t == z85_block(v) + z85_of(b.skip(4)));
        assert(t.take(5) =~= z85_block(v));
        assert(t.skip(5) =~= z85_of(b.skip(4)));
        assert(z85_dec_groups(t) == Some(be_bytes(v) + b.skip(4)));
        assert(be_bytes(v) + b.skip(4) =~= b);
        assert(t.len() == 5 + (b.skip(4).len() / 4) * 5);
        assert(b.len() / 4 == b.skip(4).len() / 4 + 1) by {
            lemma_fundamental_div_mod(b.len() as int, 4);
            lemma_fundamental_div_mod_converse_div(b.len() - 4, 4, b.len() / 4 - 1, 0);
        }
        assert(t.len() == (b.len() / 4) * 5) by (nonlinear_arith)
            requires
                t.len() == 5 + (b.skip(4).len() / 4) * 5,
                b.len() / 4 == b.skip(4).len() / 4 + 1;
    }
}

/// Round trip of the Z85 text codec: decoding the text of a non-empty
/// byte string whose length is a multiple of four returns the bytes
/// unchanged.
pub proof fn lemma_z85_round_trip(b: Seq<u8>)
    requires
        b.len() % 4 == 0,
        b.len() > 0,
    ensures
        z85_of(b).len() == b.len() / 4 * 5,
        z85_dec(z85_of(b)) == Some(b),
{
    lemma_z85_groups_round_trip(b);
    assert(z85_of(b).len() > 0) by {
        assert(b.len() >= 4);
    }
}

/// The Z85 text of one stamp's compact form.
pub open spec fn stamp_z85(s: Stamp) -> Seq<char> {
    z85_of(stamp_bytes(s))
}

/// The stamp a Z85 text denotes, if it decodes to a valid compact form.
pub open spec fn z85_stamp_dec(t: Seq<char>) -> Option<Stamp> {
    match z85_dec(t) {
        None => None,
        Some(b) => stamp_dec(b),
    }
}

/// The Z85 text of one duration's compact form.
pub open spec fn dur_z85(d: Dur) -> Seq<char> {
    z85_of(dur_bytes(d))
}

/// The duration a Z85 text denotes, if it decodes to a valid compact
/// form.
pub open spec fn z85_dur_dec(t: Seq<char>) -> Option<Dur> {
    match z85_dec(t) {
        None => None,
        Some(b) => dur_dec(b),
    }
}

/// Text round trip for stamps: decoding an encoded stamp returns it
/// unchanged.
pub proof fn lemma_stamp_text_round_trip(s: Stamp)
    requires
        s.wf(),
    ensures
        z85_stamp_dec(stamp_z85(s)) == Some(s),
{
    lemma_stamp_codec_round_trip(s);
    lemma_z85_round_trip(stamp_bytes(s));
}

/// Text round trip for durations: decoding an encoded duration returns
/// it unchanged.
pub proof fn lemma_dur_text_round_trip(d: Dur)
    requires
        d.wf(),
    ensures
        z85_dur_dec(dur_z85(d)) == Some(d),
{
    lemma_dur_codec_round_trip(d);
    lemma_z85_round_trip(dur_bytes(d));
}

/// Encodes a stamp as fifteen characters of Z85 text.
pub fn stamp_to_z85(s: &Stamp) -> (r: String)
    requires
        s.wf(),
    ensures
        r@ == stamp_z85(*s),
        r@.len() == 15,
{
    let b = stamp_to_bytes(s);
    match z85_encode(&b) {
        Some(t) => t,
        None => vstd::pervasive::unreached(),
    }
}

/// Decodes a Z85 text into the stamp it denotes.
pub fn z85_to_stamp(t: &str) -> (r: Option<Stamp>)
    ensures
        r == z85_stamp_dec(t@),
        r matches Some(s) ==> s.wf(),
{
    match z85_decode(t) {
        None => None,
        Some(b) => bytes_to_stamp(&b),
    }
}

/// Encodes a duration as fifteen characters of Z85 text.
pub fn dur_to_z85(d: &Dur) -> (r: String)
    ensures
        r@ == dur_z85(*d),
        r@.len() == 15,
{
    let b = dur_to_bytes(d);
    match z85_encode(&b) {
        Some(t) => t,
        None => vstd::pervasive::unreached(),
    }
}

/// Decodes a Z85 text into the duration it denotes.
pub fn z85_to_dur(t: &str) -> (r: Option<Dur>)
    ensures
        r == z85_dur_dec(t@),
        r matches Some(d) ==> d.wf(),
{
    match z85_decode(t) {
        None => None,
        Some(b) => bytes_to_dur(&b),
    }
}

/// The Z85 text of a Z85-encoded stamp moved forward by a Z85-encoded
/// duration, when both decode and the sum stays in range.
pub open spec fn added_z85(t: Seq<char>, u: Seq<char>) -> Option<Seq<char>> {
    match z85_stamp_dec(t) {
        None => None,
        Some(s) => match z85_dur_dec(u) {
            None => None,
            Some(d) => match stamp_plus(s, d) {
                None => None,
                Some(r) => Some(stamp_z85(r)),
            },
        },
    }
}

/// The Z85 text of a Z85-encoded stamp moved backward by a Z85-encoded
/// duration, when both decode and the difference stays in range.
pub open spec fn subtracted_z85(t: Seq<char>, u: Seq<char>) -> Option<Seq<char>> {
    match z85_stamp_dec(t) {
        None => None,
        Some(s) => match z85_dur_dec(u) {
            None => None,
            Some(d) => match stamp_minus(s, d) {
                None => None,
                Some(r) => Some(stamp_z85(r)),
            },
        },
    }
}

/// Adds an encoded duration to an encoded timestamp, returning the
/// encoded result; the utc offset is kept.  Nothing is returned when
/// either text does not decode or the result leaves the range.
pub fn datetime_add_duration(t: &str, u: &str) -> (r: Option<String>)
    ensures
        (r is Some) == (added_z85(t@, u@) is Some),
        r matches Some(x) ==> added_z85(t@, u@) == Some(x@),
{
    let s = match z85_to_stamp(t) {
        Some(s) => s,
        None => {
            return None;
        },
    };
    let d = match z85_to_dur(u) {
        Some(d) => d,
        None => {
            return None;
        },
    };
    let sum = match stamp_add(&s, &d) {
        Some(x) => x,
        None => {
            return None;
        },
    };
    Some(stamp_to_z85(&sum))
}

/// Subtracts an encoded duration from an encoded timestamp, returning
/// the encoded result; the utc offset is kept.  Nothing is returned
/// when either text does not decode or the result leaves the range.
pub fn datetime_sub_duration(t: &str, u: &str) -> (r: Option<String>)
    ensures
        (r is Some) == (subtracted_z85(t@, u@) is Some),
        r matches Some(x) ==> subtracted_z85(t@, u@) == Some(x@),
{
    let s = match z85_to_stamp(t) {
        Some(s) => s,
        None => {
            return None;
        },
    };
    let d = match z85_to_dur(u) {
        Some(d) => d,
        None => {
            return None;
        },
    };
    let diff = match stamp_sub(&s, &d) {
        Some(x) => x,
        None => {
            return None;
        },
    };
    Some(stamp_to_z85(&diff))
}

} // verus!
