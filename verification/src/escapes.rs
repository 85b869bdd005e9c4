//! Percent-decoding as the daemon URL and OSC 7 payloads use it.
//!
//! The decoder walks the UTF-8 bytes of its input. `%XY` with two hex digits
//! (or `+` and one hex digit, which `u8::from_str_radix` also accepts) becomes
//! one byte; every other byte is copied. The daemon URL's query values take
//! each resulting byte as the `char` with that code point; paths read the
//! bytes back as UTF-8.

use vstd::prelude::*;
use vstd::string::*;
use vstd::utf8::*;

verus! {

pub open spec fn hex_value(b: u8) -> Option<u8> {
    if 0x30 <= b <= 0x39 {
        Some((b - 0x30) as u8)
    } else if 0x61 <= b <= 0x66 {
        Some((b - 0x61 + 10) as u8)
    } else if 0x41 <= b <= 0x46 {
        Some((b - 0x41 + 10) as u8)
    } else {
        None
    }
}

/// `u8::from_str_radix` on the two bytes after a `%`.
pub open spec fn hex_pair(a: u8, b: u8) -> Option<u8> {
    match (hex_value(a), hex_value(b)) {
        (Some(x), Some(y)) => Some((x * 16 + y) as u8),
        (None, Some(y)) => if a == 0x2b {
            Some(y)
        } else {
            None
        },
        _ => None,
    }
}

pub open spec fn percent_decode_bytes(b: Seq<u8>) -> Seq<char>
    decreases b.len(),
{
    if b.len() == 0 {
        Seq::empty()
    } else if b[0] == 0x25 && b.len() >= 3 && hex_pair(b[1], b[2]) is Some {
        seq![(hex_pair(b[1], b[2])->0) as char] + percent_decode_bytes(b.skip(3))
    } else {
        seq![b[0] as char] + percent_decode_bytes(b.skip(1))
    }
}

/// Percent-decoding of the text `s`.
pub open spec fn percent_decoded(s: Seq<char>) -> Seq<char> {
    percent_decode_bytes(encode_utf8(s))
}

fn hex_digit(b: u8) -> (r: Option<u8>)
    ensures
        r == hex_value(b),
{
    if 0x30 <= b && b <= 0x39 {
        Some(b - 0x30)
    } else if 0x61 <= b && b <= 0x66 {
        Some(b - 0x61 + 10)
    } else if 0x41 <= b && b <= 0x46 {
        Some(b - 0x41 + 10)
    } else {
        None
    }
}

fn hex_pair_value(a: u8, b: u8) -> (r: Option<u8>)
    ensures
        r == hex_pair(a, b),
{
    match (hex_digit(a), hex_digit(b)) {
        (Some(x), Some(y)) => Some(x * 16 + y),
        (None, Some(y)) => if a == 0x2b {
            Some(y)
        } else {
            None
        },
        _ => None,
    }
}

/// Decode the bytes `b` (see the module documentation).
pub fn percent_decode_slice(b: &[u8]) -> (r: Vec<char>)
    ensures
        r@ == percent_decode_bytes(b@),
{
    let mut out: Vec<char> = Vec::new();
    let mut i: usize = 0;
    proof {
        assert(b@.skip(0) =~= b@);
    }
    while i < b.len()
        invariant
            i <= b.len(),
            out@ + percent_decode_bytes(b@.skip(i as int)) == percent_decode_bytes(b@),
        decreases b.len() - i,
    {
        let ghost rest = b@.skip(i as int);
        if b[i] == 0x25 && b.len() - i > 2 {
            if let Some(v) = hex_pair_value(b[i + 1], b[i + 2]) {
                proof {
                    assert(rest[0] == b@[i as int] && rest[1] == b@[i + 1] && rest[2] == b@[i + 2]);
                    assert(rest.skip(3) =~= b@.skip(i + 3));
                    assert(out@.push(v as char) + percent_decode_bytes(b@.skip(i + 3)) =~= out@
                        + (seq![v as char] + percent_decode_bytes(rest.skip(3))));
                }
                out.push(v as char);
                i += 3;
                continue;
            }
        }
        proof {
            assert(rest[0] == b@[i as int]);
            if rest.len() >= 3 {
                assert(rest[1] == b@[i + 1] && rest[2] == b@[i + 2]);
            }
            assert(rest.skip(1) =~= b@.skip(i + 1));
            assert(out@.push(b@[i as int] as char) + percent_decode_bytes(b@.skip(i + 1)) =~= out@
                + (seq![b@[i as int] as char] + percent_decode_bytes(rest.skip(1))));
        }
        out.push(b[i] as char);
        i += 1;
    }
    proof {
        assert(out@ + percent_decode_bytes(b@.skip(b.len() as int)) =~= out@);
    }
    out
}

/// Percent-decode the text `s`.
pub fn percent_decode(s: &str) -> (r: Vec<char>)
    ensures
        r@ == percent_decoded(s@),
{
    percent_decode_slice(s.as_bytes())
}

/// The bytes `b` percent-decoded (the same rule, kept as bytes).
pub open spec fn percent_decode_to_bytes(b: Seq<u8>) -> Seq<u8>
    decreases b.len(),
{
    if b.len() == 0 {
        Seq::empty()
    } else if b[0] == 0x25 && b.len() >= 3 && hex_pair(b[1], b[2]) is Some {
        seq![hex_pair(b[1], b[2])->0] + percent_decode_to_bytes(b.skip(3))
    } else {
        seq![b[0]] + percent_decode_to_bytes(b.skip(1))
    }
}

/// Decode the bytes `b` to bytes.
pub fn percent_decode_byte_slice(b: &[u8]) -> (r: Vec<u8>)
    ensures
        r@ == percent_decode_to_bytes(b@),
{
    let mut out: Vec<u8> = Vec::new();
    let mut i: usize = 0;
    proof {
        assert(b@.skip(0) =~= b@);
    }
    while i < b.len()
        invariant
            i <= b.len(),
            out@ + percent_decode_to_bytes(b@.skip(i as int)) == percent_decode_to_bytes(b@),
        decreases b.len() - i,
    {
        let ghost rest = b@.skip(i as int);
        if b[i] == 0x25 && b.len() - i > 2 {
            if let Some(v) = hex_pair_value(b[i + 1], b[i + 2]) {
                proof {
                    assert(rest[0] == b@[i as int] && rest[1] == b@[i + 1] && rest[2] == b@[i + 2]);
                    assert(rest.skip(3) =~= b@.skip(i + 3));
                    assert(out@.push(v) + percent_decode_to_bytes(b@.skip(i + 3)) =~= out@
                        + (seq![v] + percent_decode_to_bytes(rest.skip(3))));
                }
                out.push(v);
                i += 3;
                continue;
            }
        }
        proof {
            assert(rest[0] == b@[i as int]);
            if rest.len() >= 3 {
                assert(rest[1] == b@[i + 1] && rest[2] == b@[i + 2]);
            }
            assert(rest.skip(1) =~= b@.skip(i + 1));
            assert(out@.push(b@[i as int]) + percent_decode_to_bytes(b@.skip(i + 1)) =~= out@
                + (seq![b@[i as int]] + percent_decode_to_bytes(rest.skip(1))));
        }
        out.push(b[i]);
        i += 1;
    }
    proof {
        assert(out@ + percent_decode_to_bytes(b@.skip(b.len() as int)) =~= out@);
    }
    out
}

/// A text without `%` escapes decodes to its own bytes.
pub proof fn lemma_no_escape_bytes(b: Seq<u8>)
    requires
        forall|i: int| 0 <= i < b.len() ==> b[i] != 0x25,
    ensures
        percent_decode_to_bytes(b) == b,
    decreases b.len(),
{
    if b.len() > 0 {
        assert forall|i: int| 0 <= i < b.skip(1).len() implies b.skip(1)[i] != 0x25 by {
            assert(b.skip(1)[i] == b[i + 1]);
        }
        lemma_no_escape_bytes(b.skip(1));
        assert(seq![b[0]] + b.skip(1) =~= b);
    }
}

/// What `String::from_utf8_lossy` gives for `b`: the UTF-8 text of `b`, with
/// U+FFFD in place of each invalid sequence.
pub uninterp spec fn utf8_lossy(b: Seq<u8>) -> Seq<char>;

/// The text of UTF-8 bytes: valid UTF-8 decoded, anything else as
/// `String::from_utf8_lossy` repairs it.
pub open spec fn utf8_text(b: Seq<u8>) -> Seq<char> {
    if valid_utf8(b) {
        decode_utf8(b)
    } else {
        utf8_lossy(b)
    }
}

/// `String::from_utf8_lossy`: valid UTF-8 comes back unchanged; the result
/// for other bytes is named, not stated.
#[verifier::external_body]
pub fn from_utf8_lossy(b: &[u8]) -> (r: String)
    ensures
        r@ == if valid_utf8(b@) {
            decode_utf8(b@)
        } else {
            utf8_lossy(b@)
        },
{
    String::from_utf8_lossy(b).into_owned()
}

/// Percent-decoding of the text `s` read back as UTF-8 (lossily).
pub open spec fn percent_decoded_utf8(s: Seq<char>) -> Seq<char> {
    utf8_text(percent_decode_to_bytes(encode_utf8(s)))
}

/// Percent-decode the text `s`, then read the bytes as UTF-8.
pub fn percent_decode_utf8(s: &str) -> (r: String)
    ensures
        r@ == percent_decoded_utf8(s@),
{
    let bytes = percent_decode_byte_slice(s.as_bytes());
    from_utf8_lossy(bytes.as_slice())
}

proof fn lemma_high_bit(x: u8)
    ensures
        (0x80u8 | x) != 0x25u8,
        (0xC0u8 | x) != 0x25u8,
        (0xE0u8 | x) != 0x25u8,
        (0xF0u8 | x) != 0x25u8,
{
    assert((0x80u8 | x) >= 0x80u8) by (bit_vector);
    assert((0xC0u8 | x) >= 0x80u8) by (bit_vector);
    assert((0xE0u8 | x) >= 0x80u8) by (bit_vector);
    assert((0xF0u8 | x) >= 0x80u8) by (bit_vector);
}

proof fn lemma_scalar_bytes(c: char)
    requires
        c != '%',
    ensures
        forall|i: int| 0 <= i < encode_scalar(c as u32).len() ==> #[trigger] encode_scalar(c as u32)[i] != 0x25,
{
    let u = c as u32;
    char_is_scalar(c);
    if has_width_1_encoding(u) {
        assert((u & 0x7F) as u8 == u as u8) by (bit_vector)
            requires
                u <= 0x7F,
        ;
        assert(u != 0x25) by {
            char_u32_cast(c, u);
        }
    } else {
        lemma_high_bit(((u >> 6) & 0x1F) as u8);
        lemma_high_bit(((u >> 12) & 0x0F) as u8);
        lemma_high_bit(((u >> 18) & 0x7) as u8);
        lemma_high_bit((u & 0x3F) as u8);
        lemma_high_bit(((u >> 6) & 0x3F) as u8);
        lemma_high_bit(((u >> 12) & 0x3F) as u8);
    }
}

proof fn lemma_encode_no_percent(s: Seq<char>)
    requires
        !s.contains('%'),
    ensures
        forall|i: int| 0 <= i < encode_utf8(s).len() ==> #[trigger] encode_utf8(s)[i] != 0x25,
    decreases s.len(),
{
    if s.len() > 0 {
        assert(!s.drop_first().contains('%')) by {
            if s.drop_first().contains('%') {
                let j = choose|j: int| 0 <= j < s.drop_first().len() && s.drop_first()[j] == '%';
                assert(s[j + 1] == '%');
            }
        }
        lemma_encode_no_percent(s.drop_first());
        assert(s[0] != '%') by {
            if s[0] == '%' {
                assert(s.contains('%'));
            }
        }
        lemma_scalar_bytes(s[0]);
        let a = encode_scalar(s[0] as u32);
        let b = encode_utf8(s.drop_first());
        assert forall|i: int| 0 <= i < (a + b).len() implies (a + b)[i] != 0x25 by {
            if i >= a.len() {
                assert((a + b)[i] == b[i - a.len()]);
            }
        }
    }
}

/// Text without `%` escapes decodes to itself, whatever its characters.
pub proof fn unescaped_text_decodes_to_itself(s: Seq<char>)
    requires
        !s.contains('%'),
    ensures
        percent_decoded_utf8(s) == s,
{
    lemma_encode_no_percent(s);
    lemma_no_escape_bytes(encode_utf8(s));
    encode_utf8_valid_utf8(s);
    encode_utf8_decode_utf8(s);
}

} // verus!
