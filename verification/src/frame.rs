//! The frame of an entry file: a payload between magic numbers, with its length
//! and its checksum.
//!
//! ```text
//! VDE1\n
//! <payload length, 20 decimal digits>\n
//! <payload>\n
//! <CRC-32 of the payload, 8 lower-case hexadecimal digits>\n
//! VDE-END-1\n
//! ```
use vstd::prelude::*;

use crate::crc;
use crate::crc::checksum;
use crate::numeral;
use crate::numeral::{are_digits, fixed_decimal, fixed_hex, read_decimal};
use crate::text::{chars_of, string_of, text_eq};

verus! {

/// The number of digits of a length or a version: those of the largest `u64`.
pub const VERSION_WIDTH: usize = 20;

/// The length of the opening magic number, the length field and its line break.
pub const HEADER_LEN: usize = 26;

/// The length of what follows the payload.
pub const TAIL_LEN: usize = 20;

/// The opening magic number, `VDE1` and a line break.
pub open spec fn magic() -> Seq<u8> {
    seq![0x56u8, 0x44, 0x45, 0x31, 0x0a]
}

/// The closing magic number, `VDE-END-1` and a line break.
pub open spec fn tail_magic() -> Seq<u8> {
    seq![0x56u8, 0x44, 0x45, 0x2d, 0x45, 0x4e, 0x44, 0x2d, 0x31, 0x0a]
}

/// A line break.
pub open spec fn line_break() -> Seq<u8> {
    seq![0x0au8]
}

/// The bytes of an ASCII text.
pub open spec fn ascii_bytes(s: Seq<char>) -> Seq<u8> {
    Seq::new(s.len(), |i: int| s[i] as u8)
}

/// The characters with the numbers of the given bytes.
pub open spec fn byte_chars(b: Seq<u8>) -> Seq<char> {
    Seq::new(b.len(), |i: int| b[i] as char)
}

/// Whether every character is an ASCII character.
pub open spec fn is_ascii(s: Seq<char>) -> bool {
    forall|i: int| 0 <= i < s.len() ==> 0 <= (#[trigger] s[i] as int) < 128
}

/// A payload in its frame.
pub open spec fn framed(payload: Seq<u8>) -> Seq<u8> {
    magic() + ascii_bytes(numeral::dec_fixed(payload.len(), 20)) + line_break() + payload
        + line_break() + ascii_bytes(numeral::hex_fixed(crc::crc(payload) as nat, 8))
        + line_break() + tail_magic()
}

/// The payload length that a file states; `None` where the file is too short,
/// does not begin as a frame does, or states no length.
pub open spec fn stated_length(b: Seq<u8>) -> Option<nat> {
    let digits = byte_chars(b.subrange(5, 25));
    if b.len() < 46 || b.take(5) != magic() || !numeral::all_digits(digits) || b[25] != 0x0a {
        None
    } else {
        Some(numeral::dec_value(digits))
    }
}

/// The payload of a frame; `None` where the magic numbers, the line breaks, the
/// length or the checksum do not fit.
pub open spec fn unframed(b: Seq<u8>) -> Option<Seq<u8>> {
    match stated_length(b) {
        None => None,
        Some(n) => {
            let end = 26 + n as int;
            let payload = b.subrange(26, end);
            if b.len() == 46 + n && b[end] == 0x0a && b[end + 9] == 0x0a && b.skip(end + 10)
                == tail_magic() && byte_chars(b.subrange(end + 1, end + 9)) == numeral::hex_fixed(
                crc::crc(payload) as nat,
                8,
            ) {
                Some(payload)
            } else {
                None
            }
        },
    }
}

proof fn lemma_ascii_round_trip(s: Seq<char>)
    requires
        is_ascii(s),
    ensures
        byte_chars(ascii_bytes(s)) == s,
{
    assert forall|i: int| 0 <= i < s.len() implies byte_chars(ascii_bytes(s))[i] == s[i] by {
        let c = s[i];
        assert(0 <= (c as int) < 128);
        assert(ascii_bytes(s)[i] as int == c as int);
    }
    assert(byte_chars(ascii_bytes(s)) =~= s);
}

proof fn lemma_digits_ascii(s: Seq<char>)
    ensures
        numeral::all_digits(s) ==> is_ascii(s),
        numeral::all_hex(s) ==> is_ascii(s),
{
    if numeral::all_digits(s) {
        assert forall|i: int| 0 <= i < s.len() implies 0 <= (#[trigger] s[i] as int) < 128 by {
            assert(numeral::is_digit(s[i]));
        }
    }
    if numeral::all_hex(s) {
        assert forall|i: int| 0 <= i < s.len() implies 0 <= (#[trigger] s[i] as int) < 128 by {
            assert(numeral::hex_digit_value(s[i]) is Some);
        }
    }
}

/// The parts of a frame.
proof fn lemma_framed(payload: Seq<u8>)
    requires
        payload.len() < numeral::pow10(20),
    ensures
        ({
            let b = framed(payload);
            let n = payload.len() as int;
            &&& b.len() == 46 + n
            &&& b.take(5) == magic()
            &&& byte_chars(b.subrange(5, 25)) == numeral::dec_fixed(payload.len(), 20)
            &&& numeral::all_digits(byte_chars(b.subrange(5, 25)))
            &&& numeral::dec_value(byte_chars(b.subrange(5, 25))) == n
            &&& b[25] == 0x0a
            &&& b.subrange(26, 26 + n) == payload
            &&& b[26 + n] == 0x0a
            &&& byte_chars(b.subrange(26 + n + 1, 26 + n + 9)) == numeral::hex_fixed(
                crc::crc(payload) as nat,
                8,
            )
            &&& b[26 + n + 9] == 0x0a
            &&& b.skip(26 + n + 10) == tail_magic()
        }),
{
    let b = framed(payload);
    let n = payload.len() as int;
    let digits = numeral::dec_fixed(payload.len(), 20);
    let hex = numeral::hex_fixed(crc::crc(payload) as nat, 8);
    numeral::lemma_dec_fixed(payload.len(), 20);
    numeral::lemma_eight_hex_digits();
    numeral::lemma_hex_fixed(crc::crc(payload) as nat, 8);
    lemma_digits_ascii(digits);
    lemma_digits_ascii(hex);
    lemma_ascii_round_trip(digits);
    lemma_ascii_round_trip(hex);
    assert(b.take(5) =~= magic());
    assert(b.subrange(5, 25) =~= ascii_bytes(digits));
    assert(b.subrange(26, 26 + n) =~= payload);
    assert(b.subrange(26 + n + 1, 26 + n + 9) =~= ascii_bytes(hex));
    assert(b.skip(26 + n + 10) =~= tail_magic());
}

/// The payload is read back from its frame as it was.
pub proof fn law_frame_round_trip(payload: Seq<u8>)
    requires
        payload.len() < numeral::pow10(20),
    ensures
        unframed(framed(payload)) == Some(payload),
{
    lemma_framed(payload);
}

/// A frame that lost bytes at its end is none.
pub proof fn law_truncated_frame_rejected(payload: Seq<u8>, k: int)
    requires
        payload.len() < numeral::pow10(20),
        0 <= k < framed(payload).len(),
    ensures
        unframed(framed(payload).take(k)) is None,
{
    lemma_framed(payload);
    let b = framed(payload);
    let c = b.take(k);
    if k >= 46 {
        assert(c.subrange(5, 25) =~= b.subrange(5, 25));
    }
}

/// A frame with more bytes behind it is none.
pub proof fn law_extended_frame_rejected(payload: Seq<u8>, more: Seq<u8>)
    requires
        payload.len() < numeral::pow10(20),
        more.len() > 0,
    ensures
        unframed(framed(payload) + more) is None,
{
    lemma_framed(payload);
    let b = framed(payload);
    let c = b + more;
    assert(c.subrange(5, 25) =~= b.subrange(5, 25));
}

/// Different checksums are spelled in different ways.
proof fn lemma_checksum_texts(a: u32, b: u32)
    requires
        a != b,
    ensures
        numeral::hex_fixed(a as nat, 8) != numeral::hex_fixed(b as nat, 8),
{
    numeral::lemma_eight_hex_digits();
    numeral::lemma_hex_fixed(a as nat, 8);
    numeral::lemma_hex_fixed(b as nat, 8);
}

/// A wrong byte behind the length field makes a frame none.
proof fn lemma_damaged_body(payload: Seq<u8>, i: int, b: u8)
    requires
        payload.len() < numeral::pow10(20),
        26 <= i < framed(payload).len(),
        b != framed(payload)[i],
    ensures
        unframed(framed(payload).update(i, b)) is None,
{
    lemma_framed(payload);
    let f = framed(payload);
    let d = f.update(i, b);
    let n = payload.len() as int;
    let sum = 26 + n + 1;
    assert(d.take(5) =~= f.take(5));
    assert(d.subrange(5, 25) =~= f.subrange(5, 25));
    assert(stated_length(d) == Some(payload.len()));
    if i < 26 + n {
        let other = payload.update(i - 26, b);
        assert(d.subrange(26, 26 + n) =~= other);
        assert(f.subrange(26, 26 + n)[i - 26] == f[i]);
        crc::law_crc_detects_one_byte(payload, i - 26, b);
        lemma_checksum_texts(crc::crc(payload), crc::crc(other));
        assert(d.subrange(sum, sum + 8) =~= f.subrange(sum, sum + 8));
    } else {
        assert(d.subrange(26, 26 + n) =~= payload);
        if sum <= i < sum + 8 {
            assert(byte_chars(d.subrange(sum, sum + 8))[i - sum] == b as char);
            assert(byte_chars(f.subrange(sum, sum + 8))[i - sum] == f[i] as char);
        } else if i >= sum + 9 {
            assert(d.skip(sum + 9)[i - (sum + 9)] == b);
            assert(f.skip(sum + 9)[i - (sum + 9)] == f[i]);
        }
    }
}

/// A frame with one wrong byte is none, wherever that byte stands.
pub proof fn law_damaged_frame_rejected(payload: Seq<u8>, i: int, b: u8)
    requires
        payload.len() < numeral::pow10(20),
        0 <= i < framed(payload).len(),
        b != framed(payload)[i],
    ensures
        unframed(framed(payload).update(i, b)) is None,
{
    lemma_framed(payload);
    let f = framed(payload);
    let d = f.update(i, b);
    let n = payload.len() as int;
    if i < 5 {
        assert(d.take(5)[i] != magic()[i]);
    } else if i < 25 {
        let digits = byte_chars(f.subrange(5, 25));
        let other = byte_chars(d.subrange(5, 25));
        if numeral::all_digits(other) && numeral::dec_value(other) == n {
            numeral::lemma_dec_fixed_unique(digits);
            numeral::lemma_dec_fixed_unique(other);
            assert(digits[i - 5] == f[i] as char);
            assert(other[i - 5] == b as char);
        }
    } else if i > 25 {
        lemma_damaged_body(payload, i, b);
    }
}

proof fn lemma_bytes_round_trip(b: Seq<u8>)
    ensures
        ascii_bytes(byte_chars(b)) == b,
{
    assert(ascii_bytes(byte_chars(b)) =~= b);
}

/// Whatever a payload is read from is the frame of that payload, byte for byte.
pub proof fn law_only_frames_are_read(b: Seq<u8>)
    requires
        unframed(b) is Some,
    ensures
        b == framed(unframed(b)->0),
{
    let payload = unframed(b)->0;
    let n = payload.len() as int;
    let digits = byte_chars(b.subrange(5, 25));
    let sum = b.subrange(26 + n + 1, 26 + n + 9);
    numeral::lemma_dec_fixed_unique(digits);
    lemma_bytes_round_trip(b.subrange(5, 25));
    lemma_bytes_round_trip(sum);
    assert(b =~= b.take(5) + b.subrange(5, 25) + line_break() + b.subrange(26, 26 + n)
        + line_break() + sum + line_break() + b.skip(26 + n + 10));
}

/// Appends the bytes of an ASCII text.
pub fn push_ascii(out: &mut Vec<u8>, s: &str)
    requires
        is_ascii(s@),
    ensures
        final(out)@ == old(out)@ + ascii_bytes(s@),
{
    let chars = chars_of(s);
    let ghost start = out@;
    assert(start + ascii_bytes(s@).take(0) =~= start);
    for i in 0..chars.len()
        invariant
            chars@ == s@,
            is_ascii(s@),
            out@ == start + ascii_bytes(s@).take(i as int),
    {
        assert((s@[i as int] as int) < 128);
        out.push(chars[i] as u8);
        assert(out@ =~= start + ascii_bytes(s@).take(i + 1));
    }
    assert(ascii_bytes(s@).take(chars@.len() as int) =~= ascii_bytes(s@));
}

/// The characters with the numbers of the given bytes.
pub fn chars_of_bytes(b: &[u8]) -> (r: Vec<char>)
    ensures
        r@ == byte_chars(b@),
{
    let mut r: Vec<char> = Vec::new();
    for i in 0..b.len()
        invariant
            r@ == byte_chars(b@).take(i as int),
    {
        r.push(b[i] as char);
        assert(r@ =~= byte_chars(b@).take(i + 1));
    }
    assert(byte_chars(b@).take(b@.len() as int) =~= byte_chars(b@));
    r
}

/// Whether the bytes from an index on are the given ones.
fn matches_at(b: &[u8], at: usize, want: &[u8]) -> (r: bool)
    requires
        at + want@.len() <= b@.len(),
    ensures
        r == (b@.subrange(at as int, at + want@.len()) == want@),
{
    let ghost part = b@.subrange(at as int, at + want@.len());
    let limit: usize = b.len();
    for i in 0..want.len()
        invariant
            at + want@.len() <= limit,
            limit == b@.len(),
            part == b@.subrange(at as int, at + want@.len()),
            forall|j: int| 0 <= j < i ==> part[j] == want@[j],
    {
        if b[at + i] != want[i] {
            assert(part[i as int] != want@[i as int]);
            return false;
        }
    }
    assert(part =~= want@);
    true
}

/// Puts a payload into its frame.
pub fn frame(payload: &[u8]) -> (r: Vec<u8>)
    ensures
        r@ == framed(payload@),
{
    let length: u64 = payload.len() as u64;
    proof {
        numeral::lemma_twenty_digits();
        assert(length == payload@.len());
        numeral::lemma_eight_hex_digits();
        numeral::lemma_dec_fixed(payload@.len(), 20);
        numeral::lemma_hex_fixed(crc::crc(payload@) as nat, 8);
        lemma_digits_ascii(numeral::dec_fixed(payload@.len(), 20));
        lemma_digits_ascii(numeral::hex_fixed(crc::crc(payload@) as nat, 8));
    }
    let mut out: Vec<u8> = Vec::new();
    let open: [u8; 5] = [0x56, 0x44, 0x45, 0x31, 0x0a];
    let close: [u8; 10] = [0x56, 0x44, 0x45, 0x2d, 0x45, 0x4e, 0x44, 0x2d, 0x31, 0x0a];
    out.extend_from_slice(&open);
    push_ascii(&mut out, fixed_decimal(length, VERSION_WIDTH).as_str());
    out.push(0x0a);
    out.extend_from_slice(payload);
    out.push(0x0a);
    push_ascii(&mut out, fixed_hex(checksum(payload), 8).as_str());
    out.push(0x0a);
    out.extend_from_slice(&close);
    assert(open@ =~= magic());
    assert(close@ =~= tail_magic());
    assert(out@ =~= framed(payload@));
    out
}

/// Takes the payload out of its frame; `None` where anything does not fit.
pub fn unframe(bytes: &[u8]) -> (r: Option<&[u8]>)
    ensures
        match r {
            Some(payload) => unframed(bytes@) == Some(payload@),
            None => unframed(bytes@) is None,
        },
{
    if bytes.len() < HEADER_LEN + TAIL_LEN {
        return None;
    }
    let open: [u8; 5] = [0x56, 0x44, 0x45, 0x31, 0x0a];
    let close: [u8; 10] = [0x56, 0x44, 0x45, 0x2d, 0x45, 0x4e, 0x44, 0x2d, 0x31, 0x0a];
    proof {
        assert(open@ =~= magic());
        assert(close@ =~= tail_magic());
        assert(bytes@.subrange(0, 5) =~= bytes@.take(5));
    }
    if !matches_at(bytes, 0, &open) {
        return None;
    }
    let digits = chars_of_bytes(vstd::slice::slice_subrange(bytes, 5, 25));
    if !are_digits(digits.as_slice()) || bytes[25] != 0x0a {
        return None;
    }
    let length: u64 = match read_decimal(digits.as_slice()) {
        Some(length) => length,
        None => {
            return None;
        },
    };
    if length != (bytes.len() - (HEADER_LEN + TAIL_LEN)) as u64 {
        return None;
    }
    let end: usize = HEADER_LEN + length as usize;
    if bytes[end] != 0x0a || bytes[end + 9] != 0x0a {
        return None;
    }
    proof {
        assert(bytes@.subrange(end + 10, end + 20) =~= bytes@.skip(end + 10));
    }
    if !matches_at(bytes, end + 10, &close) {
        return None;
    }
    let payload = vstd::slice::slice_subrange(bytes, HEADER_LEN, end);
    let hex = chars_of_bytes(vstd::slice::slice_subrange(bytes, end + 1, end + 9));
    proof {
        numeral::lemma_eight_hex_digits();
    }
    let computed = fixed_hex(checksum(payload), 8);
    if text_eq(string_of(hex.as_slice()).as_str(), computed.as_str()) {
        Some(payload)
    } else {
        None
    }
}

/// A frame is laid out as it is documented: `VDE1` and a line break, the length
/// in twenty digits and a line break, the payload and a line break, the checksum
/// in eight lower-case hexadecimal digits and a line break, `VDE-END-1` and a
/// line break.
pub proof fn law_frame_layout(payload: Seq<u8>, i: int)
    requires
        payload.len() < numeral::pow10(20),
    ensures
        ({
            let f = framed(payload);
            let n = payload.len() as int;
            let sum = byte_chars(f.subrange(27 + n, 35 + n));
            &&& f.len() == 46 + n
            &&& f.subrange(0, 5) == seq![0x56u8, 0x44, 0x45, 0x31, 0x0a]
            &&& numeral::dec_value(byte_chars(f.subrange(5, 25))) == n
            &&& 5 <= i < 25 ==> 0x30 <= f[i] <= 0x39
            &&& f[25] == 0x0a
            &&& f.subrange(26, 26 + n) == payload
            &&& f[26 + n] == 0x0a
            &&& numeral::hex_value(sum) == crc::crc(payload)
            &&& 27 + n <= i < 35 + n ==> (0x30 <= f[i] <= 0x39) || (0x61 <= f[i] <= 0x66)
            &&& f[35 + n] == 0x0a
            &&& f.subrange(36 + n, 46 + n) == seq![
                0x56u8,
                0x44,
                0x45,
                0x2d,
                0x45,
                0x4e,
                0x44,
                0x2d,
                0x31,
                0x0a,
            ]
        }),
{
    lemma_framed(payload);
    let f = framed(payload);
    let n = payload.len() as int;
    numeral::lemma_eight_hex_digits();
    numeral::law_hex_text(crc::crc(payload) as nat, 8);
    numeral::law_decimal_text(payload.len(), 20);
    assert(f.subrange(0, 5) =~= f.take(5));
    assert(f.subrange(36 + n, 46 + n) =~= f.skip(36 + n));
    if 5 <= i < 25 {
        let d = byte_chars(f.subrange(5, 25));
        assert(d[i - 5] == f[i] as char);
        assert('0' <= d[i - 5] <= '9');
    }
    if 27 + n <= i < 35 + n {
        let x = byte_chars(f.subrange(27 + n, 35 + n));
        assert(x[i - 27 - n] == f[i] as char);
    }
}

/// Bytes and ASCII characters stand for each other, one by one.
pub proof fn law_ascii(s: Seq<char>, b: Seq<u8>, i: int)
    ensures
        ascii_bytes(s).len() == s.len() && byte_chars(b).len() == b.len(),
        0 <= i < s.len() && 0 <= (s[i] as int) < 128 ==> ascii_bytes(s)[i] as int == s[i] as int,
        0 <= i < b.len() ==> byte_chars(b)[i] as int == b[i] as int,
{
}

} // verus!
