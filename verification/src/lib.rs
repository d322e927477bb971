//! Reversible textual encoding of binary data over small URL-safe alphabets.
//!
//! The byte-pair codec packs two bytes into three base-N digits (one
//! trailing byte into two digits); the fixed-bit-width codec treats a
//! little-endian byte buffer as one integer and emits the minimum number
//! of digits for a given bit width.  Two instances are provided: the
//! 44-character alphabet at the crate root and the 43-character alphabet
//! (without `$`) in [`base43`].

use vstd::prelude::*;

pub mod alphabet;
pub mod base43;
pub mod codec;
pub mod fixed;

use crate::alphabet::{alpha_wf, chars_of};
use crate::codec::{Codec, CodecError, spec_decode, spec_encode};
use crate::fixed::{le_val, spec_decode_bits, spec_encode_bits, spec_min_digits,
    spec_num_digits, lemma_le_val_bound, lemma_le_val_snoc, lemma_min_digits};

verus! {

use vstd::string::StringSliceAdditionalSpecFns;
use vstd::array::ArrayAdditionalExecFns;
use vstd::arithmetic::power::pow;
use vstd::arithmetic::power2::pow2;

/// How decoding with the 44-character alphabet can fail.
#[derive(Clone, Copy, Debug, PartialEq, Eq)]
pub enum Base44Error {
    /// A character of the input is not in the alphabet.
    InvalidChar,
    /// A structurally incomplete group: one leftover character after the
    /// full triples, or a fixed-length string of the wrong length.
    Dangling,
    /// A decoded numeric value exceeds the maximum for its group.
    Overflow,
}

/// The error of the 44-character instance for a generic decoder error.
pub open spec fn spec_err44(e: CodecError) -> Base44Error {
    match e {
        CodecError::InvalidChar => Base44Error::InvalidChar,
        CodecError::Dangling => Base44Error::Dangling,
        CodecError::Overflow => Base44Error::Overflow,
    }
}

fn to_err44(e: CodecError) -> (r: Base44Error)
    ensures
        r == spec_err44(e),
{
    match e {
        CodecError::InvalidChar => Base44Error::InvalidChar,
        CodecError::Dangling => Base44Error::Dangling,
        CodecError::Overflow => Base44Error::Overflow,
    }
}

/// The character of digit `d` in the 44-character alphabet
/// `0123456789ABCDEFGHIJKLMNOPQRSTUVWXYZ$%*+-./:`.
pub open spec fn chr44(d: int) -> u8 {
    if d < 10 {
        (48 + d) as u8  // '0' to '9'
    } else if d < 36 {
        (55 + d) as u8  // 'A' to 'Z'
    } else if d == 36 {
        36  // '$'
    } else if d == 37 {
        37  // '%'
    } else if d == 38 {
        42  // '*'
    } else if d == 39 {
        43  // '+'
    } else if d == 40 {
        45  // '-'
    } else if d == 41 {
        46  // '.'
    } else if d == 42 {
        47  // '/'
    } else {
        58  // ':'
    }
}

/// The 44-character alphabet as a sequence.
pub open spec fn alpha44() -> Seq<u8> {
    Seq::new(44, |i: int| chr44(i))
}

/// The 44-character alphabet is a well-formed alphabet: 44 distinct ASCII
/// characters.
pub proof fn lemma_alpha44_wf()
    ensures
        alpha_wf(alpha44()),
{
    let a = alpha44();
    assert(a.len() == 44);
    assert forall|i: int| 0 <= i < a.len() implies a[i] < 128 by {
        assert(a[i] == chr44(i));
    }
    assert forall|i: int, j: int| 0 <= i < j < a.len() implies a[i] != a[j] by {
        assert(a[i] == chr44(i) && a[j] == chr44(j));
    }
}

/// The 44-character alphabet is URL-safe: it contains no space.
pub proof fn lemma_alpha44_url_safe()
    ensures
        forall|i: int| 0 <= i < alpha44().len() ==> alpha44()[i] != 32,
{
    assert forall|i: int| 0 <= i < alpha44().len() implies alpha44()[i] != 32 by {
        assert(alpha44()[i] == chr44(i));
    }
}

/// The character of digit `d`.
fn chr44_at(d: usize) -> (r: u8)
    requires
        d < 44,
    ensures
        r == chr44(d as int),
{
    if d < 10 {
        48 + (d as u8)
    } else if d < 36 {
        55 + (d as u8)
    } else if d == 36 {
        36
    } else if d == 37 {
        37
    } else if d == 38 {
        42
    } else if d == 39 {
        43
    } else if d == 40 {
        45
    } else if d == 41 {
        46
    } else if d == 42 {
        47
    } else {
        58
    }
}

/// The codec over the 44-character alphabet.
pub fn base44() -> (r: Codec)
    ensures
        r.wf(),
        r.alpha() == alpha44(),
{
    let mut table: Vec<u8> = Vec::new();
    let mut d: usize = 0;
    while d < 44
        invariant
            d <= 44,
            table@.len() == d,
            forall|k: int| 0 <= k < d ==> table@[k] == chr44(k),
        decreases 44 - d,
    {
        table.push(chr44_at(d));
        d += 1;
    }
    proof {
        assert(table@ =~= alpha44());
        lemma_alpha44_wf();
    }
    Codec::new(table)
}

/// Encode bytes with the byte-pair codec: two bytes become three digits,
/// a trailing byte two digits, least significant digit first.  Total.
pub fn encode(input: &[u8]) -> (r: String)
    ensures
        r@ == chars_of(spec_encode(alpha44(), input@)),
        vstd::utf8::encode_utf8(r@) == spec_encode(alpha44(), input@),
        r@.len() == (3 * input@.len() + 1) / 2,
{
    let c = base44();
    c.encode(input)
}

/// Decode a byte-pair encoded string back to the raw bytes.  Returns
/// `InvalidChar` for a character outside the alphabet, `Dangling` for a
/// single leftover character, `Overflow` for a group over its maximum.
pub fn decode(s: &str) -> (r: Result<Vec<u8>, Base44Error>)
    ensures
        match r {
            Ok(v) => spec_decode(alpha44(), s.spec_bytes()) == Ok::<Seq<u8>, CodecError>(v@),
            Err(e) => spec_decode(alpha44(), s.spec_bytes()) is Err && e == spec_err44(
                spec_decode(alpha44(), s.spec_bytes())->Err_0),
        },
{
    let c = base44();
    match c.decode(s) {
        Ok(v) => Ok(v),
        Err(e) => Err(to_err44(e)),
    }
}

/// Encode a little-endian byte buffer whose value fits in `bits` bits as
/// the minimal number of base-44 digits, most significant digit first.
/// An out-of-range width, an oversized buffer or a value beyond the width
/// is a contract violation, excluded by precondition rather than reported.
pub fn encode_bits(bits: usize, input: &[u8]) -> (r: String)
    requires
        1 <= bits <= 128,
        input@.len() <= 16,
        le_val(input@) < pow2(bits as nat),
    ensures
        r@ == chars_of(spec_encode_bits(alpha44(), bits as nat, le_val(input@))),
        vstd::utf8::encode_utf8(r@) == spec_encode_bits(alpha44(), bits as nat, le_val(input@)),
        r@.len() == spec_num_digits(alpha44(), bits as nat),
{
    let c = base44();
    c.encode_bits(bits, input)
}

/// Decode a fixed-bit-width digit string back into `ceil(bits/8)`
/// little-endian bytes.
pub fn decode_bits(bits: usize, s: &str) -> (r: Result<Vec<u8>, Base44Error>)
    requires
        1 <= bits <= 128,
    ensures
        match r {
            Ok(v) => spec_decode_bits(alpha44(), bits as nat, s.spec_bytes()) == Ok::<
                Seq<u8>,
                CodecError,
            >(v@),
            Err(e) => spec_decode_bits(alpha44(), bits as nat, s.spec_bytes()) is Err
                && e == spec_err44(spec_decode_bits(alpha44(), bits as nat,
                s.spec_bytes())->Err_0),
        },
{
    let c = base44();
    match c.decode_bits(bits, s) {
        Ok(v) => Ok(v),
        Err(e) => Err(to_err44(e)),
    }
}

/// What decoding a 19-digit fixed string yields: exactly 19 digits are
/// required (`Dangling` otherwise); the value is unpacked into 13 bytes,
/// with `Overflow` reserved for a value that would not fit them.
pub open spec fn spec_decode_103(s: Seq<u8>) -> Result<Seq<u8>, CodecError> {
    if s.len() != 19 {
        Err(CodecError::Dangling)
    } else {
        spec_decode_bits(alpha44(), 104, s)
    }
}

/// The 44-character alphabet covers 103 bits in exactly 19 digits:
/// `44^19 > 2^103 - 1 >= 44^18`.
pub proof fn lemma_digits_103()
    ensures
        spec_num_digits(alpha44(), 103) == 19,
{
    let n = 44int;
    vstd::arithmetic::power::lemma_pow1(n);
    vstd::arithmetic::power::lemma_pow_adds(n, 1, 1);
    assert(pow(n, 2) == 1936);
    vstd::arithmetic::power::lemma_pow_adds(n, 2, 2);
    assert(pow(n, 4) == 3748096);
    vstd::arithmetic::power::lemma_pow_adds(n, 4, 4);
    assert(pow(n, 8) == 14048223625216);
    vstd::arithmetic::power::lemma_pow_adds(n, 8, 8);
    assert(pow(n, 16) == 197352587024076973231046656);
    vstd::arithmetic::power::lemma_pow_adds(n, 16, 2);
    assert(pow(n, 18) == 382074608478613020175306326016);
    vstd::arithmetic::power::lemma_pow_adds(n, 18, 1);
    assert(pow(n, 19) == 16811282773058972887713478344704);
    vstd::arithmetic::power2::lemma_pow2_adds(64, 39);
    vstd::arithmetic::power2::lemma2_to64();
    vstd::arithmetic::power2::lemma2_to64_rest();
    assert(pow2(103) == 10141204801825835211973625643008);
    let m = pow2(103) - 1;
    assert(alpha44().len() == 44);
    lemma_min_digits(n, m);
    let d = spec_min_digits(n, m);
    assert(d > 0) by {
        vstd::arithmetic::power::lemma_pow0(n);
        if d == 0 {
            assert(pow(n, 0) == 1);
        }
    }
    assert(pow(n, d) > pow(n, 18));
    vstd::arithmetic::power::lemma_pow_strictly_increases_converse(44 as nat, 18, d);
    assert(pow(n, (d - 1) as nat) < pow(n, 19));
    vstd::arithmetic::power::lemma_pow_strictly_increases_converse(
        44 as nat, (d - 1) as nat, 19);
}

/// A 13-byte buffer whose last byte has a clear top bit holds a value
/// below `2^103`.
proof fn lemma_le_val_13(bytes: Seq<u8>)
    requires
        bytes.len() == 13,
        bytes[12] < 128,
    ensures
        0 <= le_val(bytes) < pow2(103),
{
    let head = bytes.take(12);
    assert(head + seq![bytes[12]] =~= bytes);
    lemma_le_val_snoc(head, bytes[12]);
    lemma_le_val_bound(head);
    lemma_le_val_bound(bytes);
    vstd::arithmetic::power2::lemma_pow2_adds(96, 7);
    vstd::arithmetic::power2::lemma2_to64();
    let p = pow2(96);
    assert(le_val(head) + p * bytes[12] < p * 128) by (nonlinear_arith)
        requires
            le_val(head) < p,
            0 <= bytes[12] < 128,
            p >= 1,
    {}
}

/// Encode exactly 13 little-endian bytes holding a 103-bit value (so the
/// last byte's top bit is clear) into 19 digits, most significant first.
pub fn encode_103bits(bytes: &[u8; 13]) -> (r: String)
    requires
        bytes@[12] < 128,
    ensures
        r@ == chars_of(spec_encode_bits(alpha44(), 103, le_val(bytes@))),
        r@.len() == 19,
{
    let c = base44();
    let data = bytes.as_slice();
    proof {
        lemma_le_val_13(bytes@);
        lemma_digits_103();
    }
    c.encode_bits(103, data)
}

/// Decode a 19-digit string back to exactly 13 little-endian bytes.
/// A string of any other length fails with `Dangling`; a character outside
/// the alphabet with `InvalidChar`; a value that does not fit 13 bytes
/// with `Overflow`.
pub fn decode_103bits(s: &str) -> (r: Result<[u8; 13], Base44Error>)
    ensures
        match r {
            Ok(arr) => spec_decode_103(s.spec_bytes()) == Ok::<Seq<u8>, CodecError>(arr@),
            Err(e) => spec_decode_103(s.spec_bytes()) is Err && e == spec_err44(
                spec_decode_103(s.spec_bytes())->Err_0),
        },
{
    let data = s.as_bytes();
    if data.len() != 19 {
        return Err(Base44Error::Dangling);
    }
    let c = base44();
    let bytes = match c.decode_bits(104, s) {
        Ok(v) => v,
        Err(e) => {
            return Err(to_err44(e));
        },
    };
    let mut arr: [u8; 13] = [0u8; 13];
    let mut k: usize = 0;
    proof {
        crate::fixed::lemma_le_bytes_len();
        assert(bytes@.len() == 13);
    }
    while k < 13
        invariant
            k <= 13,
            bytes@.len() == 13,
            forall|j: int| 0 <= j < k ==> arr@[j] == bytes@[j],
        decreases 13 - k,
    {
        arr.set(k, bytes[k]);
        k += 1;
    }
    proof {
        assert(arr@ =~= bytes@);
    }
    Ok(arr)
}

/// Round trip of the byte-pair codec over the 44-character alphabet:
/// decoding an encoding yields the original bytes, for every byte
/// sequence.
pub proof fn lemma_base44_round_trip(bytes: Seq<u8>)
    ensures
        spec_decode(alpha44(), spec_encode(alpha44(), bytes)) == Ok::<Seq<u8>, CodecError>(
            bytes),
{
    lemma_alpha44_wf();
    crate::codec::lemma_round_trip(alpha44(), bytes);
}

/// Canonicity over the 44-character alphabet: a string that decodes
/// successfully is exactly the encoding of its value, so re-encoding a
/// decoded string reproduces it.
pub proof fn lemma_base44_canonical(s: Seq<u8>, bytes: Seq<u8>)
    requires
        spec_decode(alpha44(), s) == Ok::<Seq<u8>, CodecError>(bytes),
    ensures
        spec_encode(alpha44(), bytes) == s,
{
    lemma_alpha44_wf();
    crate::codec::lemma_decode_canonical(alpha44(), s, bytes);
}

/// Round trip of the fixed-bit-width codec over the 44-character
/// alphabet, for every buffer of `ceil(bits/8)` bytes whose value fits in
/// `bits` bits.
pub proof fn lemma_base44_bits_round_trip(bits: nat, bytes: Seq<u8>)
    requires
        1 <= bits <= 128,
        bytes.len() == (bits + 7) / 8,
        le_val(bytes) < pow2(bits),
    ensures
        spec_decode_bits(alpha44(), bits, spec_encode_bits(alpha44(), bits, le_val(bytes)))
            == Ok::<Seq<u8>, CodecError>(bytes),
{
    lemma_alpha44_wf();
    crate::fixed::lemma_fixed_round_trip(alpha44(), bits, bytes);
}

} // verus!
