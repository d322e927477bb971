//! The 43-character instance: the same codec over the alphabet
//! `0123456789ABCDEFGHIJKLMNOPQRSTUVWXYZ%*+-./:`, which drops `$`.

use vstd::prelude::*;

use crate::alphabet::{alpha_wf, chars_of};
use crate::codec::{Codec, CodecError, spec_decode, spec_encode};
use crate::fixed::{le_val, spec_decode_bits, spec_encode_bits, spec_num_digits};

verus! {

use vstd::string::StringSliceAdditionalSpecFns;
use vstd::arithmetic::power2::pow2;

/// How decoding with the 43-character alphabet can fail.
#[derive(Clone, Copy, Debug, PartialEq, Eq)]
pub enum Base43Error {
    /// A character of the input is not in the alphabet.
    InvalidChar,
    /// A structurally incomplete group: one leftover character after the
    /// full triples.
    Dangling,
    /// A decoded numeric value exceeds the maximum for its group.
    Overflow,
}

/// The error of the 43-character instance for a generic decoder error.
pub open spec fn spec_err43(e: CodecError) -> Base43Error {
    match e {
        CodecError::InvalidChar => Base43Error::InvalidChar,
        CodecError::Dangling => Base43Error::Dangling,
        CodecError::Overflow => Base43Error::Overflow,
    }
}

fn to_err43(e: CodecError) -> (r: Base43Error)
    ensures
        r == spec_err43(e),
{
    match e {
        CodecError::InvalidChar => Base43Error::InvalidChar,
        CodecError::Dangling => Base43Error::Dangling,
        CodecError::Overflow => Base43Error::Overflow,
    }
}

/// The character of digit `d` in the 43-character alphabet
/// `0123456789ABCDEFGHIJKLMNOPQRSTUVWXYZ%*+-./:`.
pub open spec fn chr43(d: int) -> u8 {
    if d < 10 {
        (48 + d) as u8  // '0' to '9'
    } else if d < 36 {
        (55 + d) as u8  // 'A' to 'Z'
    } else if d == 36 {
        37  // '%'
    } else if d == 37 {
        42  // '*'
    } else if d == 38 {
        43  // '+'
    } else if d == 39 {
        45  // '-'
    } else if d == 40 {
        46  // '.'
    } else if d == 41 {
        47  // '/'
    } else {
        58  // ':'
    }
}

/// The 43-character alphabet as a sequence.
pub open spec fn alpha43() -> Seq<u8> {
    Seq::new(43, |i: int| chr43(i))
}

/// The 43-character alphabet is a well-formed alphabet: 43 distinct ASCII
/// characters.
pub proof fn lemma_alpha43_wf()
    ensures
        alpha_wf(alpha43()),
{
    let a = alpha43();
    assert(a.len() == 43);
    assert forall|i: int| 0 <= i < a.len() implies a[i] < 128 by {
        assert(a[i] == chr43(i));
    }
    assert forall|i: int, j: int| 0 <= i < j < a.len() implies a[i] != a[j] by {
        assert(a[i] == chr43(i) && a[j] == chr43(j));
    }
}

/// The 43-character alphabet is URL-safe: it contains no space and no `$`.
pub proof fn lemma_alpha43_url_safe()
    ensures
        forall|i: int| 0 <= i < alpha43().len() ==> alpha43()[i] != 32,
        forall|i: int| 0 <= i < alpha43().len() ==> alpha43()[i] != 36,
{
    assert forall|i: int| 0 <= i < alpha43().len() implies alpha43()[i] != 32 && alpha43()[i]
        != 36 by {
        assert(alpha43()[i] == chr43(i));
    }
}

/// The character of digit `d`.
fn chr43_at(d: usize) -> (r: u8)
    requires
        d < 43,
    ensures
        r == chr43(d as int),
{
    if d < 10 {
        48 + (d as u8)
    } else if d < 36 {
        55 + (d as u8)
    } else if d == 36 {
        37
    } else if d == 37 {
        42
    } else if d == 38 {
        43
    } else if d == 39 {
        45
    } else if d == 40 {
        46
    } else if d == 41 {
        47
    } else {
        58
    }
}

/// The codec over the 43-character alphabet.
pub fn codec43() -> (r: Codec)
    ensures
        r.wf(),
        r.alpha() == alpha43(),
{
    let mut table: Vec<u8> = Vec::new();
    let mut d: usize = 0;
    while d < 43
        invariant
            d <= 43,
            table@.len() == d,
            forall|k: int| 0 <= k < d ==> table@[k] == chr43(k),
        decreases 43 - d,
    {
        table.push(chr43_at(d));
        d += 1;
    }
    proof {
        assert(table@ =~= alpha43());
        lemma_alpha43_wf();
    }
    Codec::new(table)
}

/// Encode bytes with the byte-pair codec over the 43-character alphabet.
pub fn encode(input: &[u8]) -> (r: String)
    ensures
        r@ == chars_of(spec_encode(alpha43(), input@)),
        vstd::utf8::encode_utf8(r@) == spec_encode(alpha43(), input@),
        r@.len() == (3 * input@.len() + 1) / 2,
{
    let c = codec43();
    c.encode(input)
}

/// Decode a byte-pair encoded string over the 43-character alphabet.
pub fn decode(s: &str) -> (r: Result<Vec<u8>, Base43Error>)
    ensures
        match r {
            Ok(v) => spec_decode(alpha43(), s.spec_bytes()) == Ok::<Seq<u8>, CodecError>(v@),
            Err(e) => spec_decode(alpha43(), s.spec_bytes()) is Err && e == spec_err43(
                spec_decode(alpha43(), s.spec_bytes())->Err_0),
        },
{
    let c = codec43();
    match c.decode(s) {
        Ok(v) => Ok(v),
        Err(e) => Err(to_err43(e)),
    }
}

/// Encode a little-endian byte buffer whose value fits in `bits` bits as
/// the minimal number of base-43 digits, most significant digit first.
pub fn encode_bits(bits: usize, input: &[u8]) -> (r: String)
    requires
        1 <= bits <= 128,
        input@.len() <= 16,
        le_val(input@) < pow2(bits as nat),
    ensures
        r@ == chars_of(spec_encode_bits(alpha43(), bits as nat, le_val(input@))),
        vstd::utf8::encode_utf8(r@) == spec_encode_bits(alpha43(), bits as nat, le_val(input@)),
        r@.len() == spec_num_digits(alpha43(), bits as nat),
{
    let c = codec43();
    c.encode_bits(bits, input)
}

/// Decode a fixed-bit-width digit string over the 43-character alphabet.
pub fn decode_bits(bits: usize, s: &str) -> (r: Result<Vec<u8>, Base43Error>)
    requires
        1 <= bits <= 128,
    ensures
        match r {
            Ok(v) => spec_decode_bits(alpha43(), bits as nat, s.spec_bytes()) == Ok::<
                Seq<u8>,
                CodecError,
            >(v@),
            Err(e) => spec_decode_bits(alpha43(), bits as nat, s.spec_bytes()) is Err
                && e == spec_err43(spec_decode_bits(alpha43(), bits as nat,
                s.spec_bytes())->Err_0),
        },
{
    let c = codec43();
    match c.decode_bits(bits, s) {
        Ok(v) => Ok(v),
        Err(e) => Err(to_err43(e)),
    }
}

/// Round trip of the byte-pair codec over the 43-character alphabet.
pub proof fn lemma_base43_round_trip(bytes: Seq<u8>)
    ensures
        spec_decode(alpha43(), spec_encode(alpha43(), bytes)) == Ok::<Seq<u8>, CodecError>(
            bytes),
{
    lemma_alpha43_wf();
    crate::codec::lemma_round_trip(alpha43(), bytes);
}

/// Canonicity over the 43-character alphabet: a string that decodes
/// successfully is exactly the encoding of its value.
pub proof fn lemma_base43_canonical(s: Seq<u8>, bytes: Seq<u8>)
    requires
        spec_decode(alpha43(), s) == Ok::<Seq<u8>, CodecError>(bytes),
    ensures
        spec_encode(alpha43(), bytes) == s,
{
    lemma_alpha43_wf();
    crate::codec::lemma_decode_canonical(alpha43(), s, bytes);
}

/// Round trip of the fixed-bit-width codec over the 43-character alphabet.
pub proof fn lemma_base43_bits_round_trip(bits: nat, bytes: Seq<u8>)
    requires
        1 <= bits <= 128,
        bytes.len() == (bits + 7) / 8,
        le_val(bytes) < pow2(bits),
    ensures
        spec_decode_bits(alpha43(), bits, spec_encode_bits(alpha43(), bits, le_val(bytes)))
            == Ok::<Seq<u8>, CodecError>(bytes),
{
    lemma_alpha43_wf();
    crate::fixed::lemma_fixed_round_trip(alpha43(), bits, bytes);
}

} // verus!
