//! The generic codec: one alphabet table, byte-pair encoding and decoding.
//!
//! Two bytes form a value `x = hi*256 + lo` and come out as three base-N
//! digits, least significant first; one trailing byte comes out as two
//! digits.  Decoding inverts this exactly and classifies malformed input.

use vstd::prelude::*;

use crate::alphabet::{alpha_wf, chars_of, digit_of, in_alpha, lemma_digit_of_char,
    lemma_digit_of_in, lemma_ascii_chars_bytes};

verus! {

use vstd::string::StringSliceAdditionalSpecFns;

/// How a decode can fail, shared by both codec instances.
#[derive(Clone, Copy, Debug, PartialEq, Eq)]
pub enum CodecError {
    /// A character of the input is not in the alphabet.
    InvalidChar,
    /// A structurally incomplete trailing group: one leftover valid
    /// character, or (for the fixed-length decoder) a wrong string length.
    Dangling,
    /// A decoded numeric value exceeds the maximum for its group.
    Overflow,
}

/// The byte-pair encoding of `bytes` over alphabet `a`: each pair of bytes
/// becomes three digits (least significant first), a trailing single byte
/// becomes two digits.
pub open spec fn spec_encode(a: Seq<u8>, bytes: Seq<u8>) -> Seq<u8>
    decreases bytes.len(),
{
    let n = a.len() as int;
    if bytes.len() >= 2 {
        let x = bytes[0] * 256 + bytes[1];
        seq![a[x % n], a[(x / n) % n], a[(x / n) / n]] + spec_encode(a, bytes.skip(2))
    } else if bytes.len() == 1 {
        let x = bytes[0] as int;
        seq![a[x % n], a[x / n]]
    } else {
        Seq::empty()
    }
}

/// The byte-pair decoding of `s` over alphabet `a`: triples while more than
/// two characters remain, then a two-character group for one byte; a single
/// leftover character cannot form a group.
pub open spec fn spec_decode(a: Seq<u8>, s: Seq<u8>) -> Result<Seq<u8>, CodecError>
    decreases s.len(),
{
    let n = a.len() as int;
    if s.len() == 0 {
        Ok(Seq::empty())
    } else if s.len() == 1 {
        if in_alpha(a, s[0]) {
            Err(CodecError::Dangling)
        } else {
            Err(CodecError::InvalidChar)
        }
    } else if s.len() == 2 {
        if !in_alpha(a, s[0]) || !in_alpha(a, s[1]) {
            Err(CodecError::InvalidChar)
        } else {
            let x = digit_of(a, s[1]) * n + digit_of(a, s[0]);
            if x > 255 {
                Err(CodecError::Overflow)
            } else {
                Ok(seq![x as u8])
            }
        }
    } else {
        if !in_alpha(a, s[0]) || !in_alpha(a, s[1]) || !in_alpha(a, s[2]) {
            Err(CodecError::InvalidChar)
        } else {
            let x = digit_of(a, s[2]) * n * n + digit_of(a, s[1]) * n + digit_of(a, s[0]);
            if x > 65535 {
                Err(CodecError::Overflow)
            } else {
                match spec_decode(a, s.skip(3)) {
                    Ok(rest) => Ok(seq![(x / 256) as u8, (x % 256) as u8] + rest),
                    Err(e) => Err(e),
                }
            }
        }
    }
}

/// A codec instance: the alphabet table, shared by the byte-pair codec and
/// the fixed-bit-width codec.
pub struct Codec {
    alphabet: Vec<u8>,
}

impl Codec {
    /// The alphabet as a sequence.
    pub closed spec fn alpha(&self) -> Seq<u8> {
        self.alphabet@
    }

    /// Well-formedness: the table is a usable alphabet.
    pub open spec fn wf(&self) -> bool {
        alpha_wf(self.alpha())
    }

    /// Make a codec from a well-formed alphabet table.
    pub fn new(alphabet: Vec<u8>) -> (r: Codec)
        requires
            alpha_wf(alphabet@),
        ensures
            r.wf(),
            r.alpha() == alphabet@,
    {
        Codec { alphabet }
    }

    /// The number of characters in the alphabet.
    pub fn size(&self) -> (r: usize)
        ensures
            r == self.alpha().len(),
    {
        self.alphabet.len()
    }

    /// The character of digit `d`.
    pub(crate) fn char_at(&self, d: usize) -> (r: u8)
        requires
            self.wf(),
            d < self.alpha().len(),
        ensures
            r == self.alpha()[d as int],
    {
        self.alphabet[d]
    }

    /// The digit value of character `ch`, or `None` when it is not in the
    /// alphabet.
    pub(crate) fn lookup(&self, ch: u8) -> (r: Option<u8>)
        requires
            self.wf(),
        ensures
            match r {
                Some(d) => in_alpha(self.alpha(), ch) && d as int == digit_of(self.alpha(), ch)
                    && d < self.alpha().len(),
                None => !in_alpha(self.alpha(), ch),
            },
    {
        let len = self.alphabet.len();
        let mut i: usize = 0;
        while i < len
            invariant
                self.wf(),
                len == self.alpha().len(),
                i <= len,
                forall|k: int| 0 <= k < i ==> self.alpha()[k] != ch,
            decreases len - i,
        {
            if self.alphabet[i] == ch {
                proof {
                    lemma_digit_of_char(self.alpha(), i as int);
                }
                return Some(i as u8);
            }
            i += 1;
        }
        None
    }

    /// Encode a buffer of bytes with the byte-pair codec.  Total: every
    /// input has exactly one encoding, of length `ceil(3*len/2)`, made of
    /// alphabet characters only.
    pub fn encode(&self, input: &[u8]) -> (r: String)
        requires
            self.wf(),
        ensures
            r@ == chars_of(spec_encode(self.alpha(), input@)),
            vstd::utf8::encode_utf8(r@) == spec_encode(self.alpha(), input@),
            r@.len() == (3 * input@.len() + 1) / 2,
    {
        let a = Ghost(self.alpha());
        let len = input.len();
        let mut out = String::new();
        let mut i: usize = 0;
        proof {
            lemma_encode_len(a@, input@);
            assert(input@.take(0) =~= Seq::<u8>::empty());
            assert(out@ =~= chars_of(spec_encode(a@, input@.take(0))));
        }
        while i + 1 < len
            invariant
                self.wf(),
                a@ == self.alpha(),
                len == input@.len(),
                i <= len,
                i % 2 == 0,
                out@ == chars_of(spec_encode(a@, input@.take(i as int))),
            decreases len - i,
        {
            let n = self.alphabet.len();
            let hi = input[i];
            let lo = input[i + 1];
            let x: u32 = (hi as u32) * 256 + (lo as u32);
            let d0 = (x % n as u32) as usize;
            let x1 = x / n as u32;
            let d1 = (x1 % n as u32) as usize;
            let d2 = (x1 / n as u32) as usize;
            proof {
                lemma_pair_digits_bound(n as int, x as int);
            }
            push_char(&mut out, self.char_at(d0) as char);
            push_char(&mut out, self.char_at(d1) as char);
            push_char(&mut out, self.char_at(d2) as char);
            proof {
                let xi = x as int;
                let ni = n as int;
                let g = input@.take(i + 2).skip(i as int);
                assert(g.len() == 2);
                assert(g[0] == input@[i as int] && g[1] == input@[i + 1]);
                assert(g.skip(2) =~= Seq::<u8>::empty());
                assert(spec_encode(a@, g.skip(2)) =~= Seq::<u8>::empty());
                assert(spec_encode(a@, g) =~= seq![
                    a@[xi % ni],
                    a@[(xi / ni) % ni],
                    a@[(xi / ni) / ni],
                ]);
                assert(input@.take(i + 2).take(i as int) =~= input@.take(i as int));
                lemma_encode_split(a@, input@.take(i + 2), i as int);
                assert(out@ =~= chars_of(spec_encode(a@, input@.take(i + 2))));
            }
            i += 2;
        }
        if i < len {
            let n = self.alphabet.len();
            let x = input[i] as usize;
            let d0 = x % n;
            let d1 = x / n;
            proof {
                lemma_single_digits_bound(n as int, x as int);
            }
            push_char(&mut out, self.char_at(d0) as char);
            push_char(&mut out, self.char_at(d1) as char);
            proof {
                let xi = x as int;
                let ni = self.alpha().len() as int;
                let rest = input@.skip(i as int);
                assert(rest.len() == 1 && rest[0] == input@[i as int]);
                assert(spec_encode(a@, rest) =~= seq![a@[xi % ni], a@[xi / ni]]);
                lemma_encode_split(a@, input@, i as int);
                assert(out@ =~= chars_of(spec_encode(a@, input@)));
            }
        } else {
            proof {
                assert(input@.take(i as int) =~= input@);
            }
        }
        proof {
            lemma_encode_in_alphabet(a@, input@);
            lemma_ascii_chars_bytes(spec_encode(a@, input@));
        }
        out
    }

    /// Decode a byte-pair encoded string back to the raw bytes, or say
    /// exactly why it is malformed.
    pub fn decode(&self, s: &str) -> (r: Result<Vec<u8>, CodecError>)
        requires
            self.wf(),
        ensures
            match r {
                Ok(v) => spec_decode(self.alpha(), s.spec_bytes()) == Ok::<Seq<u8>, CodecError>(v@),
                Err(e) => spec_decode(self.alpha(), s.spec_bytes()) == Err::<Seq<u8>, CodecError>(e),
            },
    {
        let a = Ghost(self.alpha());
        let bytes = s.as_bytes();
        let ghost sb = s.spec_bytes();
        let blen = bytes.len();
        let n = self.alphabet.len();
        let mut out: Vec<u8> = Vec::new();
        let mut i: usize = 0;
        proof {
            assert(sb.skip(0) =~= sb);
        }
        while blen - i > 2
            invariant
                self.wf(),
                a@ == self.alpha(),
                n == a@.len(),
                sb == s.spec_bytes(),
                bytes@ == sb,
                blen == sb.len(),
                i <= blen,
                spec_decode(a@, sb) == prepend_decoded(out@, spec_decode(a@, sb.skip(i as int))),
            decreases blen - i,
        {
            let ghost tail = sb.skip(i as int);
            proof {
                assert(tail.len() == blen - i);
                assert(tail[0] == sb[i as int]);
                assert(tail[1] == sb[i + 1]);
                assert(tail[2] == sb[i + 2]);
            }
            let c0 = match self.lookup(bytes[i]) {
                Some(d) => d,
                None => {
                    return Err(CodecError::InvalidChar);
                },
            };
            let c1 = match self.lookup(bytes[i + 1]) {
                Some(d) => d,
                None => {
                    return Err(CodecError::InvalidChar);
                },
            };
            let c2 = match self.lookup(bytes[i + 2]) {
                Some(d) => d,
                None => {
                    return Err(CodecError::InvalidChar);
                },
            };
            proof {
                assert((c2 as int) * (n as int) <= 127 * 128
                    && (c2 as int) * (n as int) * (n as int) <= 127 * 128 * 128
                    && (c1 as int) * (n as int) <= 127 * 128) by (nonlinear_arith)
                    requires
                        0 <= (c2 as int) < (n as int),
                        0 <= (c1 as int) < (n as int),
                        (n as int) <= 128,
                {}
            }
            let x: u32 = (c2 as u32) * (n as u32) * (n as u32) + (c1 as u32) * (n as u32)
                + (c0 as u32);
            if x > 65535 {
                return Err(CodecError::Overflow);
            }
            let hi = (x / 256) as u8;
            let lo = (x % 256) as u8;
            let ghost out_old = out@;
            out.push(hi);
            out.push(lo);
            proof {
                assert(out@ =~= out_old + seq![hi, lo]);
                assert(tail.skip(3) =~= sb.skip(i + 3));
                match spec_decode(a@, sb.skip(i + 3)) {
                    Ok(rest) => {
                        assert(out_old + (seq![hi, lo] + rest) =~= out@ + rest);
                    },
                    Err(_) => {},
                }
            }
            i += 3;
        }
        if i == blen {
            proof {
                assert(sb.skip(i as int) =~= Seq::<u8>::empty());
                assert(spec_decode(a@, sb.skip(i as int)) == Ok::<Seq<u8>, CodecError>(
                    Seq::empty(),
                ));
                assert(out@ + Seq::<u8>::empty() =~= out@);
            }
            return Ok(out);
        }
        if i + 1 == blen {
            let ghost tail = sb.skip(i as int);
            proof {
                assert(tail.len() == 1);
                assert(tail[0] == sb[i as int]);
            }
            if self.lookup(bytes[i]).is_none() {
                return Err(CodecError::InvalidChar);
            }
            return Err(CodecError::Dangling);
        }
        let ghost tail = sb.skip(i as int);
        proof {
            assert(tail.len() == 2);
            assert(tail[0] == sb[i as int]);
            assert(tail[1] == sb[i + 1]);
        }
        let c0 = match self.lookup(bytes[i]) {
            Some(d) => d,
            None => {
                return Err(CodecError::InvalidChar);
            },
        };
        let c1 = match self.lookup(bytes[i + 1]) {
            Some(d) => d,
            None => {
                return Err(CodecError::InvalidChar);
            },
        };
        proof {
            assert((c1 as int) * (n as int) <= 127 * 128) by (nonlinear_arith)
                requires
                    0 <= (c1 as int) < (n as int),
                    (n as int) <= 128,
            {}
        }
        let x: u32 = (c1 as u32) * (n as u32) + (c0 as u32);
        if x > 255 {
            return Err(CodecError::Overflow);
        }
        let ghost out_old = out@;
        out.push(x as u8);
        proof {
            assert(out@ =~= out_old + seq![x as u8]);
        }
        Ok(out)
    }
}

/// Prefix already-decoded bytes onto the outcome of decoding the rest.
pub open spec fn prepend_decoded(pre: Seq<u8>, r: Result<Seq<u8>, CodecError>) -> Result<
    Seq<u8>,
    CodecError,
> {
    match r {
        Ok(rest) => Ok(pre + rest),
        Err(e) => Err(e),
    }
}

/// Relies on `String::push`: appends exactly one character.
#[verifier::external_body]
pub(crate) fn push_char(s: &mut String, c: char)
    ensures
        final(s)@ == old(s)@.push(c),
{
    s.push(c);
}

/// For `n >= 41` the three digits of a byte pair value are all below `n`.
proof fn lemma_pair_digits_bound(n: int, x: int)
    requires
        41 <= n,
        0 <= x <= 65535,
    ensures
        0 <= x % n < n,
        0 <= (x / n) % n < n,
        0 <= (x / n) / n < n,
        (x / n) / n * n * n + ((x / n) % n) * n + x % n == x,
{
    vstd::arithmetic::div_mod::lemma_mod_bound(x, n);
    vstd::arithmetic::div_mod::lemma_fundamental_div_mod(x, n);
    let q = x / n;
    vstd::arithmetic::div_mod::lemma_div_nonincreasing(x, n);
    vstd::arithmetic::div_mod::lemma_div_pos_is_pos(x, n);
    vstd::arithmetic::div_mod::lemma_mod_bound(q, n);
    vstd::arithmetic::div_mod::lemma_fundamental_div_mod(q, n);
    vstd::arithmetic::div_mod::lemma_div_nonincreasing(q, n);
    vstd::arithmetic::div_mod::lemma_div_pos_is_pos(q, n);
    assert(x < n * n * n) by (nonlinear_arith)
        requires 41 <= n && x <= 65535,
    {}
    assert(q < n * n) by (nonlinear_arith)
        requires x < n * n * n && q == x / n && n >= 41 && x >= 0,
    {}
    assert(q / n < n) by (nonlinear_arith)
        requires q < n * n && n >= 41 && q >= 0,
    {}
    assert(q / n * n * n + (q % n) * n + x % n == x) by (nonlinear_arith)
        requires
            q == x / n,
            x == n * q + x % n,
            q == n * (q / n) + q % n,
    {}
}

/// For `n >= 41` the two digits of a single byte are both below `n`.
proof fn lemma_single_digits_bound(n: int, x: int)
    requires
        41 <= n,
        0 <= x <= 255,
    ensures
        0 <= x % n < n,
        0 <= x / n < n,
        x / n * n + x % n == x,
{
    vstd::arithmetic::div_mod::lemma_mod_bound(x, n);
    vstd::arithmetic::div_mod::lemma_fundamental_div_mod(x, n);
    vstd::arithmetic::div_mod::lemma_div_pos_is_pos(x, n);
    assert(x / n < n) by (nonlinear_arith)
        requires n >= 41 && 0 <= x <= 255,
    {}
    assert(n * (x / n) == x / n * n) by (nonlinear_arith);
}

/// Encoding a concatenation at an even split point concatenates the
/// encodings.
pub proof fn lemma_encode_split(a: Seq<u8>, bytes: Seq<u8>, i: int)
    requires
        0 <= i <= bytes.len(),
        i % 2 == 0,
    ensures
        spec_encode(a, bytes) == spec_encode(a, bytes.take(i)) + spec_encode(a, bytes.skip(i)),
    decreases i,
{
    if i == 0 {
        assert(bytes.take(0) =~= Seq::<u8>::empty());
        assert(bytes.skip(0) =~= bytes);
        assert(spec_encode(a, bytes) =~= spec_encode(a, bytes.take(0)) + spec_encode(a, bytes.skip(0)));
    } else {
        let t = bytes.take(i);
        assert(t.len() >= 2);
        lemma_encode_split(a, bytes.skip(2), i - 2);
        assert(t[0] == bytes[0] && t[1] == bytes[1]);
        assert(t.skip(2) =~= bytes.skip(2).take(i - 2));
        assert(bytes.skip(2).skip(i - 2) =~= bytes.skip(i));
        assert(spec_encode(a, bytes) =~= spec_encode(a, bytes.take(i)) + spec_encode(a, bytes.skip(i)));
    }
}

/// The length law of the byte-pair encoding: `ceil(3 * len / 2)` characters.
pub proof fn lemma_encode_len(a: Seq<u8>, bytes: Seq<u8>)
    ensures
        spec_encode(a, bytes).len() == (3 * bytes.len() + 1) / 2,
    decreases bytes.len(),
{
    if bytes.len() >= 2 {
        lemma_encode_len(a, bytes.skip(2));
    }
}

/// The round-trip law of the byte-pair codec: decoding an encoding gives
/// the original bytes back, for every byte sequence.
pub proof fn lemma_round_trip(a: Seq<u8>, bytes: Seq<u8>)
    requires
        alpha_wf(a),
    ensures
        spec_decode(a, spec_encode(a, bytes)) == Ok::<Seq<u8>, CodecError>(bytes),
    decreases bytes.len(),
{
    let n = a.len() as int;
    let e = spec_encode(a, bytes);
    if bytes.len() == 0 {
        assert(bytes =~= Seq::<u8>::empty());
        assert(e.len() == 0);
    } else if bytes.len() == 1 {
        let x = bytes[0] as int;
        lemma_single_digits_bound(n, x);
        lemma_digit_of_char(a, x % n);
        lemma_digit_of_char(a, x / n);
        assert(e.len() == 2);
        assert(e[0] == a[x % n] && e[1] == a[x / n]);
        let y = digit_of(a, e[1]) * n + digit_of(a, e[0]);
        assert(y == (x / n) * n + x % n);
        assert(y == x);
        assert(seq![y as u8] =~= bytes);
    } else {
        let x = bytes[0] * 256 + bytes[1];
        lemma_pair_digits_bound(n, x);
        lemma_digit_of_char(a, x % n);
        lemma_digit_of_char(a, (x / n) % n);
        lemma_digit_of_char(a, (x / n) / n);
        lemma_round_trip(a, bytes.skip(2));
        lemma_encode_len(a, bytes.skip(2));
        assert(e.len() == 3 + spec_encode(a, bytes.skip(2)).len());
        assert(e.len() >= 3);
        assert(e[0] == a[x % n] && e[1] == a[(x / n) % n] && e[2] == a[(x / n) / n]);
        let y = digit_of(a, e[2]) * n * n + digit_of(a, e[1]) * n + digit_of(a, e[0]);
        assert(y == (x / n) / n * n * n + ((x / n) % n) * n + x % n);
        assert(y == x);
        assert(0 <= x <= 65535);
        vstd::arithmetic::div_mod::lemma_fundamental_div_mod_converse(
            x, 256, bytes[0] as int, bytes[1] as int);
        assert(e.skip(3) =~= spec_encode(a, bytes.skip(2)));
        assert(seq![(x / 256) as u8, (x % 256) as u8] + bytes.skip(2) =~= bytes);
    }
}

/// Canonicity of the byte-pair encoding: a string that decodes successfully
/// is exactly the encoding of what it decodes to, so no byte sequence has
/// two encodings and no string two readings.
pub proof fn lemma_decode_canonical(a: Seq<u8>, s: Seq<u8>, bytes: Seq<u8>)
    requires
        alpha_wf(a),
        spec_decode(a, s) == Ok::<Seq<u8>, CodecError>(bytes),
    ensures
        spec_encode(a, bytes) == s,
    decreases s.len(),
{
    let n = a.len() as int;
    if s.len() == 0 {
        assert(bytes.len() == 0);
        assert(spec_encode(a, bytes) =~= s);
    } else if s.len() == 1 {
        // decoding a single character always fails
    } else if s.len() == 2 {
        lemma_digit_of_in(a, s[0]);
        lemma_digit_of_in(a, s[1]);
        let d0 = digit_of(a, s[0]);
        let d1 = digit_of(a, s[1]);
        let x = d1 * n + d0;
        assert(bytes =~= seq![x as u8]);
        assert(0 <= x <= 255) by (nonlinear_arith)
            requires x == d1 * n + d0 && 0 <= d0 < n && 0 <= d1 && x <= 255,
        {}
        assert(bytes[0] as int == x);
        vstd::arithmetic::div_mod::lemma_fundamental_div_mod_converse(x, n, d1, d0);
        assert(spec_encode(a, bytes) =~= s);
    } else {
        lemma_digit_of_in(a, s[0]);
        lemma_digit_of_in(a, s[1]);
        lemma_digit_of_in(a, s[2]);
        let d0 = digit_of(a, s[0]);
        let d1 = digit_of(a, s[1]);
        let d2 = digit_of(a, s[2]);
        let x = d2 * n * n + d1 * n + d0;
        assert(0 <= x);
        let rest = spec_decode(a, s.skip(3))->Ok_0;
        assert(spec_decode(a, s.skip(3)) == Ok::<Seq<u8>, CodecError>(rest));
        assert(bytes =~= seq![(x / 256) as u8, (x % 256) as u8] + rest);
        lemma_decode_canonical(a, s.skip(3), rest);
        vstd::arithmetic::div_mod::lemma_mod_bound(x, 256);
        vstd::arithmetic::div_mod::lemma_fundamental_div_mod(x, 256);
        assert(bytes[0] as int == x / 256 && bytes[1] as int == x % 256);
        assert(bytes[0] * 256 + bytes[1] == x) by {
            assert(x == 256 * (x / 256) + x % 256);
            assert(256 * (x / 256) == (x / 256) * 256) by (nonlinear_arith);
        }
        assert(x == (d2 * n + d1) * n + d0) by (nonlinear_arith)
            requires x == d2 * n * n + d1 * n + d0,
        {}
        assert(0 <= d2 * n + d1) by (nonlinear_arith)
            requires 0 <= d2 && 0 <= d1 && 0 < n,
        {}
        vstd::arithmetic::div_mod::lemma_fundamental_div_mod_converse(x, n, d2 * n + d1, d0);
        assert(x % n == d0 && x / n == d2 * n + d1);
        vstd::arithmetic::div_mod::lemma_fundamental_div_mod_converse(x / n, n, d2, d1);
        assert((x / n) % n == d1 && (x / n) / n == d2);
        assert(bytes.skip(2) =~= rest);
        assert(spec_encode(a, bytes) =~= s);
    }
}

/// Every character of a byte-pair encoding is an alphabet character.
pub proof fn lemma_encode_in_alphabet(a: Seq<u8>, bytes: Seq<u8>)
    requires
        alpha_wf(a),
    ensures
        forall|i: int| 0 <= i < spec_encode(a, bytes).len()
            ==> in_alpha(a, #[trigger] spec_encode(a, bytes)[i]),
        forall|i: int| 0 <= i < spec_encode(a, bytes).len()
            ==> #[trigger] spec_encode(a, bytes)[i] < 128,
    decreases bytes.len(),
{
    let n = a.len() as int;
    let e = spec_encode(a, bytes);
    if bytes.len() >= 2 {
        let x = bytes[0] * 256 + bytes[1];
        lemma_pair_digits_bound(n, x);
        lemma_digit_of_char(a, x % n);
        lemma_digit_of_char(a, (x / n) % n);
        lemma_digit_of_char(a, (x / n) / n);
        lemma_encode_in_alphabet(a, bytes.skip(2));
        let rest = spec_encode(a, bytes.skip(2));
        assert forall|i: int| 0 <= i < e.len() implies in_alpha(a, e[i]) && e[i] < 128 by {
            if i >= 3 {
                assert(e[i] == rest[i - 3]);
            }
        }
    } else if bytes.len() == 1 {
        let x = bytes[0] as int;
        lemma_single_digits_bound(n, x);
        lemma_digit_of_char(a, x % n);
        lemma_digit_of_char(a, x / n);
        assert forall|i: int| 0 <= i < e.len() implies in_alpha(a, e[i]) && e[i] < 128 by {
            assert(i == 0 || i == 1);
        }
    }
}

} // verus!
