//! The fixed-bit-width codec: a little-endian byte buffer is read as one
//! integer of up to 128 bits and written as the minimum number of base-N
//! digits that covers the bit width, most significant digit first.

use vstd::prelude::*;
use vstd::arithmetic::power::pow;
use vstd::arithmetic::power2::pow2;

use crate::alphabet::{alpha_wf, digit_of, in_alpha, lemma_digit_of_char};
use crate::codec::CodecError;

verus! {

use vstd::string::StringSliceAdditionalSpecFns;

/// The value of a little-endian byte buffer: byte `i` contributes bits
/// `[8*i, 8*i+8)`.
pub open spec fn le_val(bytes: Seq<u8>) -> int
    decreases bytes.len(),
{
    if bytes.len() == 0 {
        0
    } else {
        bytes[0] + 256 * le_val(bytes.skip(1))
    }
}

/// The `count` low-order bytes of `v`, little-endian.
pub open spec fn le_bytes(v: int, count: nat) -> Seq<u8>
    decreases count,
{
    if count == 0 {
        Seq::empty()
    } else {
        seq![(v % 256) as u8] + le_bytes(v / 256, (count - 1) as nat)
    }
}

/// The `d` low-order base-N digits of `v` as alphabet characters, most
/// significant digit first.
pub open spec fn fixed_digits(a: Seq<u8>, v: int, d: nat) -> Seq<u8>
    decreases d,
{
    let n = a.len() as int;
    if d == 0 {
        Seq::empty()
    } else {
        fixed_digits(a, v / n, (d - 1) as nat) + seq![a[v % n]]
    }
}

/// The number of base-`n` digits needed to represent `m`: the smallest `d`
/// with `n^d > m`.
pub open spec fn spec_min_digits(n: int, m: int) -> nat
    decreases m via spec_min_digits_decreases
{
    if m <= 0 || n <= 1 {
        0
    } else {
        1 + spec_min_digits(n, m / n)
    }
}

#[via_fn]
proof fn spec_min_digits_decreases(n: int, m: int) {
    if !(m <= 0 || n <= 1) {
        vstd::arithmetic::div_mod::lemma_div_pos_is_pos(m, n);
        vstd::arithmetic::div_mod::lemma_div_decreases(m, n);
    }
}

/// The digit count of the fixed-bit-width encoding for a bit width.
pub open spec fn spec_num_digits(a: Seq<u8>, bits: nat) -> nat {
    spec_min_digits(a.len() as int, pow2(bits) - 1)
}

/// The fixed-bit-width encoding of value `v`.
pub open spec fn spec_encode_bits(a: Seq<u8>, bits: nat, v: int) -> Seq<u8> {
    fixed_digits(a, v, spec_num_digits(a, bits))
}

/// Reading digits most-significant-first into an accumulator, with the
/// checks the decoder makes: each character must be in the alphabet, and
/// the accumulator must never exceed 128 bits.
pub open spec fn spec_accumulate(a: Seq<u8>, s: Seq<u8>, acc: int) -> Result<int, CodecError>
    decreases s.len(),
{
    let n = a.len() as int;
    if s.len() == 0 {
        Ok(acc)
    } else if !in_alpha(a, s[0]) {
        Err(CodecError::InvalidChar)
    } else if acc * n + digit_of(a, s[0]) > u128::MAX as int {
        Err(CodecError::Overflow)
    } else {
        spec_accumulate(a, s.skip(1), acc * n + digit_of(a, s[0]))
    }
}

/// The fixed-bit-width decoding of `s`: the accumulated value if it fits in
/// `bits` bits, unpacked into `ceil(bits/8)` little-endian bytes.
pub open spec fn spec_decode_bits(a: Seq<u8>, bits: nat, s: Seq<u8>) -> Result<Seq<u8>, CodecError> {
    match spec_accumulate(a, s, 0) {
        Ok(v) => if v >= pow2(bits) {
            Err(CodecError::Overflow)
        } else {
            Ok(le_bytes(v, ((bits + 7) / 8) as nat))
        },
        Err(e) => Err(e),
    }
}

/// A little-endian value is nonnegative and bounded by the byte count.
pub proof fn lemma_le_val_bound(bytes: Seq<u8>)
    ensures
        0 <= le_val(bytes) < pow2(8 * bytes.len()),
    decreases bytes.len(),
{
    if bytes.len() == 0 {
        vstd::arithmetic::power2::lemma2_to64();
    } else {
        lemma_le_val_bound(bytes.skip(1));
        let r = le_val(bytes.skip(1));
        vstd::arithmetic::power2::lemma_pow2_adds(8, 8 * (bytes.len() - 1) as nat);
        vstd::arithmetic::power2::lemma2_to64();
        assert(bytes[0] + 256 * r < 256 * (r + 1)) by (nonlinear_arith)
            requires bytes[0] < 256,
        {}
        assert(256 * (r + 1) <= 256 * pow2(8 * (bytes.len() - 1) as nat)) by (nonlinear_arith)
            requires r + 1 <= pow2(8 * (bytes.len() - 1) as nat),
        {}
        assert(0 <= bytes[0] + 256 * r) by (nonlinear_arith)
            requires r >= 0 && bytes[0] >= 0,
        {}
    }
}

/// The length of an unpacked value is the requested byte count.
pub proof fn lemma_le_bytes_len()
    ensures
        forall|v: int, count: nat| (#[trigger] le_bytes(v, count)).len() == count,
{
    assert forall|v: int, count: nat| (#[trigger] le_bytes(v, count)).len() == count by {
        lemma_le_bytes_len_one(v, count);
    }
}

proof fn lemma_le_bytes_len_one(v: int, count: nat)
    ensures
        le_bytes(v, count).len() == count,
    decreases count,
{
    if count > 0 {
        lemma_le_bytes_len_one(v / 256, (count - 1) as nat);
    }
}

/// Appending one byte adds its value at the next bit position.
pub proof fn lemma_le_val_snoc(s: Seq<u8>, c: u8)
    ensures
        le_val(s + seq![c]) == le_val(s) + pow2(8 * s.len()) * c,
    decreases s.len(),
{
    let t = s + seq![c];
    if s.len() == 0 {
        assert(t =~= seq![c]);
        assert(t.skip(1) =~= Seq::<u8>::empty());
        assert(le_val(t.skip(1)) == 0);
        assert(le_val(s) == 0);
        vstd::arithmetic::power2::lemma2_to64();
        assert(pow2(0) * c == c) by (nonlinear_arith)
            requires pow2(0) == 1,
        {}
    } else {
        assert(t[0] == s[0]);
        assert(t.skip(1) =~= s.skip(1) + seq![c]);
        lemma_le_val_snoc(s.skip(1), c);
        vstd::arithmetic::power2::lemma_pow2_adds(8, 8 * (s.len() - 1) as nat);
        vstd::arithmetic::power2::lemma2_to64();
        let p = pow2(8 * (s.len() - 1) as nat);
        assert(256 * (le_val(s.skip(1)) + p * c) == 256 * le_val(s.skip(1)) + (256 * p) * c)
            by (nonlinear_arith);
    }
}

/// Unpacking the value of a byte buffer gives the buffer back.
pub proof fn lemma_le_bytes_of_le_val(bytes: Seq<u8>)
    ensures
        le_bytes(le_val(bytes), bytes.len()) == bytes,
    decreases bytes.len(),
{
    if bytes.len() == 0 {
        assert(le_bytes(le_val(bytes), 0) =~= bytes);
    } else {
        let r = le_val(bytes.skip(1));
        let v = bytes[0] + 256 * r;
        lemma_le_val_bound(bytes.skip(1));
        vstd::arithmetic::div_mod::lemma_fundamental_div_mod_converse(
            v, 256, r, bytes[0] as int);
        lemma_le_bytes_of_le_val(bytes.skip(1));
        assert(le_bytes(v, bytes.len()) =~= bytes);
    }
}

/// The length of a fixed-digit encoding is its digit count.
pub proof fn lemma_fixed_digits_len(a: Seq<u8>, v: int, d: nat)
    ensures
        fixed_digits(a, v, d).len() == d,
    decreases d,
{
    if d > 0 {
        lemma_fixed_digits_len(a, v / a.len() as int, (d - 1) as nat);
    }
}

/// Digit `j` (from the most significant end) of a fixed-digit encoding is
/// the character of `(v / n^(d-1-j)) % n`.
pub proof fn lemma_fixed_digits_index(a: Seq<u8>, v: int, d: nat, j: int)
    requires
        2 <= a.len(),
        0 <= v,
        0 <= j < d,
    ensures
        fixed_digits(a, v, d).len() == d,
        fixed_digits(a, v, d)[j] == a[(v / pow(a.len() as int, (d - 1 - j) as nat)) % (
        a.len() as int)],
    decreases d,
{
    let n = a.len() as int;
    lemma_fixed_digits_len(a, v, d);
    if j == d - 1 {
        vstd::arithmetic::power::lemma_pow0(n);
        assert(v / 1 == v) by {
            vstd::arithmetic::div_mod::lemma_div_by_multiple(v, 1);
            assert(v * 1 == v) by (nonlinear_arith);
        }
        assert(fixed_digits(a, v, d)[j] == a[v % n]);
    } else {
        vstd::arithmetic::div_mod::lemma_div_pos_is_pos(v, n);
        lemma_fixed_digits_index(a, v / n, (d - 1) as nat, j);
        let e = (d - 2 - j) as nat;
        vstd::arithmetic::power::lemma_pow_positive(n, e);
        vstd::arithmetic::div_mod::lemma_div_denominator(v, n, pow(n, e));
        assert(pow(n, e + 1) == n * pow(n, e)) by {
            vstd::arithmetic::power::lemma_pow1(n);
            vstd::arithmetic::power::lemma_pow_adds(n, 1, e);
        }
        assert((v / n) / pow(n, e) == v / pow(n, e + 1));
        assert(fixed_digits(a, v, d)[j] == fixed_digits(a, v / n, (d - 1) as nat)[j]);
    }
}

/// Every character of a fixed-digit encoding is an alphabet character.
pub proof fn lemma_fixed_digits_in_alphabet(a: Seq<u8>, v: int, d: nat)
    requires
        alpha_wf(a),
        0 <= v,
    ensures
        forall|i: int| 0 <= i < fixed_digits(a, v, d).len()
            ==> in_alpha(a, #[trigger] fixed_digits(a, v, d)[i]),
        forall|i: int| 0 <= i < fixed_digits(a, v, d).len()
            ==> #[trigger] fixed_digits(a, v, d)[i] < 128,
    decreases d,
{
    let n = a.len() as int;
    if d > 0 {
        vstd::arithmetic::div_mod::lemma_div_pos_is_pos(v, n);
        lemma_fixed_digits_in_alphabet(a, v / n, (d - 1) as nat);
        vstd::arithmetic::div_mod::lemma_mod_bound(v, n);
        lemma_digit_of_char(a, v % n);
        let e = fixed_digits(a, v, d);
        let inner = fixed_digits(a, v / n, (d - 1) as nat);
        lemma_fixed_digits_len(a, v / n, (d - 1) as nat);
        assert forall|i: int| 0 <= i < e.len() implies in_alpha(a, e[i]) && e[i] < 128 by {
            if i < d - 1 {
                assert(e[i] == inner[i]);
            } else {
                assert(e[i] == a[v % n]);
            }
        }
    }
}

/// The minimal-digit-count law: `n^d` digits suffice for `m` and one digit
/// fewer does not.
pub proof fn lemma_min_digits(n: int, m: int)
    requires
        2 <= n,
        0 <= m,
    ensures
        pow(n, spec_min_digits(n, m)) > m,
        spec_min_digits(n, m) > 0 ==> pow(n, (spec_min_digits(n, m) - 1) as nat) <= m,
    decreases m,
{
    if m == 0 {
        vstd::arithmetic::power::lemma_pow0(n);
    } else {
        vstd::arithmetic::div_mod::lemma_div_pos_is_pos(m, n);
        vstd::arithmetic::div_mod::lemma_div_decreases(m, n);
        lemma_min_digits(n, m / n);
        let d1 = spec_min_digits(n, m / n);
        assert(spec_min_digits(n, m) == d1 + 1);
        vstd::arithmetic::div_mod::lemma_fundamental_div_mod(m, n);
        vstd::arithmetic::div_mod::lemma_mod_bound(m, n);
        assert(pow(n, d1 + 1) == n * pow(n, d1)) by {
            vstd::arithmetic::power::lemma_pow1(n);
            vstd::arithmetic::power::lemma_pow_adds(n, 1, d1);
        }
        assert(n * pow(n, d1) > m) by (nonlinear_arith)
            requires
                pow(n, d1) > m / n,
                m == n * (m / n) + m % n,
                0 <= m % n < n,
                n >= 2,
        {}
        if d1 > 0 {
            assert(pow(n, d1) == n * pow(n, (d1 - 1) as nat)) by {
                vstd::arithmetic::power::lemma_pow1(n);
                vstd::arithmetic::power::lemma_pow_adds(n, 1, (d1 - 1) as nat);
            }
            vstd::arithmetic::power::lemma_pow_positive(n, (d1 - 1) as nat);
            assert(n * pow(n, (d1 - 1) as nat) <= m) by (nonlinear_arith)
                requires
                    pow(n, (d1 - 1) as nat) <= m / n,
                    m == n * (m / n) + m % n,
                    0 <= m % n,
                    n >= 2,
                    pow(n, (d1 - 1) as nat) >= 1,
            {}
        } else {
            vstd::arithmetic::power::lemma_pow0(n);
        }
    }
}

/// Appending one digit to the input of the accumulator multiplies the
/// accumulated value by `n` and adds that digit.
pub proof fn lemma_accumulate_snoc(a: Seq<u8>, s: Seq<u8>, c: u8, acc: int)
    requires
        alpha_wf(a),
    ensures
        spec_accumulate(a, s + seq![c], acc) == (match spec_accumulate(a, s, acc) {
            Ok(w) => {
                let n = a.len() as int;
                if !in_alpha(a, c) {
                    Err(CodecError::InvalidChar)
                } else if w * n + digit_of(a, c) > u128::MAX as int {
                    Err(CodecError::Overflow)
                } else {
                    Ok::<int, CodecError>(w * n + digit_of(a, c))
                }
            },
            Err(e) => Err(e),
        }),
    decreases s.len(),
{
    let n = a.len() as int;
    let t = s + seq![c];
    if s.len() == 0 {
        assert(t.len() == 1 && t[0] == c);
        assert(t.skip(1) =~= Seq::<u8>::empty());
        if in_alpha(a, c) && acc * n + digit_of(a, c) <= u128::MAX as int {
            assert(spec_accumulate(a, t.skip(1), acc * n + digit_of(a, c)) == Ok::<
                int,
                CodecError,
            >(acc * n + digit_of(a, c)));
        }
    } else {
        assert(t[0] == s[0]);
        if in_alpha(a, s[0]) && acc * n + digit_of(a, s[0]) <= u128::MAX as int {
            lemma_accumulate_snoc(a, s.skip(1), c, acc * n + digit_of(a, s[0]));
            assert(t.skip(1) =~= s.skip(1) + seq![c]);
        }
    }
}

/// Accumulating the fixed-digit encoding of `v` on top of `acc` yields
/// `acc * n^d + v`, with no error, whenever that value fits in 128 bits.
pub proof fn lemma_accumulate_fixed_digits(a: Seq<u8>, v: int, d: nat, acc: int)
    requires
        alpha_wf(a),
        0 <= v < pow(a.len() as int, d),
        0 <= acc,
        acc * pow(a.len() as int, d) + v <= u128::MAX as int,
    ensures
        spec_accumulate(a, fixed_digits(a, v, d), acc) == Ok::<int, CodecError>(
            acc * pow(a.len() as int, d) + v),
    decreases d,
{
    let n = a.len() as int;
    if d == 0 {
        vstd::arithmetic::power::lemma_pow0(n);
        assert(v == 0);
        assert(fixed_digits(a, v, d) =~= Seq::<u8>::empty());
        assert(acc * 1 == acc) by (nonlinear_arith);
    } else {
        let q = v / n;
        let r = v % n;
        vstd::arithmetic::div_mod::lemma_fundamental_div_mod(v, n);
        vstd::arithmetic::div_mod::lemma_mod_bound(v, n);
        vstd::arithmetic::div_mod::lemma_div_pos_is_pos(v, n);
        assert(pow(n, d) == n * pow(n, (d - 1) as nat)) by {
            vstd::arithmetic::power::lemma_pow1(n);
            vstd::arithmetic::power::lemma_pow_adds(n, 1, (d - 1) as nat);
        }
        assert(q < pow(n, (d - 1) as nat)) by (nonlinear_arith)
            requires
                v < n * pow(n, (d - 1) as nat),
                v == n * q + r,
                0 <= r < n,
                0 <= q,
                n >= 2,
        {}
        let acc1 = acc * pow(n, (d - 1) as nat) + q;
        assert(acc1 * n + r == acc * pow(n, d) + v) by (nonlinear_arith)
            requires
                acc1 == acc * pow(n, (d - 1) as nat) + q,
                pow(n, d) == n * pow(n, (d - 1) as nat),
                v == n * q + r,
        {}
        assert(0 <= acc1 && acc1 <= acc1 * n + r) by (nonlinear_arith)
            requires
                acc >= 0,
                pow(n, (d - 1) as nat) >= 1,
                q >= 0,
                r >= 0,
                n >= 2,
                acc1 == acc * pow(n, (d - 1) as nat) + q,
        {
            vstd::arithmetic::power::lemma_pow_positive(n, (d - 1) as nat);
        }
        vstd::arithmetic::power::lemma_pow_positive(n, (d - 1) as nat);
        lemma_accumulate_fixed_digits(a, q, (d - 1) as nat, acc);
        lemma_digit_of_char(a, r);
        lemma_accumulate_snoc(a, fixed_digits(a, q, (d - 1) as nat), a[r], acc);
    }
}

/// The round-trip law of the fixed-bit-width codec: decoding an encoding
/// recovers the byte buffer exactly, for every buffer of `ceil(bits/8)`
/// bytes whose value fits in `bits` bits.
pub proof fn lemma_fixed_round_trip(a: Seq<u8>, bits: nat, bytes: Seq<u8>)
    requires
        alpha_wf(a),
        1 <= bits <= 128,
        bytes.len() == (bits + 7) / 8,
        le_val(bytes) < pow2(bits),
    ensures
        spec_decode_bits(a, bits, spec_encode_bits(a, bits, le_val(bytes))) == Ok::<
            Seq<u8>,
            CodecError,
        >(bytes),
{
    let n = a.len() as int;
    let v = le_val(bytes);
    let d = spec_num_digits(a, bits);
    lemma_le_val_bound(bytes);
    vstd::arithmetic::power2::lemma_pow2_pos(bits);
    lemma_min_digits(n, pow2(bits) - 1);
    assert(v < pow(n, d));
    lemma_pow2_128_max();
    vstd::arithmetic::power2::lemma_pow2_strictly_increases(bits, 129);
    if bits < 128 {
        vstd::arithmetic::power2::lemma_pow2_strictly_increases(bits, 128);
    }
    assert(v <= u128::MAX as int);
    assert(0 * pow(n, d) + v == v) by (nonlinear_arith);
    lemma_accumulate_fixed_digits(a, v, d, 0);
    lemma_le_bytes_of_le_val(bytes);
}

/// `2^128` is one more than the largest 128-bit value.
pub proof fn lemma_pow2_128_max()
    ensures
        pow2(128) == u128::MAX + 1,
{
    vstd::arithmetic::power2::lemma_pow2_adds(64, 64);
    vstd::arithmetic::power2::lemma2_to64();
    assert(0x10000000000000000 * 0x10000000000000000 == u128::MAX + 1);
}

/// `2^e` fits in 128 bits for `e <= 128`.
proof fn lemma_pow2_le_128(e: nat)
    requires
        e <= 128,
    ensures
        pow2(e) <= u128::MAX + 1,
{
    lemma_pow2_128_max();
    if e < 128 {
        vstd::arithmetic::power2::lemma_pow2_strictly_increases(e, 128);
    }
}

/// Pack a little-endian byte buffer into a 128-bit value.
fn le_value(bytes: &[u8]) -> (r: u128)
    requires
        bytes@.len() <= 16,
    ensures
        r as int == le_val(bytes@),
{
    let len = bytes.len();
    let mut v: u128 = 0;
    let mut j: usize = len;
    proof {
        assert(bytes@.skip(len as int) =~= Seq::<u8>::empty());
    }
    while j > 0
        invariant
            len == bytes@.len() <= 16,
            j <= len,
            v as int == le_val(bytes@.skip(j as int)),
        decreases j,
    {
        j -= 1;
        proof {
            let tail = bytes@.skip(j as int);
            assert(tail.len() == len - j);
            assert(tail[0] == bytes@[j as int]);
            assert(tail.skip(1) =~= bytes@.skip(j + 1));
            lemma_le_val_bound(tail);
            vstd::arithmetic::power2::lemma_pow2_adds(8, 8 * (len - j - 1) as nat);
            lemma_pow2_le_128(8 * (len - j) as nat);
        }
        v = v * 256 + (bytes[j] as u128);
    }
    proof {
        assert(bytes@.skip(0) =~= bytes@);
    }
    v
}

/// The largest value of a bit width: `2^bits - 1`.
fn max_of_bits(bits: usize) -> (r: u128)
    requires
        1 <= bits <= 128,
    ensures
        r as int == pow2(bits as nat) - 1,
{
    let mut m: u128 = 0;
    let mut k: usize = 0;
    proof {
        vstd::arithmetic::power2::lemma2_to64();
    }
    while k < bits
        invariant
            k <= bits <= 128,
            m as int == pow2(k as nat) - 1,
        decreases bits - k,
    {
        proof {
            vstd::arithmetic::power2::lemma2_to64();
            vstd::arithmetic::power2::lemma_pow2_adds(1, k as nat);
            lemma_pow2_le_128((k + 1) as nat);
        }
        m = m * 2 + 1;
        k += 1;
    }
    m
}

impl crate::codec::Codec {
    /// The number of digits this alphabet needs to cover a bit width: the
    /// smallest `d` with `n^d > 2^bits - 1`, found by integer arithmetic.
    pub fn digit_count(&self, bits: usize) -> (r: usize)
        requires
            self.wf(),
            1 <= bits <= 128,
        ensures
            r == spec_num_digits(self.alpha(), bits as nat),
    {
        let n = self.size();
        let ni = Ghost(self.alpha().len() as int);
        let mut t: u128 = max_of_bits(bits);
        let ghost m0 = t as int;
        let mut d: usize = 0;
        proof {
            vstd::arithmetic::power2::lemma_pow2_pos(bits as nat);
            lemma_pow2_le_128(bits as nat);
            if (t as int) > 0 {
                lemma_pow2_le_128(128);
                assert(pow2((128 - d) as nat) >= pow2(bits as nat)) by {
                    if (bits as nat) < 128 {
                        vstd::arithmetic::power2::lemma_pow2_strictly_increases(
                            bits as nat, 128);
                    }
                }
            }
        }
        while t > 0
            invariant
                self.wf(),
                n == self.alpha().len(),
                ni@ == n as int,
                d <= 128,
                t > 0 ==> (t as int) < pow2((128 - d) as nat),
                spec_min_digits(ni@, m0) == d + spec_min_digits(ni@, t as int),
            decreases t,
        {
            proof {
                let ti = t as int;
                let p = pow2((127 - d) as nat);
                vstd::arithmetic::power2::lemma_pow2_adds(1, (127 - d) as nat);
                vstd::arithmetic::power2::lemma2_to64();
                vstd::arithmetic::power2::lemma_pow2_pos((127 - d) as nat);
                assert(d < 128) by {
                    if d == 128 {
                        assert(pow2(0) == 1);
                    }
                }
                assert(ti / (ni@) <= ti / 2) by {
                    vstd::arithmetic::div_mod::lemma_div_is_ordered_by_denominator(
                        ti, 2, ni@);
                }
                assert(ti / 2 < p) by (nonlinear_arith)
                    requires
                        0 < ti < 2 * p,
                        p >= 1,
                {}
                vstd::arithmetic::div_mod::lemma_div_pos_is_pos(ti, ni@);
                vstd::arithmetic::div_mod::lemma_div_decreases(ti, ni@);
            }
            t = t / (n as u128);
            d += 1;
        }
        d
    }

    /// Encode a little-endian byte buffer whose value fits in `bits` bits
    /// as exactly the minimal number of digits, most significant first.
    pub fn encode_bits(&self, bits: usize, bytes: &[u8]) -> (r: String)
        requires
            self.wf(),
            1 <= bits <= 128,
            bytes@.len() <= 16,
            le_val(bytes@) < pow2(bits as nat),
        ensures
            r@ == crate::alphabet::chars_of(spec_encode_bits(self.alpha(), bits as nat,
                le_val(bytes@))),
            vstd::utf8::encode_utf8(r@) == spec_encode_bits(self.alpha(), bits as nat,
                le_val(bytes@)),
            r@.len() == spec_num_digits(self.alpha(), bits as nat),
    {
        let a = Ghost(self.alpha());
        let n = self.size();
        let value = le_value(bytes);
        let d = self.digit_count(bits);
        let ghost v0 = value as int;
        proof {
            lemma_le_val_bound(bytes@);
        }
        let mut digs: Vec<u8> = Vec::new();
        let mut v = value;
        let mut k: usize = 0;
        proof {
            vstd::arithmetic::power::lemma_pow0(n as int);
            vstd::arithmetic::div_mod::lemma_div_by_multiple(v0, 1);
            assert(v0 * 1 == v0) by (nonlinear_arith);
        }
        while k < d
            invariant
                self.wf(),
                a@ == self.alpha(),
                n == a@.len(),
                k <= d,
                digs@.len() == k,
                0 <= v0,
                v as int == v0 / pow(n as int, k as nat),
                forall|j: int| 0 <= j < k ==> #[trigger] digs@[j] < n
                    && digs@[j] as int == (v0 / pow(n as int, j as nat)) % (n as int),
            decreases d - k,
        {
            let ni = Ghost(n as int);
            proof {
                vstd::arithmetic::power::lemma_pow_positive(ni@, k as nat);
                vstd::arithmetic::div_mod::lemma_mod_bound(v as int, ni@);
                vstd::arithmetic::div_mod::lemma_div_denominator(v0, pow(ni@, k as nat), ni@);
                assert(pow(ni@, (k + 1) as nat) == pow(ni@, k as nat) * ni@) by {
                    vstd::arithmetic::power::lemma_pow1(ni@);
                    vstd::arithmetic::power::lemma_pow_adds(ni@, k as nat, 1);
                }
            }
            let dig = (v % (n as u128)) as u8;
            digs.push(dig);
            v = v / (n as u128);
            k += 1;
        }
        let mut out = String::new();
        let mut j: usize = 0;
        proof {
            lemma_fixed_digits_len(a@, v0, d as nat);
            assert(fixed_digits(a@, v0, d as nat).take(0) =~= Seq::<u8>::empty());
            assert(out@ =~= crate::alphabet::chars_of(fixed_digits(a@, v0, d as nat).take(0)));
        }
        while j < d
            invariant
                self.wf(),
                a@ == self.alpha(),
                n == a@.len(),
                j <= d,
                digs@.len() == d,
                0 <= v0,
                forall|i: int| 0 <= i < d ==> #[trigger] digs@[i] < n
                    && digs@[i] as int == (v0 / pow(n as int, i as nat)) % (n as int),
                out@ == crate::alphabet::chars_of(fixed_digits(a@, v0, d as nat).take(j as int)),
            decreases d - j,
        {
            proof {
                lemma_fixed_digits_index(a@, v0, d as nat, j as int);
            }
            let idx = digs[d - 1 - j];
            let ch = self.char_at(idx as usize);
            crate::codec::push_char(&mut out, ch as char);
            proof {
                let f = fixed_digits(a@, v0, d as nat);
                assert(digs@[d - 1 - j] as int == (v0 / pow(n as int, (d - 1 - j) as nat)) % (
                n as int));
                assert(f[j as int] == a@[digs@[d - 1 - j] as int]);
                assert(out@ =~= crate::alphabet::chars_of(f.take(j + 1)));
            }
            j += 1;
        }
        proof {
            let f = fixed_digits(a@, v0, d as nat);
            assert(f.take(d as int) =~= f);
            lemma_fixed_digits_in_alphabet(a@, v0, d as nat);
            crate::alphabet::lemma_ascii_chars_bytes(f);
        }
        out
    }

    /// Read a whole digit string most-significant-first into a 128-bit
    /// value, with the decoder's error classification.
    pub(crate) fn accumulate(&self, data: &[u8]) -> (r: Result<u128, CodecError>)
        requires
            self.wf(),
        ensures
            match r {
                Ok(v) => spec_accumulate(self.alpha(), data@, 0) == Ok::<int, CodecError>(
                    v as int),
                Err(e) => spec_accumulate(self.alpha(), data@, 0) == Err::<int, CodecError>(e),
            },
    {
        let a = Ghost(self.alpha());
        let n = self.size();
        let len = data.len();
        let mut value: u128 = 0;
        let mut i: usize = 0;
        proof {
            assert(data@.skip(0) =~= data@);
        }
        while i < len
            invariant
                self.wf(),
                a@ == self.alpha(),
                n == a@.len(),
                len == data@.len(),
                i <= len,
                spec_accumulate(a@, data@, 0) == spec_accumulate(a@, data@.skip(i as int),
                    value as int),
            decreases len - i,
        {
            let ghost tail = data@.skip(i as int);
            proof {
                assert(tail.len() == len - i);
                assert(tail[0] == data@[i as int]);
                assert(tail.skip(1) =~= data@.skip(i + 1));
            }
            let dig = match self.lookup(data[i]) {
                Some(dv) => dv,
                None => {
                    return Err(CodecError::InvalidChar);
                },
            };
            let limit = (u128::MAX - dig as u128) / (n as u128);
            proof {
                let vi = value as int;
                let ni = n as int;
                let di = dig as int;
                let m = u128::MAX - di;
                vstd::arithmetic::div_mod::lemma_fundamental_div_mod(m, ni);
                vstd::arithmetic::div_mod::lemma_mod_bound(m, ni);
                assert((vi > m / ni ==> vi * ni + di > u128::MAX as int) && (vi <= m / ni
                    ==> vi * ni + di <= u128::MAX as int)) by (nonlinear_arith)
                    requires
                        m == u128::MAX - di,
                        m == ni * (m / ni) + m % ni,
                        0 <= m % ni < ni,
                        0 <= vi,
                        0 <= di,
                        2 <= ni,
                {}
            }
            if value > limit {
                return Err(CodecError::Overflow);
            }
            value = value * (n as u128) + (dig as u128);
            i += 1;
        }
        proof {
            assert(data@.skip(len as int) =~= Seq::<u8>::empty());
        }
        Ok(value)
    }

    /// Decode a fixed-bit-width digit string back into `ceil(bits/8)`
    /// little-endian bytes, or say exactly why it is malformed.
    pub fn decode_bits(&self, bits: usize, s: &str) -> (r: Result<Vec<u8>, CodecError>)
        requires
            self.wf(),
            1 <= bits <= 128,
        ensures
            match r {
                Ok(v) => spec_decode_bits(self.alpha(), bits as nat, s.spec_bytes()) == Ok::<
                    Seq<u8>,
                    CodecError,
                >(v@),
                Err(e) => spec_decode_bits(self.alpha(), bits as nat, s.spec_bytes()) == Err::<
                    Seq<u8>,
                    CodecError,
                >(e),
            },
    {
        let data = s.as_bytes();
        let value = match self.accumulate(data) {
            Ok(v) => v,
            Err(e) => {
                return Err(e);
            },
        };
        let max = max_of_bits(bits);
        if value > max {
            return Err(CodecError::Overflow);
        }
        let nb = (bits + 7) / 8;
        let mut out: Vec<u8> = Vec::new();
        let mut v = value;
        let mut k: usize = 0;
        let ghost v0 = value as int;
        proof {
            assert(Seq::<u8>::empty() + le_bytes(v0, nb as nat) =~= le_bytes(v0, nb as nat));
        }
        while k < nb
            invariant
                k <= nb,
                le_bytes(v0, nb as nat) == out@ + le_bytes(v as int, (nb - k) as nat),
            decreases nb - k,
        {
            let b = (v % 256) as u8;
            let ghost out_old = out@;
            let ghost v_old = v as int;
            out.push(b);
            v = v / 256;
            proof {
                assert(out@ =~= out_old + seq![b]);
                assert(out_old + (seq![b] + le_bytes(v as int, (nb - k - 1) as nat)) =~= out@
                    + le_bytes(v as int, (nb - k - 1) as nat));
            }
            k += 1;
        }
        proof {
            assert(le_bytes(v as int, 0) =~= Seq::<u8>::empty());
            assert(out@ + Seq::<u8>::empty() =~= out@);
        }
        Ok(out)
    }
}

} // verus!
