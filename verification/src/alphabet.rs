//! Alphabets: ordered tables of distinct ASCII characters that define the
//! bijection between digit values and characters.

use vstd::prelude::*;

verus! {

/// An alphabet table is usable when its characters are distinct ASCII bytes
/// and there are enough of them: with at least 41 characters, three digits
/// cover any byte pair (41^3 > 65535) and two digits cover any single byte.
pub open spec fn alpha_wf(a: Seq<u8>) -> bool {
    &&& 41 <= a.len() <= 128
    &&& forall|i: int| 0 <= i < a.len() ==> a[i] < 128
    &&& forall|i: int, j: int| 0 <= i < j < a.len() ==> a[i] != a[j]
}

/// Whether byte `ch` is one of the alphabet's characters.
pub open spec fn in_alpha(a: Seq<u8>, ch: u8) -> bool {
    exists|i: int| 0 <= i < a.len() && a[i] == ch
}

/// The digit value of character `ch`: its index in the alphabet.
pub open spec fn digit_of(a: Seq<u8>, ch: u8) -> int {
    choose|i: int| 0 <= i < a.len() && a[i] == ch
}

/// Looking up the character of a digit gives that digit back.
pub proof fn lemma_digit_of_char(a: Seq<u8>, d: int)
    requires
        alpha_wf(a),
        0 <= d < a.len(),
    ensures
        in_alpha(a, a[d]),
        digit_of(a, a[d]) == d,
{
    assert(in_alpha(a, a[d]));
    let j = digit_of(a, a[d]);
    assert(0 <= j < a.len() && a[j] == a[d]);
    if j < d {
        assert(a[j] != a[d]);
    } else if d < j {
        assert(a[d] != a[j]);
    }
}

/// A character of the alphabet has a digit value in range.
pub proof fn lemma_digit_of_in(a: Seq<u8>, ch: u8)
    requires
        in_alpha(a, ch),
    ensures
        0 <= digit_of(a, ch) < a.len(),
        a[digit_of(a, ch)] == ch,
{
    let i = choose|i: int| 0 <= i < a.len() && a[i] == ch;
    assert(0 <= i < a.len() && a[i] == ch);
}

/// The bytes of a sequence, read as characters.
pub open spec fn chars_of(bs: Seq<u8>) -> Seq<char> {
    Seq::new(bs.len(), |i: int| bs[i] as char)
}

/// A sequence of bytes below 128, read as characters, UTF-8 encodes back to
/// exactly those bytes.
pub proof fn lemma_ascii_chars_bytes(bs: Seq<u8>)
    requires
        forall|i: int| 0 <= i < bs.len() ==> bs[i] < 128,
    ensures
        vstd::utf8::encode_utf8(chars_of(bs)) == bs,
{
    let cs = chars_of(bs);
    assert(vstd::utf8::is_ascii_chars(cs));
    vstd::utf8::is_ascii_chars_encode_utf8(cs);
    assert(vstd::utf8::encode_utf8(cs) =~= bs);
}

} // verus!
