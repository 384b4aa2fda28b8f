//! Codepoint-level encoding and decoding over the byte storage, together
//! with the general UTF-8 lemmas the buffer's proofs rest on.

use vstd::prelude::*;
use vstd::utf8::*;

use crate::storage::{buf_get, buf_len, ByteVec, buf_bytes};

verus! {

/// Relies on `char::from_u32`: returns `Some` exactly when the value is a
/// Unicode scalar value (not a surrogate and at most 0x10FFFF), and the
/// returned character converts back to the same value.
#[verifier::external_body]
pub(crate) fn char_from_u32(u: u32) -> (r: Option<char>)
    ensures
        match r {
            Some(c) => c as u32 == u && is_scalar(u),
            None => !is_scalar(u),
        },
{
    char::from_u32(u)
}

/// The UTF-8 encoding of a concatenation is the concatenation of the
/// encodings.
pub proof fn lemma_encode_utf8_concat(a: Seq<char>, b: Seq<char>)
    ensures
        encode_utf8(a + b) == encode_utf8(a) + encode_utf8(b),
    decreases a.len(),
{
    if a.len() == 0 {
        assert(a + b =~= b);
        assert(encode_utf8(a) + encode_utf8(b) =~= encode_utf8(b));
    } else {
        lemma_encode_utf8_concat(a.drop_first(), b);
        assert((a + b).drop_first() =~= a.drop_first() + b);
        assert((a + b)[0] == a[0]);
        assert(encode_utf8(a + b) =~= encode_scalar(a[0] as u32) + (encode_utf8(a.drop_first())
            + encode_utf8(b)));
        assert(encode_scalar(a[0] as u32) + (encode_utf8(a.drop_first()) + encode_utf8(b)) =~= (
        encode_scalar(a[0] as u32) + encode_utf8(a.drop_first())) + encode_utf8(b));
    }
}

/// The UTF-8 encoding of a single character is its scalar value's encoding.
pub proof fn lemma_encode_utf8_singleton(c: char)
    ensures
        encode_utf8(seq![c]) == encode_scalar(c as u32),
{
    reveal_with_fuel(encode_utf8, 2);
    assert(seq![c].drop_first() =~= Seq::<char>::empty());
    assert(encode_utf8(seq![c]) == encode_scalar(seq![c][0] as u32) + encode_utf8(
        seq![c].drop_first(),
    ));
    assert(encode_utf8(Seq::<char>::empty()) =~= Seq::<u8>::empty());
    assert(encode_scalar(c as u32) + Seq::<u8>::empty() =~= encode_scalar(c as u32));
}

/// The concatenation of two valid UTF-8 byte sequences is valid and decodes
/// to the concatenation of their decodings.
pub proof fn lemma_decode_utf8_concat(a: Seq<u8>, b: Seq<u8>)
    requires
        valid_utf8(a),
        valid_utf8(b),
    ensures
        valid_utf8(a + b),
        decode_utf8(a + b) == decode_utf8(a) + decode_utf8(b),
    decreases a.len(),
{
    valid_utf8_concat(a, b);
    if a.len() == 0 {
        assert(a + b =~= b);
        assert(decode_utf8(a) + decode_utf8(b) =~= decode_utf8(b));
    } else {
        let ab = a + b;
        assert(valid_first_scalar(a));
        assert(forall|i: int| 0 <= i < a.len() ==> ab[i] == a[i]);
        let w = length_of_first_scalar(a);
        assert(w <= a.len());
        assert(length_of_first_codepoint(ab) == length_of_first_codepoint(a));
        assert(decode_first_codepoint(ab) == decode_first_codepoint(a));
        assert(pop_first_scalar(ab) =~= pop_first_scalar(a) + b);
        lemma_decode_utf8_concat(pop_first_scalar(a), b);
        assert(decode_utf8(ab) =~= seq![decode_first_scalar(a) as char] + (decode_utf8(
            pop_first_scalar(a),
        ) + decode_utf8(b)));
        assert(seq![decode_first_scalar(a) as char] + (decode_utf8(pop_first_scalar(a))
            + decode_utf8(b)) =~= (seq![decode_first_scalar(a) as char] + decode_utf8(
            pop_first_scalar(a),
        )) + decode_utf8(b));
    }
}

/// A character boundary lies between zero and the sequence's length.
pub proof fn lemma_boundary_in_range(bytes: Seq<u8>, idx: int)
    requires
        valid_utf8(bytes),
        is_char_boundary(bytes, idx),
    ensures
        0 <= idx <= bytes.len(),
{
    reveal_with_fuel(is_char_boundary, 2);
}

/// Splicing a valid UTF-8 sequence in at a character boundary keeps the
/// whole sequence valid and splices the decoded characters in at the
/// matching point of the decoded view.
pub proof fn lemma_utf8_splice(bytes: Seq<u8>, idx: int, ins: Seq<u8>)
    requires
        valid_utf8(bytes),
        valid_utf8(ins),
        is_char_boundary(bytes, idx),
    ensures
        0 <= idx <= bytes.len(),
        ({
            let prefix = bytes.subrange(0, idx);
            let suffix = bytes.subrange(idx, bytes.len() as int);
            let spliced = prefix + ins + suffix;
            &&& valid_utf8(prefix)
            &&& valid_utf8(suffix)
            &&& valid_utf8(spliced)
            &&& decode_utf8(spliced) == decode_utf8(prefix) + decode_utf8(ins) + decode_utf8(
                suffix,
            )
            &&& decode_utf8(bytes) == decode_utf8(prefix) + decode_utf8(suffix)
        }),
{
    lemma_boundary_in_range(bytes, idx);
    valid_utf8_split(bytes, idx);
    decode_utf8_split(bytes, idx);
    let prefix = bytes.subrange(0, idx);
    let suffix = bytes.subrange(idx, bytes.len() as int);
    lemma_decode_utf8_concat(ins, suffix);
    lemma_decode_utf8_concat(prefix, ins + suffix);
    assert(prefix + ins + suffix =~= prefix + (ins + suffix));
    assert(decode_utf8(prefix) + decode_utf8(ins) + decode_utf8(suffix) =~= decode_utf8(prefix) + (
    decode_utf8(ins) + decode_utf8(suffix)));
}

/// Excising the scalar encoding that starts at a character boundary keeps
/// the sequence valid and drops exactly that character from the decoded
/// view.
pub proof fn lemma_utf8_excise(bytes: Seq<u8>, idx: int)
    requires
        valid_utf8(bytes),
        is_char_boundary(bytes, idx),
        0 <= idx < bytes.len(),
    ensures
        ({
            let prefix = bytes.subrange(0, idx);
            let suffix = bytes.subrange(idx, bytes.len() as int);
            let shrunk = prefix + pop_first_scalar(suffix);
            &&& valid_utf8(prefix)
            &&& valid_utf8(suffix)
            &&& valid_first_scalar(suffix)
            &&& valid_utf8(shrunk)
            &&& decode_utf8(suffix).len() >= 1
            &&& decode_utf8(suffix) == seq![decode_first_scalar(suffix) as char] + decode_utf8(
                pop_first_scalar(suffix),
            )
            &&& decode_utf8(shrunk) == decode_utf8(prefix) + decode_utf8(suffix).drop_first()
            &&& decode_utf8(bytes) == decode_utf8(prefix) + decode_utf8(suffix)
        }),
{
    valid_utf8_split(bytes, idx);
    decode_utf8_split(bytes, idx);
    let prefix = bytes.subrange(0, idx);
    let suffix = bytes.subrange(idx, bytes.len() as int);
    assert(suffix.len() > 0);
    assert(valid_first_scalar(suffix));
    assert(valid_utf8(pop_first_scalar(suffix)));
    lemma_decode_utf8_concat(prefix, pop_first_scalar(suffix));
    assert(decode_utf8(suffix) == seq![decode_first_scalar(suffix) as char] + decode_utf8(
        pop_first_scalar(suffix),
    ));
    assert(decode_utf8(suffix).drop_first() =~= decode_utf8(pop_first_scalar(suffix)));
}

/// A character boundary strictly inside a valid UTF-8 sequence is followed by
/// another boundary one whole scalar encoding later.
pub proof fn lemma_boundary_step(bytes: Seq<u8>, idx: int)
    requires
        valid_utf8(bytes),
        is_char_boundary(bytes, idx),
        0 <= idx < bytes.len(),
    ensures
        ({
            let suffix = bytes.subrange(idx, bytes.len() as int);
            let w = length_of_first_scalar(suffix);
            &&& valid_first_scalar(suffix)
            &&& 1 <= w <= suffix.len()
            &&& is_char_boundary(bytes, idx + w)
        }),
{
    valid_utf8_split(bytes, idx);
    let suffix = bytes.subrange(idx, bytes.len() as int);
    assert(valid_utf8(suffix));
    assert(suffix.len() > 0);
    assert(valid_first_scalar(suffix));
    let w = length_of_first_scalar(suffix);
    assert(1 <= w <= suffix.len());
    if idx + w == bytes.len() {
        is_char_boundary_start_end_of_seq(bytes);
    } else {
        assert(is_char_boundary(suffix, w)) by {
            reveal_with_fuel(is_char_boundary, 2);
            assert(is_char_boundary(pop_first_scalar(suffix), 0));
        }
        is_char_boundary_iff_not_is_continuation_byte(suffix, w);
        assert(!is_continuation_byte(suffix[w]));
        assert(suffix[w] == bytes[idx + w]);
        is_char_boundary_iff_not_is_continuation_byte(bytes, idx + w);
    }
}

/// Decodes the scalar value whose encoding starts at byte offset `idx`,
/// returning the character and the width in bytes of its encoding.
pub(crate) fn decode_scalar_at(v: &ByteVec, idx: usize) -> (r: (char, usize))
    requires
        valid_utf8(buf_bytes(*v)),
        is_char_boundary(buf_bytes(*v), idx as int),
        idx < buf_bytes(*v).len(),
    ensures
        ({
            let bytes = buf_bytes(*v);
            let suffix = bytes.subrange(idx as int, bytes.len() as int);
            &&& valid_first_scalar(suffix)
            &&& r.0 as u32 == decode_first_scalar(suffix)
            &&& r.0 == decode_utf8(suffix)[0]
            &&& r.1 == length_of_first_scalar(suffix)
            &&& 1 <= r.1 && idx + r.1 <= bytes.len()
            &&& is_char_boundary(bytes, idx + r.1)
        }),
{
    let ghost bytes = buf_bytes(*v);
    let ghost suffix = bytes.subrange(idx as int, bytes.len() as int);
    proof {
        lemma_boundary_step(bytes, idx as int);
        assert(forall|j: int| 0 <= j < suffix.len() ==> suffix[j] == bytes[idx + j]);
    }
    let n = buf_len(v);
    let b0 = buf_get(v, idx);
    let (u, w): (u32, usize) = if b0 < 0x80 {
        proof {
            assert((b0 & 0x7f) as u32 == b0 as u32) by (bit_vector)
                requires
                    b0 < 0x80,
            ;
        }
        (b0 as u32, 1)
    } else if b0 < 0xE0 {
        let b1 = buf_get(v, idx + 1);
        let u = ((b0 & 0x1F) as u32) << 6 | ((b1 & 0x3F) as u32);
        proof {
            assert(((b0 & 0x1F) as u32) << 6 | ((b1 & 0x3F) as u32) <= 0x7FF) by (bit_vector);
        }
        (u, 2)
    } else if b0 < 0xF0 {
        let b1 = buf_get(v, idx + 1);
        let b2 = buf_get(v, idx + 2);
        let u = ((b0 & 0x0F) as u32) << 12 | ((b1 & 0x3F) as u32) << 6 | ((b2 & 0x3F) as u32);
        proof {
            assert(((b0 & 0x0F) as u32) << 12 | ((b1 & 0x3F) as u32) << 6 | ((b2 & 0x3F) as u32)
                <= 0xFFFF) by (bit_vector);
        }
        (u, 3)
    } else {
        let b1 = buf_get(v, idx + 1);
        let b2 = buf_get(v, idx + 2);
        let b3 = buf_get(v, idx + 3);
        let u = ((b0 & 0x07) as u32) << 18 | ((b1 & 0x3F) as u32) << 12 | ((b2 & 0x3F) as u32) << 6
            | ((b3 & 0x3F) as u32);
        (u, 4)
    };
    proof {
        assert(u == decode_first_scalar(suffix));
        assert(w == length_of_first_scalar(suffix));
        assert(is_scalar(u));
    }
    let c = match char_from_u32(u) {
        Some(c) => c,
        None => vstd::pervasive::unreached(),
    };
    proof {
        char_u32_cast(c, u);
        valid_utf8_split(bytes, idx as int);
        assert(valid_utf8(suffix));
        assert(decode_utf8(suffix) == seq![decode_first_scalar(suffix) as char] + decode_utf8(
            pop_first_scalar(suffix),
        ));
        assert(decode_utf8(suffix)[0] == decode_first_scalar(suffix) as char);
    }
    (c, w)
}

} // verus!
