//! The dynamic string buffer: capacity-aware byte storage with
//! codepoint-aware mutation, verified to hold valid UTF-8 at every
//! observable boundary.

use vstd::prelude::*;
use vstd::string::StringSliceAdditionalSpecFns;
use vstd::utf8::*;

use crate::codec::{
    decode_scalar_at, lemma_boundary_in_range, lemma_decode_utf8_concat,
    lemma_encode_utf8_concat, lemma_encode_utf8_singleton, lemma_utf8_excise, lemma_utf8_splice,
};
use crate::storage::{
    buf_as_mut_str, buf_as_str, buf_bytes, buf_clear, buf_extend_from_slice, buf_get, buf_insert, buf_len,
    buf_new, buf_push, buf_remove, buf_truncate, buf_with_capacity, ByteVec,
};

verus! {

/// A growable text buffer over bytes held by a pluggable allocation
/// strategy. The byte range `[0, len)` is a valid, complete UTF-8 encoding
/// at every observable boundary; the buffer's view is the decoded character
/// sequence.
pub struct RedString {
    buf: ByteVec,
}

impl View for RedString {
    type V = Seq<char>;

    open spec fn view(&self) -> Seq<char> {
        decode_utf8(self.bytes())
    }
}

impl RedString {
    /// The bytes currently held by the buffer.
    pub closed spec fn bytes(&self) -> Seq<u8> {
        buf_bytes(self.buf)
    }

    /// The buffer's invariant: its bytes are a valid, complete UTF-8
    /// encoding, never a partial multi-byte sequence at the boundary.
    pub open spec fn wf(&self) -> bool {
        valid_utf8(self.bytes())
    }

    /// Creates an empty buffer with no allocation yet.
    pub fn new() -> (s: Self)
        ensures
            s.wf(),
            s.bytes() == Seq::<u8>::empty(),
            s@ == Seq::<char>::empty(),
    {
        Self { buf: buf_new() }
    }

    /// Creates an empty buffer that reserves at least `capacity` bytes up
    /// front.
    pub fn with_capacity(capacity: usize) -> (s: Self)
        ensures
            s.wf(),
            s.bytes() == Seq::<u8>::empty(),
            s@ == Seq::<char>::empty(),
    {
        Self { buf: buf_with_capacity(capacity) }
    }

    /// Creates a buffer seeded from existing valid UTF-8, reserving its byte
    /// length up front.
    pub fn from_str(s: &str) -> (r: Self)
        ensures
            r.wf(),
            r.bytes() == s.spec_bytes(),
            r@ == s@,
    {
        let mut result = Self { buf: buf_with_capacity(s.len()) };
        result.push_str(s);
        proof {
            assert(Seq::<u8>::empty() + s.spec_bytes() =~= s.spec_bytes());
            assert(Seq::<char>::empty() + s@ =~= s@);
        }
        result
    }

    /// Current length in bytes (not in scalar values).
    pub fn len(&self) -> (n: usize)
        ensures
            n == self.bytes().len(),
    {
        buf_len(&self.buf)
    }

    /// Appends the raw bytes of an already-valid UTF-8 slice; the result is
    /// valid because the concatenation of two valid UTF-8 sequences is
    /// valid.
    pub fn push_str(&mut self, s: &str)
        requires
            old(self).wf(),
        ensures
            final(self).wf(),
            final(self).bytes() == old(self).bytes() + s.spec_bytes(),
            final(self)@ == old(self)@ + s@,
    {
        proof {
            encode_utf8_valid_utf8(s@);
            lemma_decode_utf8_concat(old(self).bytes(), s.spec_bytes());
            encode_utf8_decode_utf8(s@);
        }
        buf_extend_from_slice(&mut self.buf, s.as_bytes());
    }

    /// Appends the UTF-8 encoding of one scalar value. A one-byte scalar is
    /// appended as a single byte; a multi-byte scalar's encoding is appended
    /// whole, so the buffer never holds a partial sequence.
    pub fn push(&mut self, c: char)
        requires
            old(self).wf(),
        ensures
            final(self).wf(),
            final(self).bytes() == old(self).bytes() + encode_utf8(seq![c]),
            final(self)@ == old(self)@.push(c),
    {
        let ghost b0 = self.bytes();
        let u = c as u32;
        proof {
            char_is_scalar(c);
            lemma_encode_utf8_singleton(c);
        }
        if u < 0x80 {
            proof {
                assert((u & 0x7F) as u8 == u as u8) by (bit_vector)
                    requires
                        u < 0x80,
                ;
            }
            buf_push(&mut self.buf, u as u8);
            proof {
                assert(self.bytes() =~= b0 + encode_scalar(u));
            }
        } else if u < 0x800 {
            buf_push(&mut self.buf, 0xC0 | ((u >> 6) & 0x1F) as u8);
            buf_push(&mut self.buf, 0x80 | (u & 0x3F) as u8);
            proof {
                assert(self.bytes() =~= b0 + encode_scalar(u));
            }
        } else if u < 0x10000 {
            buf_push(&mut self.buf, 0xE0 | ((u >> 12) & 0x0F) as u8);
            buf_push(&mut self.buf, 0x80 | ((u >> 6) & 0x3F) as u8);
            buf_push(&mut self.buf, 0x80 | (u & 0x3F) as u8);
            proof {
                assert(self.bytes() =~= b0 + encode_scalar(u));
            }
        } else {
            buf_push(&mut self.buf, 0xF0 | ((u >> 18) & 0x7) as u8);
            buf_push(&mut self.buf, 0x80 | ((u >> 12) & 0x3F) as u8);
            buf_push(&mut self.buf, 0x80 | ((u >> 6) & 0x3F) as u8);
            buf_push(&mut self.buf, 0x80 | (u & 0x3F) as u8);
            proof {
                assert(self.bytes() =~= b0 + encode_scalar(u));
            }
        }
        proof {
            encode_utf8_valid_utf8(seq![c]);
            lemma_decode_utf8_concat(b0, encode_utf8(seq![c]));
            encode_utf8_decode_utf8(seq![c]);
            assert(decode_utf8(b0) + seq![c] =~= decode_utf8(b0).push(c));
        }
    }

    /// Inserts the UTF-8 encoding of one scalar value at byte offset `idx`,
    /// which must fall on a character boundary; the suffix is shifted right
    /// to make room.
    #[verifier::rlimit(50)]
    pub fn insert(&mut self, idx: usize, c: char)
        requires
            old(self).wf(),
            is_char_boundary(old(self).bytes(), idx as int),
            old(self).bytes().len() + 4 <= usize::MAX,
        ensures
            final(self).wf(),
            ({
                let prefix = old(self).bytes().subrange(0, idx as int);
                let suffix = old(self).bytes().subrange(
                    idx as int,
                    old(self).bytes().len() as int,
                );
                &&& final(self).bytes() == prefix + encode_utf8(seq![c]) + suffix
                &&& final(self)@ == decode_utf8(prefix) + seq![c] + decode_utf8(suffix)
                &&& old(self)@ == decode_utf8(prefix) + decode_utf8(suffix)
            }),
    {
        let ghost b0 = self.bytes();
        let ghost prefix = b0.subrange(0, idx as int);
        let ghost suffix = b0.subrange(idx as int, b0.len() as int);
        let u = c as u32;
        proof {
            char_is_scalar(c);
            lemma_encode_utf8_singleton(c);
            encode_utf8_valid_utf8(seq![c]);
            lemma_utf8_splice(b0, idx as int, encode_utf8(seq![c]));
        }
        if u < 0x80 {
            proof {
                assert((u & 0x7F) as u8 == u as u8) by (bit_vector)
                    requires
                        u < 0x80,
                ;
            }
            buf_insert(&mut self.buf, idx, u as u8);
            proof {
                assert(self.bytes() =~= prefix + encode_scalar(u) + suffix);
            }
        } else if u < 0x800 {
            buf_insert(&mut self.buf, idx, 0xC0 | ((u >> 6) & 0x1F) as u8);
            let ghost s1 = self.bytes();
            buf_insert(&mut self.buf, idx + 1, 0x80 | (u & 0x3F) as u8);
            proof {
                assert(s1 =~= prefix + seq![0xC0 | ((u >> 6) & 0x1F) as u8] + suffix);
                assert(self.bytes() =~= prefix + encode_scalar(u) + suffix);
            }
        } else if u < 0x10000 {
            buf_insert(&mut self.buf, idx, 0xE0 | ((u >> 12) & 0x0F) as u8);
            let ghost s1 = self.bytes();
            buf_insert(&mut self.buf, idx + 1, 0x80 | ((u >> 6) & 0x3F) as u8);
            let ghost s2 = self.bytes();
            buf_insert(&mut self.buf, idx + 2, 0x80 | (u & 0x3F) as u8);
            proof {
                assert(s1 =~= prefix + seq![0xE0 | ((u >> 12) & 0x0F) as u8] + suffix);
                assert(s2 =~= prefix + seq![
                    0xE0 | ((u >> 12) & 0x0F) as u8,
                    0x80 | ((u >> 6) & 0x3F) as u8,
                ] + suffix);
                assert(self.bytes() =~= prefix + encode_scalar(u) + suffix);
            }
        } else {
            buf_insert(&mut self.buf, idx, 0xF0 | ((u >> 18) & 0x7) as u8);
            let ghost s1 = self.bytes();
            buf_insert(&mut self.buf, idx + 1, 0x80 | ((u >> 12) & 0x3F) as u8);
            let ghost s2 = self.bytes();
            buf_insert(&mut self.buf, idx + 2, 0x80 | ((u >> 6) & 0x3F) as u8);
            let ghost s3 = self.bytes();
            buf_insert(&mut self.buf, idx + 3, 0x80 | (u & 0x3F) as u8);
            proof {
                assert(s1 =~= prefix + seq![0xF0 | ((u >> 18) & 0x7) as u8] + suffix);
                assert(s2 =~= prefix + seq![
                    0xF0 | ((u >> 18) & 0x7) as u8,
                    0x80 | ((u >> 12) & 0x3F) as u8,
                ] + suffix);
                assert(s3 =~= prefix + seq![
                    0xF0 | ((u >> 18) & 0x7) as u8,
                    0x80 | ((u >> 12) & 0x3F) as u8,
                    0x80 | ((u >> 6) & 0x3F) as u8,
                ] + suffix);
                assert(self.bytes() =~= prefix + encode_scalar(u) + suffix);
            }
        }
        proof {
            encode_utf8_decode_utf8(seq![c]);
        }
    }

    /// Inserts the raw bytes of an already-valid UTF-8 slice at byte offset
    /// `idx`, which must fall on a character boundary; the suffix is shifted
    /// right to make room.
    pub fn insert_str(&mut self, idx: usize, s: &str)
        requires
            old(self).wf(),
            is_char_boundary(old(self).bytes(), idx as int),
            old(self).bytes().len() + s.spec_bytes().len() <= usize::MAX,
        ensures
            final(self).wf(),
            ({
                let prefix = old(self).bytes().subrange(0, idx as int);
                let suffix = old(self).bytes().subrange(
                    idx as int,
                    old(self).bytes().len() as int,
                );
                &&& final(self).bytes() == prefix + s.spec_bytes() + suffix
                &&& final(self)@ == decode_utf8(prefix) + s@ + decode_utf8(suffix)
                &&& old(self)@ == decode_utf8(prefix) + decode_utf8(suffix)
            }),
    {
        let ghost b0 = self.bytes();
        let ghost prefix = b0.subrange(0, idx as int);
        let ghost suffix = b0.subrange(idx as int, b0.len() as int);
        proof {
            encode_utf8_valid_utf8(s@);
            lemma_utf8_splice(b0, idx as int, s.spec_bytes());
            encode_utf8_decode_utf8(s@);
        }
        let b = s.as_bytes();
        let m = b.len();
        let mut j: usize = 0;
        proof {
            assert(b@.subrange(0, 0) =~= Seq::<u8>::empty());
            assert(prefix + Seq::<u8>::empty() + suffix =~= prefix + suffix);
            assert(prefix + suffix =~= b0);
        }
        while j < m
            invariant
                j <= m,
                m == b@.len(),
                b@ == s.spec_bytes(),
                idx <= b0.len(),
                b0.len() + m <= usize::MAX,
                prefix == b0.subrange(0, idx as int),
                suffix == b0.subrange(idx as int, b0.len() as int),
                self.bytes() == prefix + b@.subrange(0, j as int) + suffix,
            decreases m - j,
        {
            buf_insert(&mut self.buf, idx + j, b[j]);
            proof {
                assert(self.bytes() =~= prefix + b@.subrange(0, j + 1) + suffix);
            }
            j = j + 1;
        }
        proof {
            assert(b@.subrange(0, m as int) =~= b@);
        }
    }

    /// Decodes and removes the scalar value whose encoding starts at byte
    /// offset `idx`, shifting the remaining suffix left to close the gap.
    /// `idx` must fall on a character boundary strictly inside the content:
    /// removing at or past the end of content is a usage error, ruled out by
    /// the precondition rather than reported as a recoverable result.
    pub fn remove(&mut self, idx: usize) -> (c: char)
        requires
            old(self).wf(),
            is_char_boundary(old(self).bytes(), idx as int),
            idx < old(self).bytes().len(),
        ensures
            final(self).wf(),
            ({
                let prefix = old(self).bytes().subrange(0, idx as int);
                let suffix = old(self).bytes().subrange(
                    idx as int,
                    old(self).bytes().len() as int,
                );
                &&& c == decode_utf8(suffix)[0]
                &&& final(self).bytes() == prefix + pop_first_scalar(suffix)
                &&& final(self)@ == decode_utf8(prefix) + decode_utf8(suffix).drop_first()
                &&& old(self)@ == decode_utf8(prefix) + decode_utf8(suffix)
            }),
    {
        let ghost b0 = self.bytes();
        let ghost prefix = b0.subrange(0, idx as int);
        let ghost suffix = b0.subrange(idx as int, b0.len() as int);
        proof {
            lemma_utf8_excise(b0, idx as int);
        }
        let (c, w) = decode_scalar_at(&self.buf, idx);
        proof {
            assert(b0.subrange(idx as int, idx as int) =~= Seq::<u8>::empty());
            assert(prefix + b0.subrange(idx as int, b0.len() as int) =~= b0);
        }
        let mut k: usize = 0;
        while k < w
            invariant
                k <= w,
                idx + w <= b0.len(),
                w == length_of_first_scalar(suffix),
                prefix == b0.subrange(0, idx as int),
                suffix == b0.subrange(idx as int, b0.len() as int),
                self.bytes() == prefix + b0.subrange(idx + k, b0.len() as int),
            decreases w - k,
        {
            buf_remove(&mut self.buf, idx);
            proof {
                assert(self.bytes() =~= prefix + b0.subrange(idx + k + 1, b0.len() as int));
            }
            k = k + 1;
        }
        proof {
            assert(b0.subrange(idx + w, b0.len() as int) =~= pop_first_scalar(suffix));
        }
        c
    }

    /// Decodes the last scalar value in the buffer, found by scanning
    /// backward from the end, and truncates the length by its encoded byte
    /// count. Draining an empty buffer is the one expected terminal
    /// condition in this set of operations, reported as `None` rather than
    /// ruled out.
    pub fn pop(&mut self) -> (r: Option<char>)
        requires
            old(self).wf(),
        ensures
            final(self).wf(),
            old(self)@.len() == 0 ==> r is None && final(self).bytes() == old(self).bytes(),
            old(self)@.len() > 0 ==> {
                &&& r == Some(old(self)@.last())
                &&& final(self)@ == old(self)@.drop_last()
                &&& final(self).bytes() == encode_utf8(old(self)@.drop_last())
            },
    {
        let ghost b0 = self.bytes();
        let n = buf_len(&self.buf);
        if n == 0 {
            proof {
                assert(b0.len() == 0);
                assert(decode_utf8(b0).len() == 0);
            }
            None
        } else {
            let mut i: usize = n - 1;
            loop
                invariant
                    valid_utf8(b0),
                    self.bytes() == b0,
                    n == b0.len(),
                    0 < n,
                    i < n,
                    forall|j: int| i < j < n ==> is_continuation_byte(b0[j]),
                ensures
                    i < n,
                    self.bytes() == b0,
                    !is_continuation_byte(b0[i as int]),
                    forall|j: int| i < j < n ==> is_continuation_byte(b0[j]),
                decreases i,
            {
                let b = buf_get(&self.buf, i);
                if b < 0x80 || b >= 0xC0 {
                    break;
                }
                proof {
                    is_char_boundary_iff_not_is_continuation_byte(b0, i as int);
                    assert(!is_char_boundary(b0, i as int));
                    assert(i != 0);
                }
                i = i - 1;
            }
            proof {
                is_char_boundary_iff_not_is_continuation_byte(b0, i as int);
                assert(is_char_boundary(b0, i as int));
                lemma_utf8_excise(b0, i as int);
            }
            let ghost prefix = b0.subrange(0, i as int);
            let ghost suffix = b0.subrange(i as int, b0.len() as int);
            let (c, w) = decode_scalar_at(&self.buf, i);
            proof {
                if i + w < n {
                    is_char_boundary_iff_not_is_continuation_byte(b0, i + w);
                    assert(!is_continuation_byte(b0[i + w]));
                    assert(false);
                }
                assert(i + w == n);
                assert(pop_first_scalar(suffix) =~= Seq::<u8>::empty());
                assert(decode_utf8(pop_first_scalar(suffix)).len() == 0);
                assert(decode_utf8(suffix) =~= seq![c]);
                assert(decode_utf8(b0) == decode_utf8(prefix) + seq![c]);
                assert(decode_utf8(b0).last() == c);
                assert(decode_utf8(b0).drop_last() =~= decode_utf8(prefix));
                decode_utf8_encode_utf8(prefix);
            }
            buf_truncate(&mut self.buf, i);
            proof {
                assert(self.bytes() =~= prefix);
            }
            Some(c)
        }
    }

    /// Sets the length to zero; capacity and allocation are retained for
    /// reuse.
    pub fn clear(&mut self)
        ensures
            final(self).wf(),
            final(self).bytes() == Seq::<u8>::empty(),
            final(self)@ == Seq::<char>::empty(),
    {
        buf_clear(&mut self.buf);
    }

    /// True exactly when byte offset `idx` falls on a character boundary of
    /// the current content: between two complete scalar encodings or at the
    /// start or end, never inside a multi-byte sequence. `insert`,
    /// `insert_str` and `remove` demand such an offset.
    pub fn is_boundary(&self, idx: usize) -> (b: bool)
        requires
            self.wf(),
        ensures
            b == is_char_boundary(self.bytes(), idx as int),
    {
        let n = buf_len(&self.buf);
        if idx > n {
            proof {
                if is_char_boundary(self.bytes(), idx as int) {
                    lemma_boundary_in_range(self.bytes(), idx as int);
                }
            }
            false
        } else if idx == n {
            proof {
                is_char_boundary_start_end_of_seq(self.bytes());
            }
            true
        } else {
            let b = buf_get(&self.buf, idx);
            proof {
                is_char_boundary_iff_not_is_continuation_byte(self.bytes(), idx as int);
            }
            !(0x80 <= b && b <= 0xBF)
        }
    }

    /// Exposes the valid byte range as text for reading.
    pub fn as_str(&self) -> (s: &str)
        requires
            self.wf(),
        ensures
            s@ == self@,
            s.spec_bytes() == self.bytes(),
    {
        let s = buf_as_str(&self.buf);
        proof {
            encode_utf8_decode_utf8(s@);
        }
        s
    }

    /// Exposes the valid byte range as text for in-place mutation. The
    /// string type itself guards the encoding: whatever a caller writes
    /// through the returned slice, the buffer afterwards holds that
    /// string's bytes, still a valid UTF-8 encoding.
    pub fn as_mut_str(&mut self) -> (s: &mut str)
        requires
            old(self).wf(),
        ensures
            s@ == old(self)@,
            final(self)@ == final(s)@,
            final(self).bytes() == encode_utf8(final(s)@),
            final(self).wf(),
    {
        let s = buf_as_mut_str(&mut self.buf);
        proof {
            encode_utf8_decode_utf8(s@);
            encode_utf8_valid_utf8(final(s)@);
            encode_utf8_decode_utf8(final(s)@);
        }
        s
    }

    /// Consumes the buffer and hands out its byte storage, whose contents
    /// are guaranteed valid UTF-8. Responsibility for the backing memory
    /// moves with the returned vector, exactly once: the buffer itself is
    /// gone and cannot release it again.
    pub fn into_bytes(self) -> (v: ByteVec)
        requires
            self.wf(),
        ensures
            buf_bytes(v) == self.bytes(),
            valid_utf8(buf_bytes(v)),
            decode_utf8(buf_bytes(v)) == self@,
    {
        let RedString { buf } = self;
        buf
    }
}

/// A well-formed buffer's bytes are exactly the UTF-8 encoding of its
/// readable view: what was written in is read back byte for byte, for any
/// valid content.
pub proof fn lemma_bytes_encode_view(s: &RedString)
    requires
        s.wf(),
    ensures
        s.bytes() == encode_utf8(s@),
{
    decode_utf8_encode_utf8(s.bytes());
}

/// Inserting one scalar value at a character boundary and then removing at
/// the same byte offset returns the inserted character and restores the
/// prior bytes and view, for any valid content, boundary and scalar.
/// The clauses mirror `insert`'s postcondition feeding `remove`'s
/// precondition and postcondition.
pub proof fn lemma_insert_remove_inverse(bytes: Seq<u8>, idx: int, c: char)
    requires
        valid_utf8(bytes),
        is_char_boundary(bytes, idx),
    ensures
        ({
            let prefix = bytes.subrange(0, idx);
            let suffix = bytes.subrange(idx, bytes.len() as int);
            let spliced = prefix + encode_utf8(seq![c]) + suffix;
            let ssuffix = spliced.subrange(idx, spliced.len() as int);
            &&& valid_utf8(spliced)
            &&& is_char_boundary(spliced, idx)
            &&& idx < spliced.len()
            &&& decode_utf8(ssuffix)[0] == c
            &&& spliced.subrange(0, idx) + pop_first_scalar(ssuffix) == bytes
            &&& decode_utf8(spliced.subrange(0, idx)) + decode_utf8(ssuffix).drop_first()
                == decode_utf8(bytes)
        }),
{
    char_is_scalar(c);
    lemma_encode_utf8_singleton(c);
    encode_utf8_valid_utf8(seq![c]);
    lemma_utf8_splice(bytes, idx, encode_utf8(seq![c]));
    let prefix = bytes.subrange(0, idx);
    let suffix = bytes.subrange(idx, bytes.len() as int);
    let enc = encode_utf8(seq![c]);
    let spliced = prefix + enc + suffix;
    let ssuffix = spliced.subrange(idx, spliced.len() as int);
    assert(enc.len() >= 1);
    assert(spliced.subrange(0, idx) =~= prefix);
    assert(ssuffix =~= enc + suffix);
    // the spliced suffix is the encoding of `c` followed by the old suffix,
    // so its first scalar is exactly `c`
    decode_utf8_encode_utf8(suffix);
    lemma_encode_utf8_concat(seq![c], decode_utf8(suffix));
    assert(seq![c] + decode_utf8(suffix) =~= (seq![c] + decode_utf8(suffix)));
    assert((seq![c] + decode_utf8(suffix))[0] == c);
    assert(enc + suffix =~= encode_utf8(seq![c] + decode_utf8(suffix)));
    encode_utf8_first_scalar(seq![c] + decode_utf8(suffix));
    assert(decode_first_scalar(ssuffix) == c as u32);
    assert(length_of_first_scalar(ssuffix) == encode_scalar(c as u32).len());
    char_u32_cast(c, c as u32);
    valid_utf8_concat(enc, suffix);
    assert(decode_utf8(ssuffix) == seq![decode_first_scalar(ssuffix) as char] + decode_utf8(
        pop_first_scalar(ssuffix),
    ));
    assert(decode_utf8(ssuffix)[0] == c);
    assert(pop_first_scalar(ssuffix) =~= suffix);
    assert(prefix + suffix =~= bytes);
    is_char_boundary_iff_not_is_continuation_byte(spliced, idx);
    assert(spliced[idx] == enc[0]);
    assert(!is_continuation_byte(enc[0]));
    assert(decode_utf8(ssuffix).drop_first() =~= decode_utf8(suffix));
}

/// Appending one scalar value's encoding and then taking the last scalar
/// back off returns that character and restores the prior bytes and
/// view, for any valid content and scalar. The clauses mirror `push`'s
/// postcondition feeding `pop`'s postcondition.
pub proof fn lemma_push_pop_inverse(bytes: Seq<u8>, c: char)
    requires
        valid_utf8(bytes),
    ensures
        ({
            let appended = bytes + encode_utf8(seq![c]);
            &&& valid_utf8(appended)
            &&& decode_utf8(appended) == decode_utf8(bytes).push(c)
            &&& decode_utf8(appended).len() > 0
            &&& decode_utf8(appended).last() == c
            &&& decode_utf8(appended).drop_last() == decode_utf8(bytes)
            &&& encode_utf8(decode_utf8(appended).drop_last()) == bytes
        }),
{
    encode_utf8_valid_utf8(seq![c]);
    lemma_decode_utf8_concat(bytes, encode_utf8(seq![c]));
    encode_utf8_decode_utf8(seq![c]);
    let appended = bytes + encode_utf8(seq![c]);
    assert(decode_utf8(bytes) + seq![c] =~= decode_utf8(bytes).push(c));
    assert(decode_utf8(appended).drop_last() =~= decode_utf8(bytes));
    decode_utf8_encode_utf8(bytes);
}

} // verus!
