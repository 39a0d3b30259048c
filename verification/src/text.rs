//! Text slicing and joining at ASCII separators, specified over UTF-8 bytes.

use vstd::prelude::*;
use vstd::string::StringExecFns;
use crate::bytes::{sbytes, ubytes};

verus! {

/// The encoding of a concatenation is the concatenation of the encodings.
pub proof fn lemma_encode_concat(a: Seq<char>, b: Seq<char>)
    ensures
        ubytes(a + b) == ubytes(a) + ubytes(b),
    decreases a.len(),
{
    if a.len() == 0 {
        assert(a + b =~= b);
        assert(ubytes(a) =~= Seq::<u8>::empty());
        assert(ubytes(a) + ubytes(b) =~= ubytes(b));
    } else {
        lemma_encode_concat(a.drop_first(), b);
        assert((a + b).drop_first() =~= a.drop_first() + b);
        assert((a + b)[0] == a[0]);
        assert(ubytes(a + b) =~= ubytes(a) + ubytes(b));
    }
}

/// Around an ASCII byte of well-formed text both edges are character boundaries.
pub proof fn lemma_ascii_boundary(bytes: Seq<u8>, i: int)
    requires
        vstd::utf8::valid_utf8(bytes),
        0 <= i < bytes.len(),
        bytes[i] < 0x80,
    ensures
        vstd::utf8::is_char_boundary(bytes, i),
        vstd::utf8::is_char_boundary(bytes, i + 1),
{
    vstd::utf8::is_char_boundary_iff_not_is_continuation_byte(bytes, i);
    vstd::utf8::valid_utf8_split(bytes, i);
    let tail = bytes.subrange(i, bytes.len() as int);
    assert(tail[0] == bytes[i]);
    assert(vstd::utf8::length_of_first_scalar(tail) == 1);
    let rest = vstd::utf8::pop_first_scalar(tail);
    assert(rest =~= bytes.subrange(i + 1, bytes.len() as int));
    assert(vstd::utf8::valid_utf8(tail));
    assert(vstd::utf8::valid_utf8(rest));
    if i + 1 < bytes.len() {
        assert(rest[0] == bytes[i + 1]);
        assert(rest.len() > 0);
        assert(vstd::utf8::valid_first_scalar(rest));
        vstd::utf8::is_char_boundary_iff_not_is_continuation_byte(bytes, i + 1);
    } else {
        vstd::utf8::is_char_boundary_start_end_of_seq(bytes);
    }
}

/// The text of a string is well-formed UTF-8.
pub proof fn lemma_str_valid(s: &str)
    ensures
        vstd::utf8::valid_utf8(sbytes(s)),
{
    vstd::utf8::encode_utf8_valid_utf8(s@);
}

/// The part of `s` between two character boundaries, given by byte offsets.
pub fn substr(s: &str, from: usize, to: usize) -> (r: &str)
    requires
        from <= to <= sbytes(s).len(),
        vstd::utf8::is_char_boundary(sbytes(s), from as int),
        vstd::utf8::is_char_boundary(sbytes(s), to as int),
    ensures
        sbytes(r) == sbytes(s).subrange(from as int, to as int),
{
    let ghost b = sbytes(s);
    proof { lemma_str_valid(s); }
    let (_, right) = s.split_at(from);
    proof {
        lemma_str_valid(right);
        assert(sbytes(right) =~= b.subrange(from as int, b.len() as int));
        if to < b.len() {
            vstd::utf8::is_char_boundary_iff_not_is_continuation_byte(b, to as int);
            vstd::utf8::is_char_boundary_iff_not_is_continuation_byte(sbytes(right), (to - from) as int);
            assert(sbytes(right)[to - from] == b[to as int]);
        } else {
            vstd::utf8::is_char_boundary_start_end_of_seq(sbytes(right));
        }
    }
    let (mid, _) = right.split_at(to - from);
    assert(sbytes(mid) =~= b.subrange(from as int, to as int));
    mid
}

/// A new string holding the text of `s`.
pub fn owned(s: &str) -> (r: String)
    ensures
        r@ == s@,
{
    String::from_str(s)
}

/// Append the text of `s` to `out`.
pub fn append(out: &mut String, s: &str)
    ensures
        final(out)@ == old(out)@ + s@,
        ubytes(final(out)@) == ubytes(old(out)@) + sbytes(s),
{
    let ghost before = out@;
    out.append(s);
    proof {
        lemma_encode_concat(before, s@);
        assert(out@ == before + s@);
        assert(sbytes(s) == ubytes(s@));
    }
}

/// The index of the last occurrence of byte `b` in `s`, if any.
pub open spec fn last_index(s: Seq<u8>, b: u8) -> Option<int>
    decreases s.len(),
{
    if s.len() == 0 {
        None
    } else if s.last() == b {
        Some(s.len() - 1)
    } else {
        last_index(s.drop_last(), b)
    }
}

pub(crate) proof fn lemma_last_index(s: Seq<u8>, b: u8)
    ensures
        match last_index(s, b) {
            Some(i) => 0 <= i < s.len() && s[i] == b && forall|k: int| i < k < s.len() ==> s[k] != b,
            None => forall|k: int| 0 <= k < s.len() ==> s[k] != b,
        },
    decreases s.len(),
{
    if s.len() > 0 {
        lemma_last_index(s.drop_last(), b);
        assert forall|k: int| 0 <= k < s.len() - 1 implies s.drop_last()[k] == s[k] by {}
    }
}

/// Find the last occurrence of byte `b` (an ASCII byte) in `s`.
pub fn rfind_byte(s: &[u8], b: u8) -> (r: Option<usize>)
    ensures
        match r {
            Some(i) => last_index(s@, b) == Some(i as int) && i < s@.len() && s@[i as int] == b,
            None => last_index(s@, b) is None,
        },
{
    proof { lemma_last_index(s@, b); }
    let mut i: usize = s.len();
    while i > 0
        invariant
            i <= s@.len(),
            forall|k: int| i <= k < s@.len() ==> s@[k] != b,
        decreases i,
    {
        if s[i - 1] == b {
            proof {
                lemma_last_index(s@, b);
                match last_index(s@, b) {
                    Some(j) => {
                        if j < i - 1 {
                            assert(s@[i - 1] != b);
                        }
                    },
                    None => {
                        assert(s@[i - 1] != b);
                    },
                }
            }
            return Some(i - 1);
        }
        i = i - 1;
    }
    proof {
        lemma_last_index(s@, b);
        match last_index(s@, b) {
            Some(j) => {
                assert(s@[j] != b);
            },
            None => {},
        }
    }
    None
}

} // verus!
