//! Character boundaries in UTF-8 bytes.
use vstd::prelude::*;
use vstd::utf8::{
    valid_utf8, is_char_boundary, length_of_first_scalar, pop_first_scalar, is_continuation_byte,
    valid_first_scalar, is_char_boundary_iff_not_is_continuation_byte, is_char_boundary_start_end_of_seq,
};

verus! {

/// In valid UTF-8, the byte after an ASCII byte starts a character.
pub proof fn lemma_after_ascii(bytes: Seq<u8>, i: int)
    requires
        valid_utf8(bytes),
        0 < i < bytes.len(),
        bytes[i - 1] <= 0x7f,
    ensures
        !is_continuation_byte(bytes[i]),
    decreases bytes.len(),
{
    let l1 = length_of_first_scalar(bytes);
    let rest = pop_first_scalar(bytes);
    assert(valid_first_scalar(bytes) && valid_utf8(rest));
    if i - 1 < l1 {
        assert(i - 1 == 0);
        assert(l1 == 1);
        assert(rest.len() > 0);
        assert(rest[0] == bytes[i]);
        assert(valid_first_scalar(rest));
    } else {
        assert(rest[i - l1] == bytes[i]);
        assert(rest[i - l1 - 1] == bytes[i - 1]);
        lemma_after_ascii(rest, i - l1);
    }
}

/// A position is a character boundary where it ends the bytes or holds a
/// byte that is not a continuation byte.
pub proof fn lemma_boundary_at(bytes: Seq<u8>, i: int)
    requires
        valid_utf8(bytes),
        0 <= i <= bytes.len(),
        i == bytes.len() || !is_continuation_byte(bytes[i]),
    ensures
        is_char_boundary(bytes, i),
{
    if i == bytes.len() {
        is_char_boundary_start_end_of_seq(bytes);
    } else {
        is_char_boundary_iff_not_is_continuation_byte(bytes, i);
    }
}

/// After a character boundary that is not the end, another one follows
/// within four bytes; the result is its distance.
pub proof fn lemma_next_boundary(bytes: Seq<u8>, s: int) -> (k: int)
    requires
        valid_utf8(bytes),
        0 <= s < bytes.len(),
        is_char_boundary(bytes, s),
    ensures
        1 <= k <= 4,
        s + k <= bytes.len(),
        is_char_boundary(bytes, s + k),
    decreases bytes.len(),
{
    let l1 = length_of_first_scalar(bytes);
    let rest = pop_first_scalar(bytes);
    if s == 0 {
        is_char_boundary_start_end_of_seq(rest);
        assert(is_char_boundary(rest, 0));
        assert(is_char_boundary(bytes, l1));
        l1
    } else {
        assert(is_char_boundary(rest, s - l1));
        if s - l1 == rest.len() {
            assert(s == bytes.len());
        }
        let k = lemma_next_boundary(rest, s - l1);
        assert(is_char_boundary(bytes, s + k));
        k
    }
}

} // verus!
