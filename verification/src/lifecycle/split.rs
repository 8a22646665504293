//! Cutting text into paragraphs at blank lines, and long paragraphs into
//! pieces of bounded byte length.
use vstd::prelude::*;
use vstd::utf8::{
    valid_utf8, is_char_boundary, encode_utf8, decode_utf8, is_continuation_byte,
    encode_utf8_valid_utf8, encode_utf8_decode_utf8, valid_utf8_split,
    is_char_boundary_iff_not_is_continuation_byte, is_char_boundary_start_end_of_seq, decode_utf8_split,
    is_ascii_chars, is_ascii_chars_encode_utf8,
};
use crate::text::{spec_trim, spec_trim_start, spec_trim_end, is_unicode_whitespace, str_trim, spec_views};
use crate::utf8_bounds::{lemma_after_ascii, lemma_boundary_at, lemma_next_boundary};

verus! {

/// ASCII whitespace: space, tab, line feed, form feed and carriage return.
pub open spec fn is_ascii_space(b: u8) -> bool {
    b == 0x20 || b == 0x09 || b == 0x0a || b == 0x0c || b == 0x0d
}

/// Whether a blank line, two newlines in a row, begins at `i`.
pub open spec fn is_break_at(b: Seq<u8>, i: int) -> bool {
    0 <= i && i + 1 < b.len() && b[i] == 0x0a && b[i + 1] == 0x0a
}

/// The first position at or after `i` where a blank line begins, or the end.
pub open spec fn next_break(b: Seq<u8>, i: int) -> int
    decreases b.len() - i,
{
    if i >= b.len() {
        b.len() as int
    } else if is_break_at(b, i) {
        i
    } else {
        next_break(b, i + 1)
    }
}

/// The end of the run of newlines that begins at `i`.
pub open spec fn newline_run_end(b: Seq<u8>, i: int) -> int
    decreases b.len() - i,
{
    if 0 <= i < b.len() && b[i] == 0x0a {
        newline_run_end(b, i + 1)
    } else {
        i
    }
}

/// A piece as a list of paragraphs: itself where it is not empty, else none.
pub open spec fn nonempty_piece(p: Seq<char>) -> Seq<Seq<char>> {
    if p.len() > 0 {
        seq![p]
    } else {
        seq![]
    }
}

pub proof fn lemma_next_break(b: Seq<u8>, i: int)
    requires
        0 <= i,
    ensures
        i <= b.len() ==> i <= next_break(b, i) <= b.len(),
        next_break(b, i) < b.len() ==> is_break_at(b, next_break(b, i)),
    decreases b.len() - i,
{
    if i < b.len() && !is_break_at(b, i) {
        lemma_next_break(b, i + 1);
    }
}

pub proof fn lemma_newline_run_end(b: Seq<u8>, i: int)
    requires
        0 <= i <= b.len(),
    ensures
        i <= newline_run_end(b, i) <= b.len(),
        forall|m: int| i <= m < newline_run_end(b, i) ==> b[m] == 0x0a,
        newline_run_end(b, i) < b.len() ==> b[newline_run_end(b, i)] != 0x0a,
    decreases b.len() - i,
{
    if i < b.len() && b[i] == 0x0a {
        lemma_newline_run_end(b, i + 1);
    }
}

/// The paragraphs of `b` from `start` on: the text is cut at each run of
/// two or more newlines, each piece is trimmed, and empty pieces are dropped.
pub open spec fn paragraphs_from(b: Seq<u8>, start: int) -> Seq<Seq<char>>
    decreases b.len() - start,
{
    let k = next_break(b, start);
    let here = nonempty_piece(spec_trim(decode_utf8(b.subrange(start, k))));
    if start < 0 || start >= b.len() || k >= b.len() {
        here
    } else {
        proof {
            lemma_next_break(b, start);
            lemma_newline_run_end(b, k);
        }
        here + paragraphs_from(b, newline_run_end(b, k))
    }
}

/// The paragraphs of a text.
pub open spec fn spec_paragraphs(text: Seq<char>) -> Seq<Seq<char>> {
    paragraphs_from(encode_utf8(text), 0)
}

/// In valid UTF-8, a character boundary stays one in a prefix that ends at
/// a boundary, and the prefix is valid UTF-8.
proof fn lemma_boundary_in_prefix(b: Seq<u8>, s: int, e: int)
    requires
        valid_utf8(b),
        0 <= s <= e <= b.len(),
        is_char_boundary(b, s),
        is_char_boundary(b, e),
    ensures
        valid_utf8(b.subrange(0, e)),
        is_char_boundary(b.subrange(0, e), s),
{
    valid_utf8_split(b, e);
    let p = b.subrange(0, e);
    if s == e {
        is_char_boundary_start_end_of_seq(p);
    } else {
        is_char_boundary_iff_not_is_continuation_byte(b, s);
        assert(p[s] == b[s]);
        is_char_boundary_iff_not_is_continuation_byte(p, s);
    }
}

/// The part of `text` between two character boundaries, given in bytes.
pub fn str_slice<'a>(text: &'a str, start: usize, end: usize) -> (r: &'a str)
    requires
        start <= end <= encode_utf8(text@).len(),
        is_char_boundary(encode_utf8(text@), start as int),
        is_char_boundary(encode_utf8(text@), end as int),
    ensures
        encode_utf8(r@) == encode_utf8(text@).subrange(start as int, end as int),
        r@ == decode_utf8(encode_utf8(text@).subrange(start as int, end as int)),
{
    let ghost b = encode_utf8(text@);
    proof {
        encode_utf8_valid_utf8(text@);
        lemma_boundary_in_prefix(b, start as int, end as int);
    }
    let (head, _) = text.split_at(end);
    assert(encode_utf8(head@) == b.subrange(0, end as int));
    let (_, r) = head.split_at(start);
    proof {
        assert(encode_utf8(r@) =~= b.subrange(start as int, end as int));
        encode_utf8_decode_utf8(r@);
    }
    r
}

/// The paragraphs of `text`, in order.
pub fn split_paragraphs<'a>(text: &'a str) -> (r: Vec<&'a str>)
    ensures
        r@.map_values(|p: &str| p@) == spec_paragraphs(text@),
{
    let bytes = text.as_bytes();
    let ghost b = encode_utf8(text@);
    proof {
        encode_utf8_valid_utf8(text@);
        is_char_boundary_start_end_of_seq(b);
    }
    let mut paragraphs: Vec<&'a str> = Vec::new();
    let mut start: usize = 0;
    let mut i: usize = 0;
    while i < bytes.len()
        invariant
            bytes@ == b,
            b == encode_utf8(text@),
            valid_utf8(b),
            start <= i <= b.len(),
            is_char_boundary(b, start as int),
            next_break(b, start as int) == next_break(b, i as int),
            paragraphs@.map_values(|p: &str| p@) + paragraphs_from(b, start as int) == paragraphs_from(b, 0),
        decreases b.len() - i,
    {
        if bytes[i] == 0x0a {
            let mut j: usize = i;
            while j < bytes.len() && bytes[j] == 0x0a
                invariant
                    bytes@ == b,
                    i <= j <= b.len(),
                    newline_run_end(b, i as int) == newline_run_end(b, j as int),
                    forall|m: int| i <= m < j ==> b[m] == 0x0a,
                decreases b.len() - j,
            {
                j = j + 1;
            }
            assert(newline_run_end(b, j as int) == j);
            if j - i >= 2 {
                assert(b[i + 1] == 0x0a);
                assert(is_break_at(b, i as int));
                proof {
                    lemma_boundary_at(b, i as int);
                    lemma_next_break(b, start as int);
                }
                let piece = str_trim(str_slice(text, start, i));
                let ghost before = paragraphs@.map_values(|p: &str| p@);
                if !piece.is_empty() {
                    paragraphs.push(piece);
                }
                assert(paragraphs@.map_values(|p: &str| p@) =~= before + nonempty_piece(
                    spec_trim(decode_utf8(b.subrange(start as int, i as int))),
                ));
                assert(paragraphs_from(b, start as int) == nonempty_piece(
                    spec_trim(decode_utf8(b.subrange(start as int, i as int))),
                ) + paragraphs_from(b, j as int));
                proof {
                    assert(b[j - 1] == 0x0a);
                    if j < b.len() {
                        lemma_after_ascii(b, j as int);
                    }
                    lemma_boundary_at(b, j as int);
                }
                i = j;
                start = j;
            } else {
                assert(!is_break_at(b, i as int));
                i = j;
            }
        } else {
            i = i + 1;
        }
    }
    proof {
        lemma_next_break(b, start as int);
        is_char_boundary_start_end_of_seq(b);
    }
    let tail = str_trim(str_slice(text, start, bytes.len()));
    let ghost before = paragraphs@.map_values(|p: &str| p@);
    if !tail.is_empty() {
        paragraphs.push(tail);
    }
    assert(paragraphs@.map_values(|p: &str| p@) =~= before + paragraphs_from(b, start as int));
    paragraphs
}

/// The last character boundary at or before `i`: the last position at or
/// before it that does not hold a continuation byte, or 0.
pub open spec fn floor_boundary(b: Seq<u8>, i: int) -> int
    decreases i,
{
    if i >= b.len() {
        b.len() as int
    } else if i <= 0 {
        0
    } else if !is_continuation_byte(b[i]) {
        i
    } else {
        floor_boundary(b, i - 1)
    }
}

/// The last position in `(start, end]` that holds ASCII whitespace, or
/// `start` where none does.
pub open spec fn last_space(b: Seq<u8>, start: int, end: int) -> int
    decreases end - start,
{
    if end <= start {
        start
    } else if is_ascii_space(b[end]) {
        end
    } else {
        last_space(b, start, end - 1)
    }
}

/// The first position at or after `i` that does not hold ASCII whitespace.
pub open spec fn skip_spaces(b: Seq<u8>, i: int) -> int
    decreases b.len() - i,
{
    if 0 <= i < b.len() && is_ascii_space(b[i]) {
        skip_spaces(b, i + 1)
    } else {
        i
    }
}

pub proof fn lemma_skip_spaces(b: Seq<u8>, i: int)
    requires
        0 <= i <= b.len(),
    ensures
        i <= skip_spaces(b, i) <= b.len(),
        forall|m: int| i <= m < skip_spaces(b, i) ==> is_ascii_space(#[trigger] b[m]),
    decreases b.len() - i,
{
    if i < b.len() && is_ascii_space(b[i]) {
        lemma_skip_spaces(b, i + 1);
    }
}

/// Where the piece that starts at `start` ends, for pieces of at most `max`
/// bytes: at the last ASCII whitespace within reach, else at the last
/// character boundary within reach.
pub open spec fn piece_end(b: Seq<u8>, start: int, max: int) -> int {
    let hard = floor_boundary(b, start + max);
    let cut = last_space(b, start, hard);
    if cut == start {
        hard
    } else {
        cut
    }
}

/// The pieces of at most `max` bytes that `b` is cut into from `start` on.
/// A piece that reaches the end is the rest; any other ends at `piece_end`,
/// and the whitespace after it is skipped. `None` where a cut would not
/// move past its start, so that the cutting would never end.
pub open spec fn pieces_from(b: Seq<u8>, start: int, max: int) -> Option<Seq<Seq<u8>>>
    decreases b.len() - start,
{
    if start < 0 || start >= b.len() {
        Some(seq![])
    } else if b.len() - start <= max {
        Some(seq![b.subrange(start, b.len() as int)])
    } else {
        let end = piece_end(b, start, max);
        if end <= start || end > b.len() {
            None
        } else {
            proof {
                lemma_skip_spaces(b, end);
            }
            match pieces_from(b, skip_spaces(b, end), max) {
                Some(rest) => Some(seq![b.subrange(start, end)] + rest),
                None => None,
            }
        }
    }
}

/// The characters that each byte piece encodes.
pub open spec fn decode_all(pieces: Seq<Seq<u8>>) -> Seq<Seq<char>> {
    pieces.map_values(|p: Seq<u8>| decode_utf8(p))
}

pub proof fn lemma_floor_boundary(b: Seq<u8>, i: int)
    requires
        valid_utf8(b),
        0 <= i < b.len(),
    ensures
        0 <= floor_boundary(b, i) <= i,
        is_char_boundary(b, floor_boundary(b, i)),
        forall|s: int| 0 <= s <= i && is_char_boundary(b, s) ==> s <= floor_boundary(b, i),
    decreases i,
{
    is_char_boundary_start_end_of_seq(b);
    is_char_boundary_iff_not_is_continuation_byte(b, i);
    if i > 0 && is_continuation_byte(b[i]) {
        lemma_floor_boundary(b, i - 1);
    }
}

pub proof fn lemma_last_space(b: Seq<u8>, start: int, end: int)
    requires
        0 <= start,
        end < b.len(),
    ensures
        start <= last_space(b, start, end),
        last_space(b, start, end) == start || (last_space(b, start, end) <= end && is_ascii_space(
            b[last_space(b, start, end)],
        )),
    decreases end - start,
{
    if end > start && !is_ascii_space(b[end]) {
        lemma_last_space(b, start, end - 1);
    }
}

/// Whether a byte is ASCII whitespace.
fn is_space_byte(b: u8) -> (r: bool)
    ensures
        r == is_ascii_space(b),
{
    b == 0x20 || b == 0x09 || b == 0x0a || b == 0x0c || b == 0x0d
}

/// The last character boundary at or before `index`.
fn floor_char_boundary(bytes: &[u8], index: usize) -> (r: usize)
    requires
        index < bytes@.len(),
    ensures
        r == floor_boundary(bytes@, index as int),
{
    let mut i: usize = index;
    while i > 0 && bytes[i] >= 0x80 && bytes[i] <= 0xbf
        invariant
            i <= index < bytes@.len(),
            floor_boundary(bytes@, index as int) == floor_boundary(bytes@, i as int),
        decreases i,
    {
        i = i - 1;
    }
    i
}

/// `text` cut into pieces of at most `max_chunk_len` bytes, at whitespace
/// where the reach of a piece holds some.
pub fn split_fixed(text: &str, max_chunk_len: usize) -> (r: Vec<String>)
    requires
        pieces_from(encode_utf8(text@), 0, max_chunk_len as int) is Some,
    ensures
        spec_views(r@) == decode_all(pieces_from(encode_utf8(text@), 0, max_chunk_len as int).unwrap()),
{
    let bytes = text.as_bytes();
    let ghost b = encode_utf8(text@);
    let ghost max = max_chunk_len as int;
    let ghost all = decode_all(pieces_from(b, 0, max).unwrap());
    proof {
        encode_utf8_valid_utf8(text@);
        is_char_boundary_start_end_of_seq(b);
    }
    let mut chunks: Vec<String> = Vec::new();
    let mut start: usize = 0;
    while start < bytes.len()
        invariant
            bytes@ == b,
            b == encode_utf8(text@),
            valid_utf8(b),
            max == max_chunk_len as int,
            start <= b.len(),
            is_char_boundary(b, start as int),
            pieces_from(b, start as int, max) is Some,
            spec_views(chunks@) + decode_all(pieces_from(b, start as int, max).unwrap()) == all,
        decreases b.len() - start,
    {
        let ghost before = spec_views(chunks@);
        let remaining = bytes.len() - start;
        if remaining <= max_chunk_len {
            proof {
                is_char_boundary_start_end_of_seq(b);
            }
            let piece = str_slice(text, start, bytes.len()).to_owned();
            chunks.push(piece);
            assert(spec_views(chunks@) =~= before + decode_all(pieces_from(b, start as int, max).unwrap()));
            start = bytes.len();
            assert(pieces_from(b, start as int, max) == Some(Seq::<Seq<u8>>::empty()));
            assert(spec_views(chunks@) + decode_all(pieces_from(b, start as int, max).unwrap()) =~= spec_views(chunks@));
        } else {
            let hard_end = floor_char_boundary(bytes, start + max_chunk_len);
            proof {
                lemma_floor_boundary(b, start + max_chunk_len);
            }
            let mut cut: usize = hard_end;
            while cut > start && !is_space_byte(bytes[cut])
                invariant
                    bytes@ == b,
                    start <= cut <= hard_end < b.len(),
                    last_space(b, start as int, hard_end as int) == last_space(b, start as int, cut as int),
                decreases cut,
            {
                cut = cut - 1;
            }
            let end = if cut == start { hard_end } else { cut };
            assert(end == piece_end(b, start as int, max));
            proof {
                if cut != start {
                    assert(is_ascii_space(b[end as int]));
                    lemma_boundary_at(b, end as int);
                }
            }
            let piece = str_slice(text, start, end).to_owned();
            chunks.push(piece);
            let ghost rest = pieces_from(b, skip_spaces(b, end as int), max);
            assert(pieces_from(b, start as int, max) == Some(seq![b.subrange(start as int, end as int)] + rest.unwrap()));
            assert(decode_all(seq![b.subrange(start as int, end as int)] + rest.unwrap()) =~= seq![decode_utf8(b.subrange(start as int, end as int))] + decode_all(rest.unwrap()));
            assert(spec_views(chunks@) =~= before.push(decode_utf8(b.subrange(start as int, end as int))));
            start = end;
            while start < bytes.len() && is_space_byte(bytes[start])
                invariant
                    bytes@ == b,
                    valid_utf8(b),
                    end <= start <= b.len(),
                    is_char_boundary(b, start as int),
                    skip_spaces(b, end as int) == skip_spaces(b, start as int),
                decreases b.len() - start,
            {
                start = start + 1;
                proof {
                    if start < b.len() {
                        lemma_after_ascii(b, start as int);
                    }
                    lemma_boundary_at(b, start as int);
                }
            }
            assert(skip_spaces(b, start as int) == start);
        }
    }
    assert(pieces_from(b, start as int, max) == Some(Seq::<Seq<u8>>::empty()));
    assert(spec_views(chunks@) =~= all);
    chunks
}

/// With pieces of four bytes or more, each cut moves forward, so cutting
/// from any character boundary ends.
pub proof fn lemma_pieces_total(b: Seq<u8>, start: int, max: int)
    requires
        valid_utf8(b),
        0 <= start <= b.len(),
        is_char_boundary(b, start),
        max >= 4,
    ensures
        pieces_from(b, start, max) is Some,
    decreases b.len() - start,
{
    if start < b.len() && b.len() - start > max {
        let k = lemma_next_boundary(b, start);
        lemma_floor_boundary(b, start + max);
        lemma_last_space(b, start, floor_boundary(b, start + max));
        lemma_piece_end(b, start, max);
        lemma_pieces_total(b, skip_spaces(b, piece_end(b, start, max)), max);
    }
}

/// Where a piece that does not reach the end stops: within `max` bytes of
/// its start, at a character boundary, and the next piece, after the
/// whitespace, starts at a boundary too.
proof fn lemma_piece_end(b: Seq<u8>, start: int, max: int)
    requires
        valid_utf8(b),
        0 <= start,
        0 <= max,
        start + max < b.len(),
        is_char_boundary(b, start),
    ensures
        start <= piece_end(b, start, max) <= start + max,
        is_char_boundary(b, piece_end(b, start, max)),
        piece_end(b, start, max) <= skip_spaces(b, piece_end(b, start, max)) <= b.len(),
        is_char_boundary(b, skip_spaces(b, piece_end(b, start, max))),
{
    lemma_floor_boundary(b, start + max);
    let hard = floor_boundary(b, start + max);
    assert(start <= hard);
    lemma_last_space(b, start, hard);
    let end = piece_end(b, start, max);
    if end != hard {
        lemma_boundary_at(b, end);
    }
    lemma_skip_spaces(b, end);
    let next = skip_spaces(b, end);
    if next > end {
        assert(is_ascii_space(b[next - 1]));
        if next < b.len() {
            lemma_after_ascii(b, next);
        }
        lemma_boundary_at(b, next);
    }
}

/// Every piece is non-empty, at most `max` bytes long, and valid UTF-8.
pub proof fn lemma_pieces_bounded(b: Seq<u8>, start: int, max: int)
    requires
        valid_utf8(b),
        0 <= start <= b.len(),
        0 <= max,
        is_char_boundary(b, start),
        pieces_from(b, start, max) is Some,
    ensures
        forall|i: int|
            0 <= i < pieces_from(b, start, max).unwrap().len() ==> {
                let p = #[trigger] pieces_from(b, start, max).unwrap()[i];
                0 < p.len() <= max && valid_utf8(p)
            },
    decreases b.len() - start,
{
    if start < b.len() {
        let all = pieces_from(b, start, max).unwrap();
        if b.len() - start <= max {
            valid_utf8_split(b, start);
        } else {
            lemma_piece_end(b, start, max);
            let end = piece_end(b, start, max);
            let next = skip_spaces(b, end);
            lemma_boundary_in_prefix(b, start, end);
            valid_utf8_split(b.subrange(0, end), start);
            assert(b.subrange(0, end).subrange(start, end) =~= b.subrange(start, end));
            lemma_pieces_bounded(b, next, max);
            let rest = pieces_from(b, next, max).unwrap();
            assert(all == seq![b.subrange(start, end)] + rest);
            assert forall|i: int| 0 <= i < all.len() implies {
                let p = #[trigger] all[i];
                0 < p.len() <= max && valid_utf8(p)
            } by {
                if i > 0 {
                    assert(all[i] == rest[i - 1]);
                }
            }
        }
    }
}

/// Every paragraph holds some character.
pub proof fn lemma_paragraphs_nonempty(b: Seq<u8>, start: int)
    ensures
        forall|i: int| 0 <= i < paragraphs_from(b, start).len() ==> #[trigger] paragraphs_from(b, start)[i].len() > 0,
    decreases b.len() - start,
{
    let k = next_break(b, start);
    let here = nonempty_piece(spec_trim(decode_utf8(b.subrange(start, k))));
    if !(start < 0 || start >= b.len() || k >= b.len()) {
        lemma_next_break(b, start);
        lemma_newline_run_end(b, k);
        let next = newline_run_end(b, k);
        lemma_paragraphs_nonempty(b, next);
        let all = paragraphs_from(b, start);
        assert(all == here + paragraphs_from(b, next));
        assert forall|i: int| 0 <= i < all.len() implies #[trigger] all[i].len() > 0 by {
            if i >= here.len() {
                assert(all[i] == paragraphs_from(b, next)[i - here.len()]);
            }
        }
    }
}

/// The characters of `s` that are not whitespace, in order.
pub open spec fn spec_visible(s: Seq<char>) -> Seq<char> {
    s.filter(|c: char| !is_unicode_whitespace(c))
}

/// The characters of the texts that are not whitespace, text after text.
pub open spec fn spec_visible_all(ts: Seq<Seq<char>>) -> Seq<char>
    decreases ts.len(),
{
    if ts.len() == 0 {
        seq![]
    } else {
        spec_visible_all(ts.drop_last()) + spec_visible(ts.last())
    }
}

/// What is not whitespace in two texts one after the other.
pub proof fn lemma_visible_add(a: Seq<char>, b: Seq<char>)
    ensures
        spec_visible(a + b) == spec_visible(a) + spec_visible(b),
{
    Seq::filter_distributes_over_add(a, b, |c: char| !is_unicode_whitespace(c));
}

/// What is not whitespace in two lists of texts one after the other.
pub proof fn lemma_visible_all_add(a: Seq<Seq<char>>, c: Seq<Seq<char>>)
    ensures
        spec_visible_all(a + c) == spec_visible_all(a) + spec_visible_all(c),
    decreases c.len(),
{
    if c.len() == 0 {
        assert(a + c =~= a);
        assert(spec_visible_all(a) + Seq::<char>::empty() =~= spec_visible_all(a));
    } else {
        lemma_visible_all_add(a, c.drop_last());
        assert((a + c).drop_last() =~= a + c.drop_last());
        assert((a + c).last() == c.last());
        assert(spec_visible_all(a) + spec_visible_all(c.drop_last()) + spec_visible(c.last()) =~= spec_visible_all(a)
            + (spec_visible_all(c.drop_last()) + spec_visible(c.last())));
    }
}

/// A list of one text has what the text has.
pub proof fn lemma_visible_all_one(t: Seq<char>)
    ensures
        spec_visible_all(seq![t]) == spec_visible(t),
{
    assert(seq![t].drop_last() =~= Seq::<Seq<char>>::empty());
    assert(seq![t].last() == t);
    assert(spec_visible_all(Seq::<Seq<char>>::empty()) == Seq::<char>::empty());
    assert(Seq::<char>::empty() + spec_visible(t) =~= spec_visible(t));
}

/// A whitespace character is not visible.
proof fn lemma_visible_space(c: char)
    requires
        is_unicode_whitespace(c),
    ensures
        spec_visible(seq![c]) == Seq::<char>::empty(),
{
    reveal(Seq::filter);
    assert(seq![c].drop_last() =~= Seq::<char>::empty());
    assert(Seq::<char>::empty().filter(|x: char| !is_unicode_whitespace(x)) =~= Seq::<char>::empty());
}

/// Trimming removes only whitespace.
pub proof fn lemma_visible_trim(s: Seq<char>)
    ensures
        spec_visible(spec_trim(s)) == spec_visible(s),
{
    lemma_visible_trim_start(s);
    lemma_visible_trim_end(spec_trim_start(s));
}

proof fn lemma_visible_trim_start(s: Seq<char>)
    ensures
        spec_visible(spec_trim_start(s)) == spec_visible(s),
    decreases s.len(),
{
    if s.len() > 0 && is_unicode_whitespace(s[0]) {
        lemma_visible_trim_start(s.drop_first());
        assert(s =~= seq![s[0]] + s.drop_first());
        lemma_visible_add(seq![s[0]], s.drop_first());
        lemma_visible_space(s[0]);
        assert(Seq::<char>::empty() + spec_visible(s.drop_first()) =~= spec_visible(s.drop_first()));
    }
}

proof fn lemma_visible_trim_end(s: Seq<char>)
    ensures
        spec_visible(spec_trim_end(s)) == spec_visible(s),
    decreases s.len(),
{
    if s.len() > 0 && is_unicode_whitespace(s.last()) {
        lemma_visible_trim_end(s.drop_last());
        assert(s =~= s.drop_last() + seq![s.last()]);
        lemma_visible_add(s.drop_last(), seq![s.last()]);
        lemma_visible_space(s.last());
        assert(spec_visible(s.drop_last()) + Seq::<char>::empty() =~= spec_visible(s.drop_last()));
    }
}

/// Bytes of ASCII whitespace decode to nothing visible.
proof fn lemma_visible_spaces(r: Seq<u8>)
    requires
        forall|i: int| 0 <= i < r.len() ==> is_ascii_space(#[trigger] r[i]),
    ensures
        spec_visible(decode_utf8(r)) == Seq::<char>::empty(),
{
    let cs = Seq::new(r.len(), |i: int| r[i] as char);
    assert(is_ascii_chars(cs)) by {
        assert forall|i: int| 0 <= i < cs.len() implies '\0' <= #[trigger] cs[i] <= '\u{7f}' by {
            assert(is_ascii_space(r[i]));
        }
    }
    is_ascii_chars_encode_utf8(cs);
    assert(encode_utf8(cs) =~= r) by {
        assert forall|i: int| 0 <= i < r.len() implies encode_utf8(cs)[i] == r[i] by {
            assert(is_ascii_space(r[i]));
            assert(cs[i] as u8 == r[i]);
        }
    }
    encode_utf8_decode_utf8(cs);
    assert forall|i: int| 0 <= i < cs.len() implies is_unicode_whitespace(#[trigger] cs[i]) by {
        assert(is_ascii_space(r[i]));
        assert((cs[i] as u32) == r[i] as u32);
    }
    lemma_visible_none(cs);
}

/// Whitespace characters are not visible.
proof fn lemma_visible_none(cs: Seq<char>)
    requires
        forall|i: int| 0 <= i < cs.len() ==> is_unicode_whitespace(#[trigger] cs[i]),
    ensures
        spec_visible(cs) == Seq::<char>::empty(),
    decreases cs.len(),
{
    if cs.len() > 0 {
        lemma_visible_none(cs.drop_last());
        assert(cs =~= cs.drop_last() + seq![cs.last()]);
        lemma_visible_add(cs.drop_last(), seq![cs.last()]);
        lemma_visible_space(cs.last());
    } else {
        reveal(Seq::filter);
    }
}

/// Decoding the bytes from a character boundary on, cut at a position that
/// holds no continuation byte, is decoding the two parts.
proof fn lemma_decode_cut(b: Seq<u8>, s: int, m: int)
    requires
        valid_utf8(b),
        0 <= s <= m <= b.len(),
        is_char_boundary(b, s),
        m == b.len() || !is_continuation_byte(b[m]),
    ensures
        decode_utf8(b.subrange(s, b.len() as int)) == decode_utf8(b.subrange(s, m)) + decode_utf8(
            b.subrange(m, b.len() as int),
        ),
{
    let x = b.subrange(s, b.len() as int);
    valid_utf8_split(b, s);
    if m < b.len() {
        assert(x[m - s] == b[m]);
    }
    lemma_boundary_at(x, m - s);
    decode_utf8_split(x, m - s);
    assert(x.subrange(0, m - s) =~= b.subrange(s, m));
    assert(x.subrange(m - s, x.len() as int) =~= b.subrange(m, b.len() as int));
}

/// The paragraphs from a character boundary on hold what is visible in the
/// text from there.
pub proof fn lemma_visible_paragraphs(b: Seq<u8>, start: int)
    requires
        valid_utf8(b),
        0 <= start <= b.len(),
        is_char_boundary(b, start),
    ensures
        spec_visible_all(paragraphs_from(b, start)) == spec_visible(decode_utf8(b.subrange(start, b.len() as int))),
    decreases b.len() - start,
{
    let n = b.len() as int;
    lemma_next_break(b, start);
    let k = next_break(b, start);
    let here = nonempty_piece(spec_trim(decode_utf8(b.subrange(start, k))));
    lemma_visible_trim(decode_utf8(b.subrange(start, k)));
    assert(spec_visible_all(here) == spec_visible(decode_utf8(b.subrange(start, k)))) by {
        let t = spec_trim(decode_utf8(b.subrange(start, k)));
        if t.len() > 0 {
            lemma_visible_all_one(t);
        } else {
            assert(t =~= Seq::<char>::empty());
            reveal(Seq::filter);
            assert(Seq::<char>::empty().filter(|c: char| !is_unicode_whitespace(c)) =~= Seq::<char>::empty());
        }
    }
    if start >= n || k >= n {
        assert(k == n);
    } else {
        lemma_newline_run_end(b, k);
        let e = newline_run_end(b, k);
        assert(is_break_at(b, k));
        assert(e >= k + 2) by {
            assert(b[k] == 0x0a);
            assert(b[k + 1] == 0x0a);
        }
        lemma_boundary_at(b, k);
        if e < n {
            lemma_after_ascii(b, e);
        }
        lemma_boundary_at(b, e);
        lemma_decode_cut(b, start, k);
        lemma_decode_cut(b, k, e);
        lemma_visible_spaces(b.subrange(k, e));
        lemma_visible_paragraphs(b, e);
        lemma_visible_all_add(here, paragraphs_from(b, e));
        lemma_visible_add(decode_utf8(b.subrange(start, k)), decode_utf8(b.subrange(k, n)));
        lemma_visible_add(decode_utf8(b.subrange(k, e)), decode_utf8(b.subrange(e, n)));
        assert(Seq::<char>::empty() + spec_visible(decode_utf8(b.subrange(e, n))) =~= spec_visible(
            decode_utf8(b.subrange(e, n)),
        ));
    }
}

/// The pieces from a character boundary on hold what is visible in the
/// text from there.
pub proof fn lemma_visible_pieces(b: Seq<u8>, start: int, max: int)
    requires
        valid_utf8(b),
        0 <= start <= b.len(),
        is_char_boundary(b, start),
        pieces_from(b, start, max) is Some,
    ensures
        spec_visible_all(decode_all(pieces_from(b, start, max).unwrap())) == spec_visible(
            decode_utf8(b.subrange(start, b.len() as int)),
        ),
    decreases b.len() - start,
{
    let n = b.len() as int;
    let all = pieces_from(b, start, max).unwrap();
    if start >= n {
        assert(decode_all(all) =~= Seq::<Seq<char>>::empty());
        assert(b.subrange(start, n) =~= Seq::<u8>::empty());
        reveal(Seq::filter);
        assert(Seq::<char>::empty().filter(|c: char| !is_unicode_whitespace(c)) =~= Seq::<char>::empty());
    } else if n - start <= max {
        assert(decode_all(all) =~= seq![decode_utf8(b.subrange(start, n))]);
        lemma_visible_all_one(decode_utf8(b.subrange(start, n)));
    } else {
        if max < 0 {
            if start + max >= 0 {
                lemma_floor_boundary(b, start + max);
            }
            assert(piece_end(b, start, max) <= start);
        }
        lemma_piece_end(b, start, max);
        let end = piece_end(b, start, max);
        let next = skip_spaces(b, end);
        lemma_skip_spaces(b, end);
        let rest = pieces_from(b, next, max).unwrap();
        assert(all == seq![b.subrange(start, end)] + rest);
        assert(decode_all(all) =~= seq![decode_utf8(b.subrange(start, end))] + decode_all(rest));
        is_char_boundary_iff_not_is_continuation_byte(b, end);
        if next < n {
            is_char_boundary_iff_not_is_continuation_byte(b, next);
        }
        lemma_decode_cut(b, start, end);
        lemma_decode_cut(b, end, next);
        assert forall|i: int| 0 <= i < b.subrange(end, next).len() implies is_ascii_space(#[trigger] b.subrange(end, next)[i]) by {
            assert(b.subrange(end, next)[i] == b[end + i]);
        }
        lemma_visible_spaces(b.subrange(end, next));
        lemma_visible_pieces(b, next, max);
        lemma_visible_all_add(seq![decode_utf8(b.subrange(start, end))], decode_all(rest));
        lemma_visible_all_one(decode_utf8(b.subrange(start, end)));
        lemma_visible_add(decode_utf8(b.subrange(start, end)), decode_utf8(b.subrange(end, n)));
        lemma_visible_add(decode_utf8(b.subrange(end, next)), decode_utf8(b.subrange(next, n)));
        assert(Seq::<char>::empty() + spec_visible(decode_utf8(b.subrange(next, n))) =~= spec_visible(
            decode_utf8(b.subrange(next, n)),
        ));
    }
}

} // verus!
