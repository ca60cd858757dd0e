//! Byte offsets and character indices. A line is searched by an engine
//! that reports byte offsets into its UTF-8 encoding, while the library
//! speaks of characters; this module relates the two.

use vstd::prelude::*;
use vstd::string::StringSliceAdditionalSpecFns;
use vstd::utf8::{
    encode_scalar, encode_utf8, encode_utf8_decode_utf8, encode_utf8_first_scalar,
    encode_utf8_valid_utf8, is_char_boundary, length_of_first_scalar, pop_first_scalar,
};

verus! {

/// The number of bytes that the first `at` characters of `line` take up in
/// UTF-8: the byte offset of character index `at`.
pub open spec fn byte_offset(line: Seq<char>, at: int) -> int {
    encode_utf8(line.subrange(0, at)).len() as int
}

/// Whether `found` gives, as pairs of byte offsets into `line`, the
/// stretches of `width` characters that begin at the character indices
/// `starts`.
pub open spec fn located(
    found: Seq<(usize, usize)>,
    line: Seq<char>,
    starts: Seq<int>,
    width: int,
) -> bool {
    &&& found.len() == starts.len()
    &&& forall|j: int|
        0 <= j < found.len() ==> {
            &&& (#[trigger] found[j]).0 == byte_offset(line, starts[j])
            &&& found[j].1 == byte_offset(line, starts[j] + width)
        }
}

/// Encoding a concatenation is concatenating the encodings.
pub proof fn lemma_encode_concat(a: Seq<char>, b: Seq<char>)
    ensures
        encode_utf8(a + b) == encode_utf8(a) + encode_utf8(b),
    decreases a.len(),
{
    if a.len() == 0 {
        assert(a + b =~= b);
        assert(encode_utf8(a) + encode_utf8(b) =~= encode_utf8(b));
    } else {
        assert((a + b).drop_first() =~= a.drop_first() + b);
        lemma_encode_concat(a.drop_first(), b);
        assert(encode_utf8(a + b) =~= encode_utf8(a) + encode_utf8(b));
    }
}

/// Two character sequences with the same UTF-8 encoding are the same.
pub proof fn lemma_encoding_is_injective(a: Seq<char>, b: Seq<char>)
    requires
        encode_utf8(a) == encode_utf8(b),
    ensures
        a == b,
{
    encode_utf8_decode_utf8(a);
    encode_utf8_decode_utf8(b);
}

/// Where the encoding of one text ends and that of the next begins is a
/// character boundary of the whole.
pub proof fn lemma_seam_is_boundary(a: Seq<char>, b: Seq<char>)
    ensures
        is_char_boundary(encode_utf8(a + b), encode_utf8(a).len() as int),
    decreases a.len(),
{
    let whole = encode_utf8(a + b);
    encode_utf8_valid_utf8(a + b);
    if a.len() != 0 {
        let rest = a.drop_first();
        assert((a + b).drop_first() =~= rest + b);
        encode_utf8_first_scalar(a + b);
        assert(encode_scalar(a[0] as u32).len() >= 1);
        assert(pop_first_scalar(whole) =~= encode_utf8(rest + b));
        assert(encode_utf8(a).len() == encode_scalar(a[0] as u32).len() + encode_utf8(rest).len());
        lemma_encode_concat(a, b);
        lemma_seam_is_boundary(rest, b);
        assert(encode_utf8(a).len() - length_of_first_scalar(whole) == encode_utf8(rest).len());
    }
}

/// The bytes between two character indices are the encoding of the
/// characters between them, and both offsets are character boundaries.
pub proof fn lemma_offsets(line: Seq<char>, i: int, j: int)
    requires
        0 <= i <= j <= line.len(),
    ensures
        0 <= byte_offset(line, i) <= byte_offset(line, j) <= encode_utf8(line).len(),
        is_char_boundary(encode_utf8(line), byte_offset(line, i)),
        is_char_boundary(encode_utf8(line), byte_offset(line, j)),
        encode_utf8(line).subrange(byte_offset(line, i), byte_offset(line, j)) == encode_utf8(
            line.subrange(i, j),
        ),
        byte_offset(line, 0) == 0,
        byte_offset(line, line.len() as int) == encode_utf8(line).len(),
{
    let head = line.subrange(0, i);
    let mid = line.subrange(i, j);
    let tail = line.subrange(j, line.len() as int);
    assert(line.subrange(0, j) =~= head + mid);
    assert(line =~= (head + mid) + tail);
    assert(line =~= head + (mid + tail));
    lemma_encode_concat(head, mid);
    lemma_encode_concat(head + mid, tail);
    lemma_encode_concat(head, mid + tail);
    lemma_seam_is_boundary(head, mid + tail);
    lemma_seam_is_boundary(head + mid, tail);
    assert(encode_utf8(line).subrange(byte_offset(line, i), byte_offset(line, j)) =~= encode_utf8(
        mid,
    ));
    assert(line.subrange(0, 0) =~= Seq::<char>::empty());
    assert(line.subrange(0, line.len() as int) =~= line);
}

/// The part of `line` between two byte offsets that stand for the
/// character indices `i` and `j`.
pub(crate) fn slice_between<'a>(
    line: &'a str,
    from: usize,
    to: usize,
    Ghost(i): Ghost<int>,
    Ghost(j): Ghost<int>,
) -> (piece: &'a str)
    requires
        0 <= i <= j <= line@.len(),
        from == byte_offset(line@, i),
        to == byte_offset(line@, j),
    ensures
        piece@ == line@.subrange(i, j),
{
    proof {
        lemma_offsets(line@, i, j);
        lemma_offsets(line@, 0, j);
    }
    let (upto, _) = line.split_at(to);
    proof {
        assert(upto.spec_bytes() == encode_utf8(line@.subrange(0, j)));
        lemma_encoding_is_injective(upto@, line@.subrange(0, j));
        lemma_offsets(upto@, i, j);
        assert(upto@.subrange(0, i) =~= line@.subrange(0, i));
    }
    let (_, piece) = upto.split_at(from);
    proof {
        assert(upto@.subrange(0, j) =~= upto@);
        assert(piece.spec_bytes() == encode_utf8(upto@.subrange(i, j)));
        lemma_encoding_is_injective(piece@, upto@.subrange(i, j));
        assert(upto@.subrange(i, j) =~= line@.subrange(i, j));
    }
    piece
}

} // verus!
