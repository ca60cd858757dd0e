//! The lines of a file: where they end, what is left of each once its
//! terminator is taken off, and whether that is text.

use vstd::prelude::*;
use vstd::slice::{slice_subrange, slice_to_vec};
use vstd::string::{StringExecFns, StringSliceAdditionalSpecFns};
use vstd::utf8::{decode_utf8, encode_utf8_decode_utf8, valid_utf8};

verus! {

/// What reading one line of a file gave.
#[derive(Clone, Debug, PartialEq, Eq)]
pub enum LineRead {
    /// The line, without its terminator.
    Text(String),
    /// The line could not be decoded as text.
    Undecodable,
}

impl View for LineRead {
    type V = Option<Seq<char>>;

    open spec fn view(&self) -> Option<Seq<char>> {
        match self {
            LineRead::Text(line) => Some(line@),
            LineRead::Undecodable => None,
        }
    }
}

/// What a list of line reads stands for.
pub open spec fn reads_of(lines: Seq<LineRead>) -> Seq<Option<Seq<char>>> {
    Seq::new(lines.len(), |k: int| lines[k]@)
}

/// The byte that ends a line.
pub open spec fn line_feed() -> u8 {
    0x0a
}

/// The byte that may stand before the line feed and then belongs to the
/// terminator.
pub open spec fn carriage_return() -> u8 {
    0x0d
}

/// The number of bytes before the first line feed: all of them when there
/// is none.
pub open spec fn first_feed(bytes: Seq<u8>) -> nat
    decreases bytes.len(),
{
    if bytes.len() == 0 || bytes[0] == line_feed() {
        0
    } else {
        1 + first_feed(bytes.drop_first())
    }
}

/// What a line holds, given the bytes from its start to its line feed,
/// or to the end of the file where no line feed follows. A line feed at
/// the end is the terminator, together with a carriage return just before
/// it; a last line without a line feed is taken whole.
pub open spec fn line_content(raw: Seq<u8>) -> Seq<u8> {
    if raw.len() > 0 && raw.last() == line_feed() {
        let body = raw.drop_last();
        if body.len() > 0 && body.last() == carriage_return() {
            body.drop_last()
        } else {
            body
        }
    } else {
        raw
    }
}

/// The text that the bytes encode in UTF-8, if they encode any.
pub open spec fn decoded(content: Seq<u8>) -> Option<Seq<char>> {
    if valid_utf8(content) {
        Some(decode_utf8(content))
    } else {
        None
    }
}

/// The lines of a file, each as reading it gives it. Every line feed
/// ends a line; what follows the last line feed is one more line unless
/// it is empty.
pub open spec fn lines_of(bytes: Seq<u8>) -> Seq<Option<Seq<char>>>
    decreases bytes.len(),
{
    if bytes.len() == 0 {
        Seq::empty()
    } else {
        let feed = first_feed(bytes) as int;
        if feed < bytes.len() {
            seq![decoded(line_content(bytes.take(feed + 1)))] + lines_of(bytes.skip(feed + 1))
        } else {
            seq![decoded(line_content(bytes))]
        }
    }
}

/// Calls `std::str::from_utf8`, which accepts exactly the byte strings
/// that are well-formed UTF-8 and hands the same bytes back as text.
#[verifier::external_body]
fn utf8_text(bytes: &[u8]) -> (text: Option<&str>)
    ensures
        text is Some <==> valid_utf8(bytes@),
        text matches Some(text) ==> text.spec_bytes() == bytes@,
{
    std::str::from_utf8(bytes).ok()
}

/// Where no byte before `feed` is a line feed, and the byte at `feed` is
/// one unless the bytes end there, the first line feed is at `feed`.
pub proof fn lemma_first_feed(bytes: Seq<u8>, feed: int)
    requires
        0 <= feed <= bytes.len(),
        forall|k: int| 0 <= k < feed ==> bytes[k] != line_feed(),
        feed < bytes.len() ==> bytes[feed] == line_feed(),
    ensures
        first_feed(bytes) == feed,
    decreases feed,
{
    if feed > 0 {
        lemma_first_feed(bytes.drop_first(), feed - 1);
    }
}

/// Reads one line, given its bytes from its start to its line feed, or to
/// the end of the file where no line feed follows.
pub fn decode_line(raw: &[u8]) -> (read: LineRead)
    ensures
        read@ == decoded(line_content(raw@)),
{
    let mut end = raw.len();
    if end > 0 && raw[end - 1] == 0x0a {
        end = end - 1;
        if end > 0 && raw[end - 1] == 0x0d {
            end = end - 1;
        }
    }
    let content = slice_subrange(raw, 0, end);
    assert(content@ =~= line_content(raw@));
    match utf8_text(content) {
        Some(text) => {
            proof {
                encode_utf8_decode_utf8(text@);
            }
            LineRead::Text(String::from_str(text))
        },
        None => LineRead::Undecodable,
    }
}

/// The lines of a file as they stand in it: each from its start to its
/// line feed, the last to the end of the file where no line feed follows.
pub open spec fn raw_lines(bytes: Seq<u8>) -> Seq<Seq<u8>>
    decreases bytes.len(),
{
    if bytes.len() == 0 {
        Seq::empty()
    } else {
        let feed = first_feed(bytes) as int;
        if feed < bytes.len() {
            seq![bytes.take(feed + 1)] + raw_lines(bytes.skip(feed + 1))
        } else {
            seq![bytes]
        }
    }
}

/// What reading each of a list of lines gives, given each as it stands in
/// its file.
pub open spec fn reads_from(raws: Seq<Seq<u8>>) -> Seq<Option<Seq<char>>> {
    Seq::new(raws.len(), |k: int| decoded(line_content(raws[k])))
}

/// What a list of byte strings stands for.
pub open spec fn raws_of(raws: Seq<Vec<u8>>) -> Seq<Seq<u8>> {
    Seq::new(raws.len(), |k: int| raws[k]@)
}

/// The lines of a file are what reading each of its lines gives, as they
/// stand in it.
pub proof fn lemma_lines_are_read_one_by_one(bytes: Seq<u8>)
    ensures
        lines_of(bytes) == reads_from(raw_lines(bytes)),
    decreases bytes.len(),
{
    if bytes.len() > 0 {
        let feed = first_feed(bytes) as int;
        if feed < bytes.len() {
            let rest = bytes.skip(feed + 1);
            lemma_lines_are_read_one_by_one(rest);
            assert(reads_from(seq![bytes.take(feed + 1)] + raw_lines(rest)) =~= seq![
                decoded(line_content(bytes.take(feed + 1))),
            ] + reads_from(raw_lines(rest)));
        } else {
            assert(reads_from(seq![bytes]) =~= seq![decoded(line_content(bytes))]);
        }
    } else {
        assert(reads_from(raw_lines(bytes)) =~= Seq::<Option<Seq<char>>>::empty());
    }
}

/// Splits the bytes of a file into its lines as they stand in it.
pub fn split_raw(bytes: &[u8]) -> (raws: Vec<Vec<u8>>)
    ensures
        raws_of(raws@) == raw_lines(bytes@),
{
    let mut raws: Vec<Vec<u8>> = Vec::new();
    let mut start: usize = 0;
    let mut at: usize = 0;
    assert(bytes@.subrange(0, bytes@.len() as int) =~= bytes@);
    while at < bytes.len()
        invariant
            start <= at <= bytes.len(),
            forall|k: int| start <= k < at ==> bytes@[k] != line_feed(),
            raws_of(raws@) + raw_lines(bytes@.subrange(start as int, bytes@.len() as int))
                == raw_lines(bytes@),
        decreases bytes.len() - at,
    {
        if bytes[at] == 0x0a {
            let ghost rest = bytes@.subrange(start as int, bytes@.len() as int);
            let ghost before = raws_of(raws@);
            let raw = slice_to_vec(slice_subrange(bytes, start, at + 1));
            proof {
                lemma_first_feed(rest, at - start);
                assert(rest.take(at - start + 1) =~= raw@);
                assert(rest.skip(at - start + 1) =~= bytes@.subrange(
                    at + 1,
                    bytes@.len() as int,
                ));
            }
            raws.push(raw);
            proof {
                assert(raws_of(raws@) =~= before + seq![raw@]);
                assert((before + seq![raw@]) + raw_lines(
                    bytes@.subrange(at + 1, bytes@.len() as int),
                ) =~= before + (seq![raw@] + raw_lines(
                    bytes@.subrange(at + 1, bytes@.len() as int),
                )));
            }
            start = at + 1;
        }
        at += 1;
    }
    if start < bytes.len() {
        let ghost rest = bytes@.subrange(start as int, bytes@.len() as int);
        let ghost before = raws_of(raws@);
        let raw = slice_to_vec(slice_subrange(bytes, start, bytes.len()));
        proof {
            lemma_first_feed(rest, rest.len() as int);
            assert(raw@ =~= rest);
        }
        raws.push(raw);
        proof {
            assert(raws_of(raws@) =~= before + seq![raw@]);
        }
    } else {
        proof {
            assert(raws_of(raws@) + Seq::<Seq<u8>>::empty() =~= raws_of(raws@));
        }
    }
    raws
}

/// Reads the lines of a file from its bytes.
pub fn split_lines(bytes: &[u8]) -> (lines: Vec<LineRead>)
    ensures
        reads_of(lines@) == lines_of(bytes@),
{
    let mut lines: Vec<LineRead> = Vec::new();
    let mut start: usize = 0;
    let mut at: usize = 0;
    assert(bytes@.subrange(0, bytes@.len() as int) =~= bytes@);
    while at < bytes.len()
        invariant
            start <= at <= bytes.len(),
            forall|k: int| start <= k < at ==> bytes@[k] != line_feed(),
            reads_of(lines@) + lines_of(bytes@.subrange(start as int, bytes@.len() as int))
                == lines_of(bytes@),
        decreases bytes.len() - at,
    {
        if bytes[at] == 0x0a {
            let ghost rest = bytes@.subrange(start as int, bytes@.len() as int);
            let raw = slice_subrange(bytes, start, at + 1);
            proof {
                lemma_first_feed(rest, at - start);
                assert(rest.take(at - start + 1) =~= raw@);
                assert(rest.skip(at - start + 1) =~= bytes@.subrange(
                    at + 1,
                    bytes@.len() as int,
                ));
            }
            lines.push(decode_line(raw));
            start = at + 1;
        }
        at += 1;
    }
    if start < bytes.len() {
        let ghost rest = bytes@.subrange(start as int, bytes@.len() as int);
        let raw = slice_subrange(bytes, start, bytes.len());
        proof {
            lemma_first_feed(rest, rest.len() as int);
        }
        lines.push(decode_line(raw));
    }
    lines
}

} // verus!
