//! Reading UTF-8 text, a byte at a time, up to where it is expected to end.

use crate::error::{Error, ErrorModel, Utf8Error};
use crate::outside::{advance_parser, new_parser, unfinished, Decoded};
use crate::text::{chars_of, ends_with, string_of};
use vstd::prelude::*;
use vstd::utf8::{
    encode_scalar, encode_utf8, encode_utf8_decode_utf8, encode_utf8_first_scalar,
};

verus! {

/// The UTF-8 encoding of a character
pub open spec fn char_bytes(c: char) -> Seq<u8> {
    encode_scalar(c as u32)
}

/// Whether the bytes encode a character
pub open spec fn is_char(bytes: Seq<u8>) -> bool {
    exists|c: char| #[trigger] char_bytes(c) == bytes
}

/// Whether the bytes are the start of the encoding of a character, with
/// something missing
pub open spec fn begins_char(bytes: Seq<u8>) -> bool {
    exists|c: char|
        bytes.len() < (#[trigger] char_bytes(c)).len() && char_bytes(c).take(bytes.len() as int)
            == bytes
}

/// How far decoding has come
pub struct Scan {
    /// The characters that are complete
    pub chars: Seq<char>,
    /// The start of the next one
    pub pending: Seq<u8>,
    /// Whether no byte was out of place
    pub valid: bool,
}

/// Decoding one byte more
pub open spec fn scan_step(scan: Scan, byte: u8) -> Scan {
    let seen = scan.pending.push(byte);
    if !scan.valid {
        scan
    } else if is_char(seen) {
        let c = choose|c: char| #[trigger] char_bytes(c) == seen;
        Scan { chars: scan.chars.push(c), pending: seq![], valid: true }
    } else if begins_char(seen) {
        Scan { pending: seen, ..scan }
    } else {
        Scan { valid: false, ..scan }
    }
}

/// How far decoding the bytes comes
pub open spec fn scan(bytes: Seq<u8>) -> Scan
    decreases bytes.len(),
{
    if bytes.len() == 0 {
        Scan { chars: seq![], pending: seq![], valid: true }
    } else {
        scan_step(scan(bytes.drop_last()), bytes.last())
    }
}

/// What reading a text comes to
pub enum TextRead {
    /// The text goes on
    Reading,
    /// It is not valid UTF-8
    Invalid,
    /// It has ended, after so many bytes
    Done { text: Seq<char>, used: nat },
}

/// What reading a text from the bytes comes to
///
/// The text ends as soon as it ends with `until`, or `limit` bytes have been
/// read. A character that the limit cuts short is not part of it.
pub open spec fn text_read(bytes: Seq<u8>, until: Seq<char>, limit: nat) -> TextRead
    decreases bytes.len(),
{
    let before = if bytes.len() == 0 {
        TextRead::Reading
    } else {
        text_read(bytes.drop_last(), until, limit)
    };
    match before {
        TextRead::Reading => {
            let scan = scan(bytes);
            if !scan.valid {
                TextRead::Invalid
            } else if ends_with(scan.chars, until) || bytes.len() >= limit {
                TextRead::Done { text: scan.chars, used: bytes.len() }
            } else {
                TextRead::Reading
            }
        },
        _ => before,
    }
}

/// A character is known by its encoding.
pub proof fn lemma_char_bytes_injective(a: char, b: char)
    requires
        char_bytes(a) == char_bytes(b),
    ensures
        a == b,
{
    let left = seq![a];
    let right = seq![b];
    reveal_with_fuel(encode_utf8, 2);
    assert(left.drop_first() =~= seq![]);
    assert(right.drop_first() =~= seq![]);
    assert(encode_utf8(left) =~= char_bytes(a));
    assert(encode_utf8(right) =~= char_bytes(b));
    encode_utf8_decode_utf8(left);
    encode_utf8_decode_utf8(right);
    assert(left[0] == right[0]);
}

/// One character more adds its encoding.
pub proof fn lemma_encode_push(chars: Seq<char>, c: char)
    ensures
        encode_utf8(chars.push(c)) == encode_utf8(chars) + char_bytes(c),
    decreases chars.len(),
{
    if chars.len() == 0 {
        reveal_with_fuel(encode_utf8, 2);
        assert(chars.push(c).drop_first() =~= seq![]);
        assert(encode_utf8(chars.push(c)) =~= encode_utf8(chars) + char_bytes(c));
    } else {
        lemma_encode_push(chars.drop_first(), c);
        assert(chars.push(c).drop_first() =~= chars.drop_first().push(c));
        assert(encode_utf8(chars.push(c)) =~= encode_utf8(chars) + char_bytes(c));
    }
}

/// What has been decoded, encoded again, is what was read.
pub proof fn law_decoding_loses_nothing(bytes: Seq<u8>)
    requires
        scan(bytes).valid,
    ensures
        encode_utf8(scan(bytes).chars) + scan(bytes).pending == bytes,
    decreases bytes.len(),
{
    if bytes.len() == 0 {
        assert(encode_utf8(scan(bytes).chars) + scan(bytes).pending =~= bytes);
    } else {
        let before = scan(bytes.drop_last());
        law_decoding_loses_nothing(bytes.drop_last());
        let seen = before.pending.push(bytes.last());
        assert(bytes =~= bytes.drop_last().push(bytes.last()));
        assert(bytes =~= encode_utf8(before.chars) + seen);
        if is_char(seen) {
            let c = choose|c: char| #[trigger] char_bytes(c) == seen;
            lemma_encode_push(before.chars, c);
        }
        assert(encode_utf8(scan(bytes).chars) + scan(bytes).pending =~= bytes);
    }
}

/// Bytes behind the end of a text do not change it.
pub proof fn lemma_text_read_stable(bytes: Seq<u8>, more: Seq<u8>, until: Seq<char>, limit: nat)
    requires
        !(text_read(bytes, until, limit) is Reading),
    ensures
        text_read(bytes + more, until, limit) == text_read(bytes, until, limit),
    decreases more.len(),
{
    if more.len() == 0 {
        assert(bytes + more =~= bytes);
    } else {
        lemma_text_read_stable(bytes, more.drop_last(), until, limit);
        assert((bytes + more).drop_last() =~= bytes + more.drop_last());
    }
}

/// The start of an encoding is no encoding.
pub proof fn lemma_no_char_begins_another(c: char, len: nat)
    requires
        0 < len < char_bytes(c).len(),
    ensures
        !is_char(char_bytes(c).take(len as int)),
        begins_char(char_bytes(c).take(len as int)),
{
    let start = char_bytes(c).take(len as int);
    if is_char(start) {
        let d = choose|d: char| #[trigger] char_bytes(d) == start;
        reveal_with_fuel(encode_utf8, 2);
        assert(seq![c].drop_first() =~= seq![]);
        assert(seq![d].drop_first() =~= seq![]);
        assert(encode_utf8(seq![c]) =~= char_bytes(c));
        assert(encode_utf8(seq![d]) =~= char_bytes(d));
        encode_utf8_first_scalar(seq![c]);
        encode_utf8_first_scalar(seq![d]);
        assert(char_bytes(c)[0] == start[0]);
    }
}

/// Decoding goes on through the bytes of a character.
proof fn lemma_scan_start(bytes: Seq<u8>, c: char, len: nat)
    requires
        scan(bytes).valid,
        scan(bytes).pending.len() == 0,
        len < char_bytes(c).len(),
    ensures
        scan(bytes + char_bytes(c).take(len as int)) == (Scan {
            pending: char_bytes(c).take(len as int),
            ..scan(bytes)
        }),
    decreases len,
{
    let start = char_bytes(c).take(len as int);
    if len == 0 {
        assert(bytes + start =~= bytes);
        assert(scan(bytes).pending =~= start);
    } else {
        let before = char_bytes(c).take(len - 1);
        lemma_scan_start(bytes, c, (len - 1) as nat);
        assert((bytes + start).drop_last() =~= bytes + before);
        assert(before.push(start.last()) =~= start);
        lemma_no_char_begins_another(c, len);
    }
}

/// Decoding comes to a character with its last byte.
proof fn lemma_scan_char(bytes: Seq<u8>, c: char)
    requires
        scan(bytes).valid,
        scan(bytes).pending.len() == 0,
    ensures
        scan(bytes + char_bytes(c)) == (Scan {
            chars: scan(bytes).chars.push(c),
            pending: seq![],
            valid: true,
        }),
{
    let len = char_bytes(c).len();
    let before = char_bytes(c).take(len - 1);
    lemma_scan_start(bytes, c, (len - 1) as nat);
    assert((bytes + char_bytes(c)).drop_last() =~= bytes + before);
    assert(before.push(char_bytes(c).last()) =~= char_bytes(c));
    let chosen = choose|d: char| #[trigger] char_bytes(d) == char_bytes(c);
    lemma_char_bytes_injective(c, chosen);
}

/// Text, encoded, is decoded to itself.
pub proof fn law_decoding_gives_text_back(text: Seq<char>)
    ensures
        scan(encode_utf8(text)) == (Scan { chars: text, pending: seq![], valid: true }),
    decreases text.len(),
{
    if text.len() > 0 {
        let before = text.drop_last();
        law_decoding_gives_text_back(before);
        lemma_encode_push(before, text.last());
        lemma_scan_char(encode_utf8(before), text.last());
        assert(before.push(text.last()) =~= text);
    } else {
        assert(text =~= seq![]);
    }
}

/// Reading goes on through the bytes of a character.
proof fn lemma_text_read_start(
    bytes: Seq<u8>,
    c: char,
    len: nat,
    until: Seq<char>,
    limit: nat,
)
    requires
        scan(bytes).valid,
        scan(bytes).pending.len() == 0,
        text_read(bytes, until, limit) is Reading,
        len < char_bytes(c).len(),
        bytes.len() + len < limit,
    ensures
        text_read(bytes + char_bytes(c).take(len as int), until, limit) is Reading,
    decreases len,
{
    let start = char_bytes(c).take(len as int);
    if len == 0 {
        assert(bytes + start =~= bytes);
    } else {
        lemma_text_read_start(bytes, c, (len - 1) as nat, until, limit);
        lemma_scan_start(bytes, c, len);
        assert((bytes + start).drop_last() =~= bytes + char_bytes(c).take(len - 1));
    }
}

/// Text within the limit, encoded, is read up to its first end.
pub proof fn lemma_text_read_encoded(text: Seq<char>, until: Seq<char>, limit: nat)
    requires
        forall|k: int| 0 <= k < text.len() ==> !ends_with(#[trigger] text.take(k), until),
        encode_utf8(text).len() <= limit,
    ensures
        text_read(encode_utf8(text), until, limit) == if ends_with(text, until) || encode_utf8(
            text,
        ).len() == limit {
            TextRead::Done { text, used: encode_utf8(text).len() }
        } else {
            TextRead::Reading
        },
    decreases text.len(),
{
    law_decoding_gives_text_back(text);
    if text.len() > 0 {
        let before = text.drop_last();
        let c = text.last();
        let bytes = encode_utf8(before);
        let len = char_bytes(c).len();
        assert forall|k: int| 0 <= k < before.len() implies !ends_with(
            #[trigger] before.take(k),
            until,
        ) by {
            assert(before.take(k) =~= text.take(k));
        }
        assert(before.push(c) =~= text);
        lemma_encode_push(before, c);
        lemma_text_read_encoded(before, until, limit);
        assert(text.take(text.len() - 1) =~= before);
        law_decoding_gives_text_back(before);
        lemma_text_read_start(bytes, c, (len - 1) as nat, until, limit);
        assert(encode_utf8(text).drop_last() =~= bytes + char_bytes(c).take(len - 1));
    }
}

/// What a text uses of the bytes: no more than there are, no more than the limit,
/// and the text itself is no longer. Once there are as many bytes as the limit,
/// the text has ended.
pub proof fn lemma_text_read_used(bytes: Seq<u8>, until: Seq<char>, limit: nat)
    ensures
        text_read(bytes, until, limit) matches TextRead::Done { text, used } ==> encode_utf8(
            text,
        ).len() <= used && used <= bytes.len() && used <= limit,
        text_read(bytes, until, limit) is Reading ==> bytes.len() < limit,
    decreases bytes.len(),
{
    if bytes.len() > 0 {
        lemma_text_read_used(bytes.drop_last(), until, limit);
    }
    if scan(bytes).valid {
        law_decoding_loses_nothing(bytes);
    }
}

/// What a [`TextReader`] has read, and where it stops
pub struct TextReaderModel {
    pub fed: Seq<u8>,
    pub until: Seq<char>,
    pub limit: nat,
}

/// Reads a text up to where it is expected to end
pub struct TextReader {
    parser: utf8parse::Parser,
    text: Vec<char>,
    left: usize,
    until: Vec<char>,
    fed: Ghost<Seq<u8>>,
    limit: Ghost<nat>,
}

impl View for TextReader {
    type V = TextReaderModel;

    closed spec fn view(&self) -> TextReaderModel {
        TextReaderModel { fed: self.fed@, until: self.until@, limit: self.limit@ }
    }
}

/// What reading a text has come to
pub enum TextStep {
    /// The text goes on
    More(TextReader),
    /// The text has ended
    Done {
        /// The text
        text: String,
        /// What is left of the limit
        left: usize,
    },
}

/// Whether reading has come to what the model says
pub open spec fn is_text_step(result: Result<TextStep, Error>, read: TextReaderModel) -> bool {
    match text_read(read.fed, read.until, read.limit) {
        TextRead::Reading => result matches Ok(TextStep::More(reader)) && reader.wf() && reader@
            == read,
        TextRead::Invalid => result matches Err(error) && error@ == ErrorModel::Utf8(
            Utf8Error::Handshake,
        ),
        TextRead::Done { text, used } => used == read.fed.len() && (
        result matches Ok(TextStep::Done { text: t, left }) && t@ == text && left == read.limit
            - used),
    }
}

impl TextReader {
    /// The reader agrees with what it has been fed
    closed spec fn agrees(&self) -> bool {
        let scan = scan(self.fed@);
        &&& scan.valid
        &&& self.text@ == scan.chars
        &&& unfinished(self.parser) == scan.pending
        &&& self.left == self.limit@ - self.fed@.len()
    }

    /// The text has not ended yet
    pub closed spec fn wf(&self) -> bool {
        &&& self.agrees()
        &&& text_read(self.fed@, self.until@, self.limit@) is Reading
    }

    /// The text has not ended yet.
    pub proof fn lemma_reading(&self)
        requires
            self.wf(),
        ensures
            text_read(self@.fed, self@.until, self@.limit) is Reading,
    {
    }

    /// Read a text that ends with `until`, or with the first `limit` bytes
    ///
    /// Where nothing is to be read, the text has ended at once.
    pub fn start(until: &str, limit: usize) -> (step: TextStep)
        ensures
            is_text_step(
                Ok(step),
                TextReaderModel { fed: seq![], until: until@, limit: limit as nat },
            ),
    {
        let reader: TextReader = TextReader {
            parser: new_parser(),
            text: Vec::new(),
            left: limit,
            until: chars_of(until),
            fed: Ghost(Seq::empty()),
            limit: Ghost(limit as nat),
        };
        reader.step()
    }

    /// See whether the text has ended
    fn step(self) -> (step: TextStep)
        requires
            self.agrees(),
            self.fed@.len() > 0 ==> text_read(
                self.fed@.drop_last(),
                self.until@,
                self.limit@,
            ) is Reading,
        ensures
            is_text_step(Ok(step), self@),
    {
        if self.left == 0 || ends_with_chars(&self.text, &self.until) {
            let text: String = string_of(&self.text, 0, self.text.len());
            assert(text@ =~= self.text@);
            TextStep::Done { text, left: self.left }
        } else {
            TextStep::More(self)
        }
    }

    /// Read one byte more
    ///
    /// The text comes back once it has ended, with what is left of the limit.
    pub fn advance(self, byte: u8) -> (result: Result<TextStep, Error>)
        requires
            self.wf(),
        ensures
            is_text_step(result, TextReaderModel { fed: self@.fed.push(byte), ..self@ }),
    {
        let mut reader: TextReader = self;
        let ghost before = reader.fed@;
        let ghost fed = before.push(byte);
        proof {
            assert(fed.drop_last() =~= before);
            lemma_text_read_used(before, reader.until@, reader.limit@);
            reader.fed@ = fed;
        }
        reader.left = reader.left - 1;
        match advance_parser(&mut reader.parser, byte) {
            Decoded::Invalid => {
                return Err(Error::Utf8(Utf8Error::Handshake));
            },
            Decoded::Pending => {},
            Decoded::Codepoint(c) => {
                proof {
                    let seen = scan(before).pending.push(byte);
                    assert(char_bytes(c) == seen);
                    let chosen = choose|d: char| #[trigger] char_bytes(d) == seen;
                    lemma_char_bytes_injective(c, chosen);
                }
                reader.text.push(c);
            },
        }
        Ok(reader.step())
    }
}

/// Whether the text ends with the given one
fn ends_with_chars(text: &Vec<char>, end: &Vec<char>) -> (result: bool)
    ensures
        result == ends_with(text@, end@),
{
    if end.len() > text.len() {
        return false;
    }
    let start: usize = text.len() - end.len();
    let ghost tail = text@.skip(start as int);
    let mut i: usize = 0;
    while i < end.len()
        invariant
            i <= end.len(),
            start + end.len() == text.len(),
            tail == text@.skip(start as int),
            forall|j: int| 0 <= j < i ==> tail[j] == end@[j],
        decreases end@.len() - i,
    {
        if text[start + i] != end[i] {
            assert(tail[i as int] != end@[i as int]);
            return false;
        }
        i += 1;
    }
    assert(tail =~= end@);
    true
}

} // verus!
