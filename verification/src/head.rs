//! Reading the head of an HTTP message: its first line, then its headers.

use crate::error::{Error, ErrorModel, Utf8Error};
use crate::reader::{
    lemma_text_read_stable, lemma_text_read_used, text_read, TextRead, TextReader,
    TextReaderModel, TextStep,
};
use vstd::prelude::*;
use vstd::utf8::encode_utf8;

verus! {

/// What ends the first line
pub const LINE_END: &'static str = "\n";

/// What ends the headers
pub const HEADERS_END: &'static str = "\r\n\r\n";

/// What reading the head of a message comes to
pub enum HeadRead {
    /// The first line goes on
    InLine,
    /// The first line is not valid UTF-8
    InvalidLine,
    /// The headers go on
    InHeaders { line: Seq<char> },
    /// The headers are not valid UTF-8
    InvalidHeaders { line: Seq<char> },
    /// The head has ended, after so many bytes
    Done { line: Seq<char>, headers: Seq<char>, used: nat },
}

/// What reading the head of a message from the bytes comes to
///
/// The limit is one for the line and the headers together: what the line used of
/// it is not there for the headers.
pub open spec fn head_read(bytes: Seq<u8>, limit: nat) -> HeadRead {
    match text_read(bytes, LINE_END@, limit) {
        TextRead::Reading => HeadRead::InLine,
        TextRead::Invalid => HeadRead::InvalidLine,
        TextRead::Done { text: line, used: line_len } => match text_read(
            bytes.skip(line_len as int),
            HEADERS_END@,
            (limit - line_len) as nat,
        ) {
            TextRead::Reading => HeadRead::InHeaders { line },
            TextRead::Invalid => HeadRead::InvalidHeaders { line },
            TextRead::Done { text: headers, used } => HeadRead::Done {
                line,
                headers,
                used: line_len + used,
            },
        },
    }
}

/// Whether more bytes can change what reading the head came to
pub open spec fn head_open(read: HeadRead) -> bool {
    read is InLine || read is InHeaders
}

/// Bytes behind the end of a head do not change it.
pub proof fn lemma_head_read_stable(bytes: Seq<u8>, more: Seq<u8>, limit: nat)
    requires
        !head_open(head_read(bytes, limit)),
    ensures
        head_read(bytes + more, limit) == head_read(bytes, limit),
        head_read(bytes, limit) matches HeadRead::Done { used, .. } ==> used <= bytes.len(),
{
    lemma_text_read_stable(bytes, more, LINE_END@, limit);
    match text_read(bytes, LINE_END@, limit) {
        TextRead::Done { used: line_len, .. } => {
            lemma_text_read_used(bytes, LINE_END@, limit);
            let rest = bytes.skip(line_len as int);
            let left = (limit - line_len) as nat;
            lemma_text_read_stable(rest, more, HEADERS_END@, left);
            lemma_text_read_used(rest, HEADERS_END@, left);
            assert((bytes + more).skip(line_len as int) =~= rest + more);
        },
        _ => {},
    }
}

/// What a head uses of the bytes: no more than the limit. Once there are as many
/// bytes as the limit, the head has ended.
pub proof fn lemma_head_read_used(bytes: Seq<u8>, limit: nat)
    ensures
        match head_read(bytes, limit) {
            HeadRead::InHeaders { line } | HeadRead::InvalidHeaders { line } => encode_utf8(
                line,
            ).len() <= limit,
            HeadRead::Done { line, headers, used } => encode_utf8(line).len() + encode_utf8(
                headers,
            ).len() <= used <= limit,
            _ => true,
        },
        head_open(head_read(bytes, limit)) ==> bytes.len() < limit,
{
    lemma_text_read_used(bytes, LINE_END@, limit);
    match text_read(bytes, LINE_END@, limit) {
        TextRead::Done { used, .. } => {
            lemma_text_read_used(bytes.skip(used as int), HEADERS_END@, (limit - used) as nat);
        },
        _ => {},
    }
}

/// What a [`HeadReader`] has read, and how much it may
pub struct HeadReaderModel {
    pub fed: Seq<u8>,
    pub limit: nat,
}

/// Reads the head of a message
pub struct HeadReader {
    reader: TextReader,
    in_headers: bool,
    fed: Ghost<Seq<u8>>,
    limit: Ghost<nat>,
}

impl View for HeadReader {
    type V = HeadReaderModel;

    closed spec fn view(&self) -> HeadReaderModel {
        HeadReaderModel { fed: self.fed@, limit: self.limit@ }
    }
}

/// What reading a head has come to
pub enum HeadStep {
    /// The line, or the headers, go on
    More(HeadReader),
    /// The first line has ended
    Line {
        /// The line
        line: String,
        /// What reads the headers
        next: HeadReader,
    },
    /// The first line has ended and left nothing of the limit: there are no
    /// headers
    LineOnly(String),
    /// The headers have ended
    Headers(String),
}

impl HeadReader {
    /// The head has not ended yet
    pub closed spec fn wf(&self) -> bool {
        &&& self.reader.wf()
        &&& match text_read(self.fed@, LINE_END@, self.limit@) {
            TextRead::Reading => !self.in_headers && self.reader@ == (TextReaderModel {
                fed: self.fed@,
                until: LINE_END@,
                limit: self.limit@,
            }),
            TextRead::Invalid => false,
            TextRead::Done { used, .. } => self.in_headers && self.reader@ == (TextReaderModel {
                fed: self.fed@.skip(used as int),
                until: HEADERS_END@,
                limit: (self.limit@ - used) as nat,
            }),
        }
    }

    /// Read a head that ends at the latest with the first `limit` bytes
    pub fn start(limit: usize) -> (step: HeadStep)
        ensures
            match head_read(seq![], limit as nat) {
                HeadRead::InLine => step matches HeadStep::More(reader) && reader.wf() && reader@
                    == (HeadReaderModel { fed: seq![], limit: limit as nat }),
                HeadRead::Done { line, headers, used } => {
                    &&& used == 0
                    &&& line == Seq::<char>::empty()
                    &&& headers == Seq::<char>::empty()
                    &&& step matches HeadStep::LineOnly(text) && text@ == line
                },
                _ => false,
            },
            head_read(seq![], limit as nat) is InLine <==> limit > 0,
    {
        proof {
            reveal_strlit("\n");
            reveal_strlit("\r\n\r\n");
            assert(Seq::<u8>::empty().skip(0) =~= Seq::<u8>::empty());
        }
        match TextReader::start(LINE_END, limit) {
            TextStep::More(reader) => HeadStep::More(
                HeadReader {
                    reader,
                    in_headers: false,
                    fed: Ghost(Seq::empty()),
                    limit: Ghost(limit as nat),
                },
            ),
            TextStep::Done { text, .. } => HeadStep::LineOnly(text),
        }
    }

    /// Read one byte more
    pub fn advance(self, byte: u8) -> (result: Result<HeadStep, Error>)
        requires
            self.wf(),
        ensures
            head_open(head_read(self@.fed, self@.limit)),
            ({
                let fed = self@.fed.push(byte);
                let before = head_read(self@.fed, self@.limit);
                match head_read(fed, self@.limit) {
                    HeadRead::InLine => {
                        &&& before is InLine
                        &&& result matches Ok(HeadStep::More(next)) && next.wf() && next@ == (
                        HeadReaderModel { fed, ..self@ })
                    },
                    HeadRead::InHeaders { line } => match before {
                        HeadRead::InLine => result matches Ok(HeadStep::Line { line: l, next })
                            && l@ == line && next.wf() && next@ == (HeadReaderModel {
                            fed,
                            ..self@
                        }),
                        _ => before == (HeadRead::InHeaders { line }) && (result matches Ok(
                            HeadStep::More(next),
                        ) && next.wf() && next@ == (HeadReaderModel { fed, ..self@ })),
                    },
                    HeadRead::Done { line, headers, used } => {
                        &&& used == fed.len()
                        &&& match before {
                            HeadRead::InLine => headers == Seq::<char>::empty() && (
                            result matches Ok(HeadStep::LineOnly(l)) && l@ == line),
                            _ => before == (HeadRead::InHeaders { line }) && (result matches Ok(
                                HeadStep::Headers(text),
                            ) && text@ == headers),
                        }
                    },
                    HeadRead::InvalidLine => {
                        &&& before is InLine
                        &&& result matches Err(error) && error@ == ErrorModel::Utf8(
                            Utf8Error::Handshake,
                        )
                    },
                    HeadRead::InvalidHeaders { line } => {
                        &&& before == (HeadRead::InHeaders { line })
                        &&& result matches Err(error) && error@ == ErrorModel::Utf8(
                            Utf8Error::Handshake,
                        )
                    },
                }
            }),
    {
        let ghost before = self@.fed;
        let ghost fed = before.push(byte);
        let ghost limit = self@.limit;
        proof {
            self.reader.lemma_reading();
            reveal_strlit("\r\n\r\n");
            if self.in_headers {
                lemma_text_read_stable(before, seq![byte], LINE_END@, limit);
                lemma_text_read_used(before, LINE_END@, limit);
                assert(before + seq![byte] =~= fed);
                match text_read(before, LINE_END@, limit) {
                    TextRead::Done { used, .. } => {
                        assert(fed.skip(used as int) =~= before.skip(used as int).push(byte));
                    },
                    _ => {},
                }
            }
        }
        match self.reader.advance(byte) {
            Err(error) => Err(error),
            Ok(TextStep::More(reader)) => Ok(
                HeadStep::More(
                    HeadReader {
                        reader,
                        in_headers: self.in_headers,
                        fed: Ghost(fed),
                        limit: self.limit,
                    },
                ),
            ),
            Ok(TextStep::Done { text, left }) => {
                if self.in_headers {
                    return Ok(HeadStep::Headers(text));
                }
                assert(fed.skip(fed.len() as int) =~= seq![]);
                match TextReader::start(HEADERS_END, left) {
                    TextStep::More(reader) => Ok(
                        HeadStep::Line {
                            line: text,
                            next: HeadReader {
                                reader,
                                in_headers: true,
                                fed: Ghost(fed),
                                limit: self.limit,
                            },
                        },
                    ),
                    TextStep::Done { .. } => Ok(HeadStep::LineOnly(text)),
                }
            },
        }
    }
}

} // verus!
