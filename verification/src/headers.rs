//! The header fields of an HTTP message.

use crate::error::{Error, ErrorModel, HandshakeError, HandshakeErrorModel};
use crate::text::{
    chars_of, eq_ignore_ascii_case, find_colon, find_line, first_colon, lemma_span_len, lower,
    lowered, next_line, same, same_but_for_case, string_of,
};
use vstd::prelude::*;

verus! {

/// The name and the value in a header line
///
/// The name stands before the first colon that a space follows, the value
/// between it and the next one. A line without one is no header.
pub open spec fn header_field(line: Seq<char>) -> Option<(Seq<char>, Seq<char>)> {
    let len = first_colon(line) as int;
    let value = line.skip(len + 2);
    if len == line.len() {
        None
    } else {
        Some((line.take(len), value.take(first_colon(value) as int)))
    }
}

/// The headers with those that the text adds, or the first line that is none
///
/// The names are in small letters. Of two headers with one name the later one
/// counts, and an empty line ends them all.
pub open spec fn added_headers(
    headers: Map<Seq<char>, Seq<char>>,
    text: Seq<char>,
) -> Result<Map<Seq<char>, Seq<char>>, Seq<char>>
    decreases text.len(),
{
    let (line, rest) = next_line(text);
    proof {
        lemma_span_len(text, |c: char| c != '\n');
    }
    if text.len() == 0 || line.len() == 0 {
        Ok(headers)
    } else {
        match header_field(line) {
            Some((name, value)) => added_headers(headers.insert(lower(name), value), rest),
            None => Err(line),
        }
    }
}

/// The headers that the text holds, or the first line that is none
pub open spec fn headers_in(text: Seq<char>) -> Result<Map<Seq<char>, Seq<char>>, Seq<char>> {
    added_headers(Map::empty(), text)
}

/// Whether there is a header of that name with that value, but for capital and
/// small letters
pub open spec fn header_is(
    headers: Map<Seq<char>, Seq<char>>,
    name: Seq<char>,
    value: Seq<char>,
) -> bool {
    headers.contains_key(name) && same_but_for_case(headers[name], value)
}

/// The entries as a map
pub open spec fn entries_map(entries: Seq<(String, String)>) -> Map<Seq<char>, Seq<char>>
    decreases entries.len(),
{
    if entries.len() == 0 {
        Map::empty()
    } else {
        entries_map(entries.drop_last()).insert(entries.last().0@, entries.last().1@)
    }
}

/// Header fields by name
pub struct Headers {
    entries: Vec<(String, String)>,
}

impl View for Headers {
    type V = Map<Seq<char>, Seq<char>>;

    closed spec fn view(&self) -> Map<Seq<char>, Seq<char>> {
        entries_map(self.entries@)
    }
}

impl Headers {
    /// No headers
    pub fn new() -> (headers: Headers)
        ensures
            headers@ == Map::<Seq<char>, Seq<char>>::empty(),
    {
        Headers { entries: Vec::new() }
    }

    /// Add a header, in place of one with the same name
    pub fn insert(&mut self, name: String, value: String)
        ensures
            final(self)@ == old(self)@.insert(name@, value@),
    {
        let ghost before = self.entries@;
        self.entries.push((name, value));
        assert(self.entries@.drop_last() =~= before);
    }

    /// The value of the header with the given name
    pub fn get(&self, name: &str) -> (value: Option<&String>)
        ensures
            match value {
                Some(v) => self@.contains_key(name@) && v@ == self@[name@],
                None => !self@.contains_key(name@),
            },
    {
        let mut i: usize = self.entries.len();
        assert(self.entries@.take(i as int) =~= self.entries@);
        while i > 0
            invariant
                i <= self.entries@.len(),
                self@.contains_key(name@) == entries_map(
                    self.entries@.take(i as int),
                ).contains_key(name@),
                self@[name@] == entries_map(self.entries@.take(i as int))[name@],
            decreases i,
        {
            assert(self.entries@.take(i as int).drop_last() =~= self.entries@.take(i - 1));
            i -= 1;
            if same(self.entries[i].0.as_str(), name) {
                return Some(&self.entries[i].1);
            }
        }
        None
    }

    /// Whether there is a header of that name with that value, but for capital
    /// and small letters
    pub fn value_is(&self, name: &str, value: &str) -> (result: bool)
        ensures
            result == header_is(self@, name@, value@),
    {
        match self.get(name) {
            Some(v) => eq_ignore_ascii_case(v.as_str(), value),
            None => false,
        }
    }

    /// Read the headers in a text
    pub fn parse(text: &str) -> (result: Result<Headers, Error>)
        ensures
            match (result, headers_in(text@)) {
                (Ok(headers), Ok(map)) => headers@ == map,
                (Err(error), Err(line)) => error@ == ErrorModel::Handshake(
                    HandshakeErrorModel::MissingOrInvalidHeader(line),
                ),
                _ => false,
            },
    {
        let chars: Vec<char> = chars_of(text);
        let mut headers: Headers = Headers::new();
        let mut start: usize = 0;
        assert(chars@.skip(0) =~= text@);
        while start < chars.len()
            invariant
                start <= chars@.len(),
                added_headers(headers@, chars@.skip(start as int)) == headers_in(text@),
            decreases chars@.len() - start,
        {
            let (end, next): (usize, usize) = find_line(&chars, start);
            let ghost line = chars@.subrange(start as int, end as int);
            if end == start {
                assert(line.len() == 0);
                return Ok(headers);
            }
            let colon: usize = find_colon(&chars, start, end);
            if colon == end {
                return Err(
                    Error::Handshake(
                        HandshakeError::MissingOrInvalidHeader(string_of(&chars, start, end)),
                    ),
                );
            }
            let value_end: usize = find_colon(&chars, colon + 2, end);
            let name: String = string_of(&chars, start, colon);
            let value: String = string_of(&chars, colon + 2, value_end);
            proof {
                let rest = line.skip(colon - start + 2);
                assert(rest =~= chars@.subrange(colon + 2, end as int));
                assert(line.take(colon - start) =~= name@);
                assert(rest.take(value_end - colon - 2) =~= value@);
            }
            headers.insert(lowered(name.as_str()), value);
            start = next;
        }
        assert(chars@.skip(start as int).len() == 0);
        Ok(headers)
    }
}

} // verus!
