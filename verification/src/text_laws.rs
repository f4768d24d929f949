//! What cutting text up, comparing it and decoding it comes to.

use crate::encoding::{base64_digit, base64_text};
use crate::headers::{added_headers, header_field, header_is, headers_in};
use crate::outside::lowercase;
use crate::reader::{
    begins_char, char_bytes, is_char, is_text_step, law_decoding_gives_text_back,
    law_decoding_loses_nothing, lemma_encode_push, lemma_no_char_begins_another,
    lemma_text_read_stable, lemma_text_read_used, scan, text_read, TextRead, TextReaderModel, TextStep,
};
use crate::text::{
    ascii_lower, ascii_space, colon_at, decimal, ends_with, first_colon, lower, next_line,
    next_word, same_but_for_case, span, trim, trim_end, white_space,
};
use crate::Error;
use vstd::prelude::*;
use vstd::utf8::{encode_utf8, is_ascii_chars};

verus! {

/// The number that decimal digits make, read from the first to the last
pub open spec fn digits_value(digits: Seq<char>) -> int
    decreases digits.len(),
{
    if digits.len() == 0 {
        0
    } else {
        10 * digits_value(digits.drop_last()) + (digits.last() as int - '0' as int)
    }
}

/// The decimal text of a number is digits that make that number, without a zero at
/// the front.
pub proof fn law_decimal_is_read_back(n: nat)
    ensures
        digits_value(decimal(n)) == n,
        decimal(n).len() > 0,
        forall|i: int| 0 <= i < decimal(n).len() ==> '0' <= #[trigger] decimal(n)[i] <= '9',
        decimal(n).len() > 1 <==> n >= 10,
        decimal(n).len() > 1 ==> decimal(n)[0] != '0',
    decreases n,
{
    let digits = decimal(n);
    if n < 10 {
        assert(digits.drop_last() =~= seq![]);
        reveal_with_fuel(digits_value, 2);
    } else {
        law_decimal_is_read_back(n / 10);
        let front = decimal(n / 10);
        assert(digits.drop_last() =~= front);
        assert(digits[0] == front[0]);
        assert forall|i: int| 0 <= i < digits.len() implies '0' <= #[trigger] digits[i] <= '9' by {
            if i + 1 < digits.len() {
                assert(digits[i] == front[i]);
            }
        }
        if n / 10 < 10 {
            assert(front[0] == (0x30 + n / 10) as char);
        }
    }
}

/// Different numbers have different decimal texts.
pub proof fn law_decimal_tells_numbers_apart(a: nat, b: nat)
    ensures
        decimal(a) == decimal(b) ==> a == b,
{
    law_decimal_is_read_back(a);
    law_decimal_is_read_back(b);
}

/// The small letter for a capital one comes 32 places behind it, and nothing else
/// changes.
pub proof fn law_small_letters(c: char)
    ensures
        65 <= c as u32 <= 90 ==> ascii_lower(c) as u32 == c as u32 + 32,
        !(65 <= c as u32 <= 90) ==> ascii_lower(c) == c,
{
}

/// ASCII text in small letters is as long, and differs from the text only where it
/// has capital letters.
pub proof fn law_text_in_small_letters(text: Seq<char>)
    requires
        forall|i: int| 0 <= i < text.len() ==> (#[trigger] text[i]) as u32 <= 127,
    ensures
        lower(text).len() == text.len(),
        forall|i: int|
            0 <= i < text.len() ==> (#[trigger] lower(text)[i]) as u32 == if 65 <= text[i] as u32
                <= 90 {
                text[i] as u32 + 32
            } else {
                text[i] as u32 as int
            },
{
    assert forall|i: int| 0 <= i < text.len() implies '\u{0}' <= #[trigger] text[i]
        <= '\u{7f}' by {
        lemma_ascii(text[i]);
    }
    assert(is_ascii_chars(text));
    assert forall|i: int| 0 <= i < text.len() implies (#[trigger] lower(text)[i]) as u32 == if 65
        <= text[i] as u32 <= 90 {
        text[i] as u32 + 32
    } else {
        text[i] as u32 as int
    } by {
        law_small_letters(text[i]);
    }
}

/// Other text is in small letters by the rules of Unicode.
pub proof fn law_other_text_in_small_letters(text: Seq<char>)
    requires
        exists|i: int| 0 <= i < text.len() && #[trigger] text[i] > '\u{7f}',
    ensures
        lower(text) == lowercase(text),
{
}

/// The codes of ASCII.
proof fn lemma_ascii(c: char)
    requires
        c as u32 <= 127,
    ensures
        '\u{0}' <= c <= '\u{7f}',
{
}

/// Texts are equal but for case where they are as long as each other, and differ
/// only by letters of ASCII that are 32 places apart.
pub proof fn law_equal_but_for_case(a: Seq<char>, b: Seq<char>)
    ensures
        same_but_for_case(a, b) <==> a.len() == b.len() && forall|i: int|
            0 <= i < a.len() ==> {
                ||| #[trigger] a[i] == b[i]
                ||| 65 <= a[i] as u32 <= 90 && b[i] as u32 == a[i] as u32 + 32
                ||| 65 <= b[i] as u32 <= 90 && a[i] as u32 == b[i] as u32 + 32
            },
{
    if a.len() == b.len() {
        assert forall|i: int| 0 <= i < a.len() implies (ascii_lower(#[trigger] a[i])
            == ascii_lower(b[i]) <==> {
            ||| a[i] == b[i]
            ||| 65 <= a[i] as u32 <= 90 && b[i] as u32 == a[i] as u32 + 32
            ||| 65 <= b[i] as u32 <= 90 && a[i] as u32 == b[i] as u32 + 32
        }) by {
            law_small_letters(a[i]);
            law_small_letters(b[i]);
        }
    }
}

/// Which characters are white space, in ASCII and in Unicode.
pub proof fn law_white_space(c: char)
    ensures
        ascii_space(c) <==> c as u32 == 32 || c as u32 == 9 || c as u32 == 10 || c as u32 == 12
            || c as u32 == 13,
        white_space(c) <==> 9 <= c as u32 <= 13 || c as u32 == 32 || c as u32 == 133 || c as u32
            == 160 || c as u32 == 5760 || 8192 <= c as u32 <= 8202 || c as u32 == 8232 || c as u32
            == 8233 || c as u32 == 8239 || c as u32 == 8287 || c as u32 == 12288,
{
}

/// What a span is made of, and what ends it.
proof fn lemma_span_chars(text: Seq<char>, belongs: spec_fn(char) -> bool)
    ensures
        span(text, belongs) <= text.len(),
        forall|i: int| 0 <= i < span(text, belongs) ==> belongs(#[trigger] text[i]),
        span(text, belongs) < text.len() ==> !belongs(text[span(text, belongs) as int]),
    decreases text.len(),
{
    if text.len() > 0 && belongs(text[0]) {
        let later = text.skip(1);
        lemma_span_chars(later, belongs);
        assert forall|i: int| 0 <= i < span(text, belongs) implies belongs(
            #[trigger] text[i],
        ) by {
            if i > 0 {
                assert(later[i - 1] == text[i]);
            }
        }
    }
}

/// The first word of a text comes behind white space, if anything, holds none, and
/// ends with the text or before white space; without a word the text is all white
/// space.
pub proof fn law_first_word(text: Seq<char>)
    ensures
        match next_word(text) {
            Some((word, rest)) => {
                let start = text.len() - word.len() - rest.len();
                &&& start >= 0
                &&& text == text.subrange(0, start) + word + rest
                &&& forall|i: int| 0 <= i < start ==> ascii_space(#[trigger] text[i])
                &&& word.len() > 0
                &&& forall|i: int| 0 <= i < word.len() ==> !ascii_space(#[trigger] word[i])
                &&& rest.len() > 0 ==> ascii_space(rest[0])
            },
            None => forall|i: int| 0 <= i < text.len() ==> ascii_space(#[trigger] text[i]),
        },
{
    let space = |c: char| ascii_space(c);
    let other = |c: char| !ascii_space(c);
    lemma_span_chars(text, space);
    let start = text.skip(span(text, space) as int);
    lemma_span_chars(start, other);
    assert forall|i: int| 0 <= i < span(text, space) implies ascii_space(#[trigger] text[i]) by {
        assert(space(text[i]));
    }
    match next_word(text) {
        Some((word, rest)) => {
            let n = text.len() - word.len() - rest.len();
            assert(text =~= text.subrange(0, n) + word + rest);
            assert(!space(start[0]));
            assert forall|i: int| 0 <= i < word.len() implies !ascii_space(#[trigger] word[i]) by {
                assert(other(start[i]));
            }
            if rest.len() > 0 {
                assert(!other(start[word.len() as int]));
            }
        },
        None => {},
    }
}

/// The first line of a text holds no line feed; behind it comes nothing, a line feed,
/// or a carriage return and a line feed, and then the rest.
pub proof fn law_first_line(text: Seq<char>)
    ensures
        ({
            let (line, rest) = next_line(text);
            &&& forall|i: int| 0 <= i < line.len() ==> #[trigger] line[i] != '\n'
            &&& {
                ||| text == line && rest.len() == 0
                ||| text == line.push('\n') + rest && (line.len() > 0 ==> line.last() != '\r')
                ||| text == line.push('\r').push('\n') + rest
            }
        }),
{
    let other = |c: char| c != '\n';
    lemma_span_chars(text, other);
    let (line, rest) = next_line(text);
    let len = span(text, other) as int;
    assert forall|i: int| 0 <= i < line.len() implies #[trigger] line[i] != '\n' by {
        assert(other(text[i]));
    }
    if len < text.len() {
        assert(!other(text[len]));
        if len > 0 && text[len - 1] == '\r' {
            assert(text =~= line.push('\r').push('\n') + rest);
        } else {
            assert(text =~= line.push('\n') + rest);
        }
    }
}

/// The first colon of a text stands where a colon is followed by a space, and no
/// earlier one is.
pub proof fn law_first_colon(text: Seq<char>)
    ensures
        forall|i: int|
            0 <= i && i + 1 < text.len() ==> (#[trigger] colon_at(text, i) <==> text[i] == ':'
                && text[i + 1] == ' '),
        forall|i: int| i < 0 || i + 1 >= text.len() ==> !#[trigger] colon_at(text, i),
        first_colon(text) <= text.len(),
        forall|i: int|
            0 <= i < first_colon(text) && i + 1 < text.len() ==> !(#[trigger] text[i] == ':'
                && text[i + 1] == ' '),
        first_colon(text) < text.len() ==> first_colon(text) + 1 < text.len() && text[first_colon(
            text,
        ) as int] == ':' && text[first_colon(text) as int + 1] == ' ',
    decreases text.len(),
{
    if text.len() > 0 && !(text.len() > 1 && text[0] == ':' && text[1] == ' ') {
        let later = text.skip(1);
        law_first_colon(later);
        assert forall|i: int| 0 <= i < first_colon(text) && i + 1 < text.len() implies !(
        #[trigger] text[i] == ':' && text[i + 1] == ' ') by {
            if i > 0 {
                assert(later[i - 1] == text[i]);
            }
        }
    }
}

/// Without white space at its end, a text is shorter by white space only.
proof fn lemma_trim_end(text: Seq<char>)
    ensures
        trim_end(text).len() <= text.len(),
        trim_end(text) == text.subrange(0, trim_end(text).len() as int),
        forall|i: int| trim_end(text).len() <= i < text.len() ==> white_space(#[trigger] text[i]),
        trim_end(text).len() > 0 ==> !white_space(trim_end(text).last()),
    decreases text.len(),
{
    if text.len() > 0 && white_space(text.last()) {
        let front = text.drop_last();
        lemma_trim_end(front);
        assert(trim_end(text) =~= text.subrange(0, trim_end(text).len() as int));
        assert forall|i: int| trim_end(text).len() <= i < text.len() implies white_space(
            #[trigger] text[i],
        ) by {
            if i + 1 < text.len() {
                assert(front[i] == text[i]);
            }
        }
    } else {
        assert(text =~= text.subrange(0, text.len() as int));
    }
}

/// A trimmed text neither starts nor ends with white space, and nothing but white
/// space was taken off either end.
pub proof fn law_trimmed_text(text: Seq<char>)
    ensures
        trim(text).len() > 0 ==> !white_space(trim(text)[0]) && !white_space(trim(text).last()),
        exists|start: int|
            #![trigger text.subrange(0, start)]
            {
                let end = start + trim(text).len();
                &&& 0 <= start <= end <= text.len()
                &&& trim(text) == text.subrange(start, end)
                &&& forall|i: int| 0 <= i < start ==> white_space(#[trigger] text[i])
                &&& forall|i: int| end <= i < text.len() ==> white_space(#[trigger] text[i])
            },
{
    let space = |c: char| white_space(c);
    lemma_span_chars(text, space);
    let start = span(text, space) as int;
    let rest = text.skip(start);
    lemma_trim_end(rest);
    let end = start + trim(text).len();
    assert(trim(text) =~= text.subrange(start, end));
    assert forall|i: int| 0 <= i < start implies white_space(#[trigger] text[i]) by {
        assert(space(text[i]));
    }
    assert forall|i: int| end <= i < text.len() implies white_space(#[trigger] text[i]) by {
        assert(rest[i - start] == text[i]);
    }
    if trim(text).len() > 0 {
        assert(trim(text)[0] == text[start]);
        assert(!space(text[start]));
    }
    assert(text.subrange(0, start).len() == start);
}

/// A text ends with another where its last characters are those of the other.
pub proof fn law_how_a_text_ends(text: Seq<char>, end: Seq<char>)
    ensures
        ends_with(text, end) <==> end.len() <= text.len() && forall|i: int|
            0 <= i < end.len() ==> text[text.len() - end.len() + i] == #[trigger] end[i],
{
    if end.len() <= text.len() {
        let tail = text.skip(text.len() - end.len());
        assert(forall|i: int|
            0 <= i < end.len() ==> tail[i] == #[trigger] text[text.len() - end.len() + i]);
        if forall|i: int|
            0 <= i < end.len() ==> text[text.len() - end.len() + i] == #[trigger] end[i] {
            assert(tail =~= end);
        } else {
            let i = choose|i: int|
                0 <= i < end.len() && text[text.len() - end.len() + i] != #[trigger] end[i];
            assert(tail[i] != end[i]);
        }
    }
}

/// The line of a header is its name, a colon and a space, and its value, which ends
/// with the line or before the next colon and space; without a colon and a space
/// the line is none.
pub proof fn law_header_line(line: Seq<char>)
    ensures
        match header_field(line) {
            Some((name, value)) => {
                let start = name.len() + 2;
                let end = start + value.len();
                &&& end <= line.len()
                &&& name == line.subrange(0, name.len() as int)
                &&& line[name.len() as int] == ':' && line[name.len() as int + 1] == ' '
                &&& value == line.subrange(start as int, end as int)
                &&& forall|i: int|
                    0 <= i < name.len() ==> !(#[trigger] line[i] == ':' && line[i + 1] == ' ')
                &&& forall|i: int|
                    start <= i < end && i + 1 < line.len() ==> !(#[trigger] line[i] == ':' && line[i
                        + 1] == ' ')
                &&& end < line.len() ==> end + 1 < line.len() && line[end as int] == ':'
                    && line[end as int + 1] == ' '
            },
            None => forall|i: int|
                0 <= i && i + 1 < line.len() ==> !(#[trigger] line[i] == ':' && line[i + 1] == ' '),
        },
{
    law_first_colon(line);
    let len = first_colon(line) as int;
    if len < line.len() {
        let rest = line.skip(len + 2);
        law_first_colon(rest);
        let start = len + 2;
        let end = start + first_colon(rest);
        assert(line.take(len) =~= line.subrange(0, len));
        assert(rest.take(first_colon(rest) as int) =~= line.subrange(start, end));
        assert forall|i: int| start <= i < end && i + 1 < line.len() implies !(#[trigger] line[i]
            == ':' && line[i + 1] == ' ') by {
            assert(rest[i - start] == line[i] && rest[i - start + 1] == line[i + 1]);
        }
    }
}

/// Headers are read line by line: each adds its value under its name in small
/// letters, in place of an earlier one, an empty line ends them, and the first line
/// that is none is refused.
pub proof fn law_headers_line_by_line(headers: Map<Seq<char>, Seq<char>>, text: Seq<char>)
    ensures
        headers_in(text) == added_headers(Map::empty(), text),
        text.len() == 0 ==> added_headers(headers, text) == Ok::<
            Map<Seq<char>, Seq<char>>,
            Seq<char>,
        >(headers),
        ({
            let (line, rest) = next_line(text);
            &&& line.len() == 0 ==> added_headers(headers, text) == Ok::<
                Map<Seq<char>, Seq<char>>,
                Seq<char>,
            >(headers)
            &&& text.len() > 0 && line.len() > 0 ==> match header_field(line) {
                Some((name, value)) => added_headers(headers, text) == added_headers(
                    headers.insert(lower(name), value),
                    rest,
                ),
                None => added_headers(headers, text) == Err::<
                    Map<Seq<char>, Seq<char>>,
                    Seq<char>,
                >(line),
            }
        }),
{
}

/// A header has a value where it is there, and the value is that one but for case.
pub proof fn law_header_values(
    headers: Map<Seq<char>, Seq<char>>,
    name: Seq<char>,
    value: Seq<char>,
)
    ensures
        header_is(headers, name, value) <==> headers.contains_key(name) && same_but_for_case(
            headers[name],
            value,
        ),
{
}

/// What has been decoded in part is the start of a character.
proof fn lemma_scan_pending(bytes: Seq<u8>)
    ensures
        scan(bytes).pending.len() > 0 ==> begins_char(scan(bytes).pending),
    decreases bytes.len(),
{
    if bytes.len() > 0 {
        lemma_scan_pending(bytes.drop_last());
    }
}

/// Once decoding has failed it stays so.
proof fn lemma_scan_fails(bytes: Seq<u8>, more: Seq<u8>)
    ensures
        scan(bytes + more).valid ==> scan(bytes).valid,
    decreases more.len(),
{
    if more.len() == 0 {
        assert(bytes + more =~= bytes);
    } else {
        lemma_scan_fails(bytes, more.drop_last());
        assert((bytes + more).drop_last() =~= bytes + more.drop_last());
    }
}

/// Bytes are decoded as far as there is a text whose encoding starts with them, and
/// no further.
pub proof fn law_what_can_be_decoded(bytes: Seq<u8>)
    ensures
        scan(bytes).valid <==> exists|text: Seq<char>|
            bytes.is_prefix_of(#[trigger] encode_utf8(text)),
{
    if scan(bytes).valid {
        law_decoding_loses_nothing(bytes);
        lemma_scan_pending(bytes);
        let chars = scan(bytes).chars;
        let pending = scan(bytes).pending;
        if pending.len() == 0 {
            assert(bytes =~= encode_utf8(chars));
            assert(bytes.is_prefix_of(encode_utf8(chars)));
        } else {
            let c = choose|c: char|
                pending.len() < (#[trigger] char_bytes(c)).len() && char_bytes(c).take(
                    pending.len() as int,
                ) == pending;
            lemma_encode_push(chars, c);
            let whole = encode_utf8(chars.push(c));
            assert forall|i: int| 0 <= i < bytes.len() implies bytes[i] == whole[i] by {
                if i >= encode_utf8(chars).len() {
                    assert(bytes[i] == pending[i - encode_utf8(chars).len()]);
                    assert(pending[i - encode_utf8(chars).len()] == char_bytes(c)[i - encode_utf8(
                        chars,
                    ).len()]);
                }
            }
            assert(bytes.is_prefix_of(whole));
        }
    }
    if exists|text: Seq<char>| bytes.is_prefix_of(#[trigger] encode_utf8(text)) {
        let text = choose|text: Seq<char>| bytes.is_prefix_of(#[trigger] encode_utf8(text));
        let more = encode_utf8(text).skip(bytes.len() as int);
        assert(bytes + more =~= encode_utf8(text));
        law_decoding_gives_text_back(text);
        lemma_scan_fails(bytes, more);
    }
}

/// What is read as a text: where reading ends, the text is what the bytes up to
/// there encode, but for a character that is cut short; it ends with `until`, or
/// the limit has been reached, and neither was so before. Reading fails only where
/// the bytes start no text, and goes on only below the limit.
pub proof fn law_what_is_read_as_text(bytes: Seq<u8>, until: Seq<char>, limit: nat)
    ensures
        match text_read(bytes, until, limit) {
            TextRead::Reading => {
                &&& bytes.len() < limit
                &&& exists|text: Seq<char>| bytes.is_prefix_of(#[trigger] encode_utf8(text))
                &&& forall|text: Seq<char>| #[trigger]
                    encode_utf8(text) == bytes ==> !ends_with(text, until)
            },
            TextRead::Invalid => {
                &&& forall|text: Seq<char>| !bytes.is_prefix_of(#[trigger] encode_utf8(text))
                &&& forall|k: int|
                    0 <= k < bytes.len() ==> !(text_read(
                        #[trigger] bytes.take(k),
                        until,
                        limit,
                    ) is Done)
            },
            TextRead::Done { text, used } => {
                &&& used <= bytes.len() && used <= limit
                &&& encode_utf8(text).is_prefix_of(bytes.take(used as int))
                &&& forall|c: char|
                    !(#[trigger] encode_utf8(text.push(c))).is_prefix_of(bytes.take(used as int))
                &&& exists|whole: Seq<char>|
                    bytes.take(used as int).is_prefix_of(#[trigger] encode_utf8(whole))
                &&& ends_with(text, until) || used == limit
                &&& forall|k: int|
                    0 <= k < used ==> text_read(#[trigger] bytes.take(k), until, limit) is Reading
            },
        },
    decreases bytes.len(),
{
    if bytes.len() > 0 {
        law_what_is_read_as_text(bytes.drop_last(), until, limit);
    }
    lemma_text_read_used(bytes, until, limit);
    law_what_can_be_decoded(bytes);
    let front = bytes.drop_last();
    match text_read(bytes, until, limit) {
        TextRead::Reading => {
            assert forall|text: Seq<char>| #[trigger] encode_utf8(text) == bytes implies !ends_with(
                text,
                until,
            ) by {
                law_decoding_gives_text_back(text);
            }
        },
        TextRead::Invalid => {
            assert forall|k: int| 0 <= k < bytes.len() implies !(text_read(
                #[trigger] bytes.take(k),
                until,
                limit,
            ) is Done) by {
                if text_read(bytes.take(k), until, limit) is Done {
                    lemma_text_read_stable(bytes.take(k), bytes.skip(k), until, limit);
                    assert(bytes.take(k) + bytes.skip(k) =~= bytes);
                }
            }
            if bytes.len() > 0 && text_read(front, until, limit) is Invalid {
                assert forall|text: Seq<char>| !bytes.is_prefix_of(
                    #[trigger] encode_utf8(text),
                ) by {
                    if bytes.is_prefix_of(encode_utf8(text)) {
                        assert(front.is_prefix_of(encode_utf8(text)));
                    }
                }
            }
        },
        TextRead::Done { text, used } => {
            if used < bytes.len() {
                assert(bytes.len() > 0 && text_read(front, until, limit) is Done);
                assert(bytes.take(used as int) =~= front.take(used as int));
                assert forall|k: int| 0 <= k < used implies text_read(
                    #[trigger] bytes.take(k),
                    until,
                    limit,
                ) is Reading by {
                    assert(bytes.take(k) =~= front.take(k));
                }
            } else {
                lemma_read_up_to_here(bytes, until, limit);
                assert(bytes.take(used as int) =~= bytes);
                law_decoding_loses_nothing(bytes);
                lemma_nothing_left_out(bytes);
            }
        },
    }
}

/// Reading that ends with the last byte went on before it.
proof fn lemma_read_up_to_here(bytes: Seq<u8>, until: Seq<char>, limit: nat)
    requires
        text_read(bytes, until, limit) matches TextRead::Done { used, .. } && used == bytes.len(),
    ensures
        scan(bytes).valid,
        text_read(bytes, until, limit) matches TextRead::Done { text, .. } && text == scan(
            bytes,
        ).chars && (ends_with(text, until) || bytes.len() >= limit),
        forall|k: int|
            0 <= k < bytes.len() ==> text_read(#[trigger] bytes.take(k), until, limit) is Reading,
{
    if bytes.len() > 0 {
        let front = bytes.drop_last();
        lemma_text_read_used(front, until, limit);
        assert(text_read(front, until, limit) is Reading);
        assert forall|k: int| 0 <= k < bytes.len() implies text_read(
            #[trigger] bytes.take(k),
            until,
            limit,
        ) is Reading by {
            assert(bytes.take(k) =~= front.take(k));
            lemma_read_before(front, k, until, limit);
        }
    }
}

/// Reading that goes on went on before.
proof fn lemma_read_before(bytes: Seq<u8>, k: int, until: Seq<char>, limit: nat)
    requires
        text_read(bytes, until, limit) is Reading,
        0 <= k <= bytes.len(),
    ensures
        text_read(bytes.take(k), until, limit) is Reading,
    decreases bytes.len(),
{
    if k == bytes.len() {
        assert(bytes.take(k) =~= bytes);
    } else {
        lemma_read_before(bytes.drop_last(), k, until, limit);
        assert(bytes.take(k) =~= bytes.drop_last().take(k));
    }
}

/// Decoding leaves no whole character out.
proof fn lemma_nothing_left_out(bytes: Seq<u8>)
    requires
        scan(bytes).valid,
    ensures
        forall|c: char|
            !(#[trigger] encode_utf8(scan(bytes).chars.push(c))).is_prefix_of(bytes),
{
    let chars = scan(bytes).chars;
    let pending = scan(bytes).pending;
    law_decoding_loses_nothing(bytes);
    lemma_scan_pending(bytes);
    assert forall|c: char| !(#[trigger] encode_utf8(chars.push(c))).is_prefix_of(bytes) by {
        lemma_encode_push(chars, c);
        if encode_utf8(chars.push(c)).is_prefix_of(bytes) {
            let d = choose|d: char|
                pending.len() < (#[trigger] char_bytes(d)).len() && char_bytes(d).take(
                    pending.len() as int,
                ) == pending;
            let len = char_bytes(c).len();
            let before = encode_utf8(chars).len();
            let whole = encode_utf8(chars.push(c));
            assert forall|i: int| 0 <= i < len implies char_bytes(c)[i] == char_bytes(d)[i] by {
                assert(whole[before + i] == char_bytes(c)[i]);
                assert(bytes[before + i] == pending[i]);
                assert(pending[i] == char_bytes(d)[i]);
            }
            assert(char_bytes(c) =~= char_bytes(d).take(len as int));
            lemma_no_char_begins_another(d, len);
            assert(is_char(char_bytes(c)));
        }
    }
}

/// A step of reading is what the model says, and no more of the limit is used than
/// was read.
pub proof fn law_steps_are_what_the_model_says(
    result: Result<TextStep, Error>,
    read: TextReaderModel,
)
    requires
        is_text_step(result, read),
    ensures
        match result {
            Ok(TextStep::More(reader)) => {
                &&& text_read(read.fed, read.until, read.limit) is Reading
                &&& reader@ == read && reader.wf()
            },
            Ok(TextStep::Done { text, left }) => {
                &&& text_read(read.fed, read.until, read.limit) == (TextRead::Done {
                    text: text@,
                    used: read.fed.len(),
                })
                &&& left + read.fed.len() == read.limit
            },
            Err(_) => text_read(read.fed, read.until, read.limit) is Invalid,
        },
{
}

/// The place of a character in the alphabet of base64: capital letters, small ones,
/// digits, plus and slash
pub open spec fn base64_place(c: char) -> int {
    if 'A' <= c <= 'Z' {
        c as int - 'A' as int
    } else if 'a' <= c <= 'z' {
        26 + (c as int - 'a' as int)
    } else if '0' <= c <= '9' {
        52 + (c as int - '0' as int)
    } else if c == '+' {
        62
    } else if c == '/' {
        63
    } else {
        64
    }
}

/// The digit for six bits has that place in the alphabet.
proof fn lemma_base64_place(bits: int)
    requires
        0 <= bits < 64,
    ensures
        base64_place(base64_digit(bits)) == bits,
{
}

/// Base64 writes three bytes as four characters, whose places in the alphabet make
/// the same number; of one or two bytes at the end, the bits that are missing are
/// zero and the characters that are missing are `=`.
pub proof fn law_base64(bytes: Seq<u8>)
    ensures
        ({
            let text = base64_text(bytes);
            let a = base64_place(text[0]);
            let b = base64_place(text[1]);
            let c = base64_place(text[2]);
            let d = base64_place(text[3]);
            &&& bytes.len() == 0 ==> text.len() == 0
            &&& bytes.len() == 1 ==> {
                &&& text.len() == 4 && text[2] == '=' && text[3] == '='
                &&& a < 64 && b < 64 && a * 64 + b == bytes[0] * 16
            }
            &&& bytes.len() == 2 ==> {
                &&& text.len() == 4 && text[3] == '='
                &&& a < 64 && b < 64 && c < 64
                &&& (a * 64 + b) * 64 + c == (bytes[0] * 256 + bytes[1]) * 4
            }
            &&& bytes.len() >= 3 ==> {
                &&& text.len() >= 4
                &&& a < 64 && b < 64 && c < 64 && d < 64
                &&& ((a * 64 + b) * 64 + c) * 64 + d == (bytes[0] * 256 + bytes[1]) * 256 + bytes[2]
                &&& text.subrange(4, text.len() as int) == base64_text(
                    bytes.subrange(3, bytes.len() as int),
                )
            }
        }),
{
    let text = base64_text(bytes);
    let a = bytes[0] as int;
    let b = bytes[1] as int;
    let c = bytes[2] as int;
    lemma_base64_place(a / 4);
    lemma_base64_place(a % 4 * 16);
    lemma_base64_place(a % 4 * 16 + b / 16);
    lemma_base64_place(b % 16 * 4);
    lemma_base64_place(b % 16 * 4 + c / 64);
    lemma_base64_place(c % 64);
    if bytes.len() >= 3 {
        assert(bytes.skip(3) =~= bytes.subrange(3, bytes.len() as int));
        assert(text.subrange(4, text.len() as int) =~= base64_text(bytes.skip(3)));
    }
}

} // verus!
