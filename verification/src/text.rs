//! Text as characters: cutting it up, comparing it, putting it together.

use crate::outside::{lowercase, to_lowercase};
use vstd::prelude::*;
use vstd::utf8::is_ascii_chars;

verus! {

/// The length of the longest start of the text whose characters all belong
pub open spec fn span(text: Seq<char>, belongs: spec_fn(char) -> bool) -> nat
    decreases text.len(),
{
    if text.len() > 0 && belongs(text[0]) {
        1 + span(text.skip(1), belongs)
    } else {
        0
    }
}

/// What a span is, without recursion.
pub proof fn lemma_span(text: Seq<char>, belongs: spec_fn(char) -> bool, n: nat)
    requires
        n <= text.len(),
        forall|i: int| 0 <= i < n ==> belongs(#[trigger] text[i]),
        n < text.len() ==> !belongs(text[n as int]),
    ensures
        span(text, belongs) == n,
    decreases n,
{
    if n > 0 {
        assert(belongs(text[0]));
        lemma_span(text.skip(1), belongs, (n - 1) as nat);
    }
}

/// A span is no longer than the text.
pub proof fn lemma_span_len(text: Seq<char>, belongs: spec_fn(char) -> bool)
    ensures
        span(text, belongs) <= text.len(),
    decreases text.len(),
{
    if text.len() > 0 && belongs(text[0]) {
        lemma_span_len(text.skip(1), belongs);
    }
}

/// Whether the character is white space in ASCII
pub open spec fn ascii_space(c: char) -> bool {
    c == ' ' || c == '\t' || c == '\n' || c == '\x0C' || c == '\r'
}

/// The first word of the text and what follows it, words being set apart by
/// ASCII white space
pub open spec fn next_word(text: Seq<char>) -> Option<(Seq<char>, Seq<char>)> {
    let start = text.skip(span(text, |c: char| ascii_space(c)) as int);
    let len = span(start, |c: char| !ascii_space(c)) as int;
    if start.len() == 0 {
        None
    } else {
        Some((start.take(len), start.skip(len)))
    }
}

/// The first line of the text, without the line feed that ends it nor a
/// carriage return before that, and what follows it
pub open spec fn next_line(text: Seq<char>) -> (Seq<char>, Seq<char>) {
    let len = span(text, |c: char| c != '\n') as int;
    if len == text.len() {
        (text, seq![])
    } else if len > 0 && text[len - 1] == '\r' {
        (text.take(len - 1), text.skip(len + 1))
    } else {
        (text.take(len), text.skip(len + 1))
    }
}

/// Whether a colon and a space stand at the given place
pub open spec fn colon_at(text: Seq<char>, i: int) -> bool {
    0 <= i && i + 1 < text.len() && text[i] == ':' && text[i + 1] == ' '
}

/// The place of the first colon that a space follows, or the length of the text
pub open spec fn first_colon(text: Seq<char>) -> nat
    decreases text.len(),
{
    if text.len() == 0 || colon_at(text, 0) {
        0
    } else {
        1 + first_colon(text.skip(1))
    }
}

/// What the first colon is, without recursion.
pub proof fn lemma_first_colon(text: Seq<char>, n: nat)
    requires
        n <= text.len(),
        forall|i: int| 0 <= i < n ==> !colon_at(text, i),
        n < text.len() ==> colon_at(text, n as int),
    ensures
        first_colon(text) == n,
    decreases n,
{
    if n > 0 {
        assert(!colon_at(text, 0));
        assert forall|i: int| 0 <= i < n - 1 implies !colon_at(text.skip(1), i) by {
            assert(!colon_at(text, i + 1));
        }
        assert(n < text.len() ==> colon_at(text.skip(1), n - 1));
        lemma_first_colon(text.skip(1), (n - 1) as nat);
    }
}

/// Whether the character has the Unicode property White_Space
pub open spec fn white_space(c: char) -> bool {
    ||| '\u{9}' <= c <= '\u{d}'
    ||| c == '\u{20}'
    ||| c == '\u{85}'
    ||| c == '\u{a0}'
    ||| c == '\u{1680}'
    ||| '\u{2000}' <= c <= '\u{200a}'
    ||| '\u{2028}' <= c <= '\u{2029}'
    ||| c == '\u{202f}'
    ||| c == '\u{205f}'
    ||| c == '\u{3000}'
}

/// The text without white space at its end
pub open spec fn trim_end(text: Seq<char>) -> Seq<char>
    decreases text.len(),
{
    if text.len() > 0 && white_space(text.last()) {
        trim_end(text.drop_last())
    } else {
        text
    }
}

/// The text without white space at its start and end
pub open spec fn trim(text: Seq<char>) -> Seq<char> {
    trim_end(text.skip(span(text, |c: char| white_space(c)) as int))
}

/// The small letter for a capital one, in ASCII
pub open spec fn ascii_lower(c: char) -> char {
    if 'A' <= c <= 'Z' {
        (c as u8 + 0x20) as char
    } else {
        c
    }
}

/// The text in small letters
pub open spec fn lower(text: Seq<char>) -> Seq<char> {
    if is_ascii_chars(text) {
        text.map_values(|c: char| ascii_lower(c))
    } else {
        lowercase(text)
    }
}

/// Whether the texts are equal but for capital and small letters, in ASCII
pub open spec fn same_but_for_case(a: Seq<char>, b: Seq<char>) -> bool {
    &&& a.len() == b.len()
    &&& forall|i: int| 0 <= i < a.len() ==> ascii_lower(#[trigger] a[i]) == ascii_lower(b[i])
}

/// Whether the text ends with the given one
pub open spec fn ends_with(text: Seq<char>, end: Seq<char>) -> bool {
    end.len() <= text.len() && text.skip(text.len() - end.len()) == end
}

/// The decimal digits of a number
pub open spec fn decimal(n: nat) -> Seq<char>
    decreases n,
{
    if n < 10 {
        seq![(0x30 + n) as char]
    } else {
        decimal(n / 10).push((0x30 + n % 10) as char)
    }
}

/// The characters of a text
pub(crate) fn chars_of(text: &str) -> (chars: Vec<char>)
    ensures
        chars@ == text@,
{
    let mut chars: Vec<char> = Vec::new();
    for c in iter: text.chars()
        invariant
            chars@ == text@.take(iter.index()),
            iter.seq() == text@,
    {
        chars.push(c);
    }
    assert(text@.take(text@.len() as int) =~= text@);
    chars
}

/// The text that characters make up
pub(crate) fn string_of(chars: &Vec<char>, start: usize, end: usize) -> (text: String)
    requires
        start <= end <= chars@.len(),
    ensures
        text@ == chars@.subrange(start as int, end as int),
{
    let mut text: String = String::new();
    let mut i: usize = start;
    while i < end
        invariant
            start <= i <= end <= chars@.len(),
            text@ == chars@.subrange(start as int, i as int),
        decreases end - i,
    {
        text.push(chars[i]);
        i += 1;
        assert(text@ =~= chars@.subrange(start as int, i as int));
    }
    text
}

/// Whether two texts are equal
pub(crate) fn same(a: &str, b: &str) -> (equal: bool)
    ensures
        equal == (a@ == b@),
{
    let left: Vec<char> = chars_of(a);
    let right: Vec<char> = chars_of(b);
    if left.len() != right.len() {
        return false;
    }
    let mut i: usize = 0;
    while i < left.len()
        invariant
            left@ == a@,
            right@ == b@,
            i <= left@.len() == right@.len(),
            forall|j: int| 0 <= j < i ==> left@[j] == right@[j],
        decreases left@.len() - i,
    {
        if left[i] != right[i] {
            return false;
        }
        i += 1;
    }
    assert(left@ =~= right@);
    true
}

/// The small letter for a capital one, in ASCII
fn to_ascii_lower(c: char) -> (lower: char)
    ensures
        lower == ascii_lower(c),
{
    if 'A' <= c && c <= 'Z' {
        (c as u8 + 0x20) as char
    } else {
        c
    }
}

/// The text in small letters
pub(crate) fn lowered(text: &str) -> (result: String)
    ensures
        result@ == lower(text@),
{
    to_lowercase(text)
}

/// Whether two texts are equal but for capital and small letters, in ASCII
pub(crate) fn eq_ignore_ascii_case(a: &str, b: &str) -> (equal: bool)
    ensures
        equal == same_but_for_case(a@, b@),
{
    let left: Vec<char> = chars_of(a);
    let right: Vec<char> = chars_of(b);
    if left.len() != right.len() {
        return false;
    }
    let mut i: usize = 0;
    while i < left.len()
        invariant
            left@ == a@,
            right@ == b@,
            i <= left@.len() == right@.len(),
            forall|j: int|
                0 <= j < i ==> ascii_lower(#[trigger] left@[j]) == ascii_lower(right@[j]),
        decreases left@.len() - i,
    {
        if to_ascii_lower(left[i]) != to_ascii_lower(right[i]) {
            return false;
        }
        i += 1;
    }
    true
}

/// Whether the character is white space in ASCII
fn is_ascii_space(c: char) -> (result: bool)
    ensures
        result == ascii_space(c),
{
    c == ' ' || c == '\t' || c == '\n' || c == '\x0C' || c == '\r'
}

/// Whether the character has the Unicode property White_Space
fn is_white_space(c: char) -> (result: bool)
    ensures
        result == white_space(c),
{
    ('\u{9}' <= c && c <= '\u{d}') || c == '\u{20}' || c == '\u{85}' || c == '\u{a0}' || c
        == '\u{1680}' || ('\u{2000}' <= c && c <= '\u{200a}') || ('\u{2028}' <= c && c
        <= '\u{2029}') || c == '\u{202f}' || c == '\u{205f}' || c == '\u{3000}'
}

/// Where the first word from `start` on begins and ends
pub(crate) fn find_word(chars: &Vec<char>, start: usize) -> (place: Option<(usize, usize)>)
    requires
        start <= chars@.len(),
    ensures
        match (place, next_word(chars@.skip(start as int))) {
            (Some((first, end)), Some((word, rest))) => {
                &&& start <= first <= end <= chars@.len()
                &&& word == chars@.subrange(first as int, end as int)
                &&& rest == chars@.skip(end as int)
            },
            (None, None) => true,
            _ => false,
        },
{
    let ghost text = chars@.skip(start as int);
    let mut first: usize = start;
    while first < chars.len() && is_ascii_space(chars[first])
        invariant
            start <= first <= chars@.len(),
            text == chars@.skip(start as int),
            forall|i: int| 0 <= i < first - start ==> ascii_space(#[trigger] text[i]),
        decreases chars@.len() - first,
    {
        first += 1;
    }
    let ghost begin = chars@.skip(first as int);
    proof {
        lemma_span(text, |c: char| ascii_space(c), (first - start) as nat);
        assert(text.skip(first - start) =~= begin);
    }
    if first == chars.len() {
        return None;
    }
    let mut end: usize = first;
    while end < chars.len() && !is_ascii_space(chars[end])
        invariant
            first <= end <= chars@.len(),
            begin == chars@.skip(first as int),
            forall|i: int| 0 <= i < end - first ==> !ascii_space(#[trigger] begin[i]),
        decreases chars@.len() - end,
    {
        end += 1;
    }
    proof {
        lemma_span(begin, |c: char| !ascii_space(c), (end - first) as nat);
        assert(begin.take(end - first) =~= chars@.subrange(first as int, end as int));
        assert(begin.skip(end - first) =~= chars@.skip(end as int));
    }
    Some((first, end))
}

/// Where the line from `start` on ends, and where the next one begins
pub(crate) fn find_line(chars: &Vec<char>, start: usize) -> (place: (usize, usize))
    requires
        start <= chars@.len(),
    ensures
        start <= place.0 <= place.1 <= chars@.len(),
        start < chars@.len() ==> start < place.1,
        next_line(chars@.skip(start as int)) == (
            chars@.subrange(start as int, place.0 as int),
            chars@.skip(place.1 as int),
        ),
{
    let ghost text = chars@.skip(start as int);
    let mut end: usize = start;
    while end < chars.len() && chars[end] != '\n'
        invariant
            start <= end <= chars@.len(),
            text == chars@.skip(start as int),
            forall|i: int| 0 <= i < end - start ==> #[trigger] text[i] != '\n',
        decreases chars@.len() - end,
    {
        end += 1;
    }
    proof {
        lemma_span(text, |c: char| c != '\n', (end - start) as nat);
        assert(text.take(end - start) =~= chars@.subrange(start as int, end as int));
    }
    if end == chars.len() {
        assert(text =~= chars@.subrange(start as int, end as int));
        assert(chars@.skip(end as int) =~= seq![]);
        return (end, end);
    }
    assert(text.skip(end - start + 1) =~= chars@.skip(end + 1));
    if end > start && chars[end - 1] == '\r' {
        assert(text[end - start - 1] == '\r');
        assert(text.take(end - start - 1) =~= chars@.subrange(start as int, end - 1));
        (end - 1, end + 1)
    } else {
        (end, end + 1)
    }
}

/// Where the first colon that a space follows stands between `start` and `end`,
/// or `end`
pub(crate) fn find_colon(chars: &Vec<char>, start: usize, end: usize) -> (place: usize)
    requires
        start <= end <= chars@.len(),
    ensures
        start <= place <= end,
        place < end ==> place + 1 < end,
        place - start == first_colon(chars@.subrange(start as int, end as int)),
{
    let ghost text = chars@.subrange(start as int, end as int);
    let mut i: usize = start;
    while i < end
        invariant
            start <= i <= end <= chars@.len(),
            text == chars@.subrange(start as int, end as int),
            forall|j: int| 0 <= j < i - start ==> !colon_at(text, j),
        decreases end - i,
    {
        if end - i >= 2 && chars[i] == ':' && chars[i + 1] == ' ' {
            assert(colon_at(text, i - start));
            proof {
                lemma_first_colon(text, (i - start) as nat);
            }
            return i;
        }
        assert(!colon_at(text, i - start));
        i += 1;
    }
    proof {
        lemma_first_colon(text, (end - start) as nat);
    }
    end
}

/// The text without white space at its start and end
pub(crate) fn trimmed(text: &str) -> (result: String)
    ensures
        result@ == trim(text@),
{
    let chars: Vec<char> = chars_of(text);
    let ghost belongs = |c: char| white_space(c);
    let mut start: usize = 0;
    while start < chars.len() && is_white_space(chars[start])
        invariant
            start <= chars@.len(),
            forall|i: int|
                0 <= i < start ==> white_space(#[trigger] chars@[i]),
        decreases chars@.len() - start,
    {
        start += 1;
    }
    proof {
        lemma_span(chars@, belongs, start as nat);
    }
    let mut end: usize = chars.len();
    assert(chars@.skip(start as int) =~= chars@.subrange(start as int, end as int));
    while end > start && is_white_space(chars[end - 1])
        invariant
            start <= end <= chars@.len(),
            trim_end(chars@.skip(start as int)) == trim_end(
                chars@.subrange(start as int, end as int),
            ),
        decreases end,
    {
        assert(chars@.subrange(start as int, end as int).drop_last() =~= chars@.subrange(
            start as int,
            end - 1,
        ));
        end -= 1;
    }
    string_of(&chars, start, end)
}

/// The decimal digits of a number
pub(crate) fn to_decimal(n: u16) -> (text: String)
    ensures
        text@ == decimal(n as nat),
    decreases n,
{
    let mut text: String = if n < 10 {
        String::new()
    } else {
        to_decimal(n / 10)
    };
    text.push((0x30u8 + (n % 10) as u8) as char);
    assert(text@ =~= decimal(n as nat));
    text
}

} // verus!
