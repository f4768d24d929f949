//! Base64, as the handshake writes its keys.

use vstd::prelude::*;

verus! {

/// The character for six bits, in the standard alphabet
pub open spec fn base64_digit(bits: int) -> char {
    if bits < 26 {
        (0x41 + bits) as char
    } else if bits < 52 {
        (0x61 + bits - 26) as char
    } else if bits < 62 {
        (0x30 + bits - 52) as char
    } else if bits == 62 {
        '+'
    } else {
        '/'
    }
}

/// The bytes in base64: each three of them as four characters, the rest filled
/// up with `=`
pub open spec fn base64_text(bytes: Seq<u8>) -> Seq<char>
    decreases bytes.len(),
{
    let a = bytes[0] as int;
    let b = bytes[1] as int;
    let c = bytes[2] as int;
    if bytes.len() == 0 {
        seq![]
    } else if bytes.len() == 1 {
        seq![base64_digit(a / 4), base64_digit(a % 4 * 16), '=', '=']
    } else if bytes.len() == 2 {
        seq![
            base64_digit(a / 4),
            base64_digit(a % 4 * 16 + b / 16),
            base64_digit(b % 16 * 4),
            '=',
        ]
    } else {
        seq![
            base64_digit(a / 4),
            base64_digit(a % 4 * 16 + b / 16),
            base64_digit(b % 16 * 4 + c / 64),
            base64_digit(c % 64),
        ] + base64_text(bytes.skip(3))
    }
}

/// Whether the character stands in base64 text
pub open spec fn base64_char(c: char) -> bool {
    'A' <= c <= 'Z' || 'a' <= c <= 'z' || '0' <= c <= '9' || c == '+' || c == '/' || c == '='
}

/// Six bits make a character of base64 text.
proof fn lemma_base64_digit(bits: int)
    requires
        0 <= bits < 64,
    ensures
        base64_char(base64_digit(bits)),
{
}

/// Base64 text holds no other characters.
pub proof fn lemma_base64_chars(bytes: Seq<u8>)
    ensures
        forall|i: int|
            0 <= i < base64_text(bytes).len() ==> base64_char(#[trigger] base64_text(bytes)[i]),
    decreases bytes.len(),
{
    let a = bytes[0] as int;
    let b = bytes[1] as int;
    let c = bytes[2] as int;
    lemma_base64_digit(a / 4);
    lemma_base64_digit(a % 4 * 16);
    lemma_base64_digit(a % 4 * 16 + b / 16);
    lemma_base64_digit(b % 16 * 4);
    lemma_base64_digit(b % 16 * 4 + c / 64);
    lemma_base64_digit(c % 64);
    if bytes.len() >= 3 {
        lemma_base64_chars(bytes.skip(3));
        let rest = base64_text(bytes.skip(3));
        assert forall|i: int| 0 <= i < base64_text(bytes).len() implies base64_char(
            #[trigger] base64_text(bytes)[i],
        ) by {
            if i >= 4 {
                assert(base64_text(bytes)[i] == rest[i - 4]);
            }
        }
    }
}

} // verus!
