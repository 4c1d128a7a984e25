//! Small pieces of text handling.

use vstd::prelude::*;
use vstd::string::*;
use vstd::utf8::*;

verus! {

/// `String::push` appends one character to the end of the string.
pub assume_specification[ String::push ](s: &mut String, c: char)
    ensures
        final(s)@ == old(s)@.push(c),
;

/// The text that `String::from_utf8_lossy` makes of arbitrary bytes.
pub uninterp spec fn lossy_text(bytes: Seq<u8>) -> Seq<char>;

/// `String::from_utf8_lossy`: bytes that are valid UTF-8 are decoded as they
/// are; elsewhere replacement characters are put in.
#[verifier::external_body]
pub(crate) fn from_utf8_lossy(bytes: &[u8]) -> (s: String)
    ensures
        s@ == lossy_text(bytes@),
        valid_utf8(bytes@) ==> s@ == decode_utf8(bytes@),
{
    String::from_utf8_lossy(bytes).into_owned()
}

/// `text` is what `bytes` are decoded to: where they are valid UTF-8, the text
/// that they encode.
pub open spec fn is_decoded(text: Seq<char>, bytes: Seq<u8>) -> bool {
    text == lossy_text(bytes) && (valid_utf8(bytes) ==> text == decode_utf8(bytes))
}

/// The decimal digits.
pub open spec fn digits() -> Seq<char> {
    seq!['0', '1', '2', '3', '4', '5', '6', '7', '8', '9']
}

/// `n` in decimal.
pub open spec fn decimal_text(n: nat) -> Seq<char>
    decreases n,
{
    if n < 10 {
        seq![digits()[n as int]]
    } else {
        decimal_text(n / 10).push(digits()[(n % 10) as int])
    }
}

fn digit(n: u64) -> (c: char)
    requires
        n < 10,
    ensures
        c == digits()[n as int],
{
    if n == 0 {
        '0'
    } else if n == 1 {
        '1'
    } else if n == 2 {
        '2'
    } else if n == 3 {
        '3'
    } else if n == 4 {
        '4'
    } else if n == 5 {
        '5'
    } else if n == 6 {
        '6'
    } else if n == 7 {
        '7'
    } else if n == 8 {
        '8'
    } else {
        '9'
    }
}

/// Appends `n` in decimal.
pub fn push_decimal(s: &mut String, n: u64)
    ensures
        final(s)@ == old(s)@ + decimal_text(n as nat),
    decreases n,
{
    if n >= 10 {
        push_decimal(s, n / 10);
    }
    s.push(digit(n % 10));
    assert(s@ =~= old(s)@ + decimal_text(n as nat));
}

/// The characters of a string.
pub fn chars_of(s: &str) -> (chars: Vec<char>)
    ensures
        chars@ == s@,
{
    let mut chars: Vec<char> = Vec::new();
    for c in it: s.chars()
        invariant
            it.seq() == s@,
            chars@.len() == it.index(),
            forall|i: int| 0 <= i < chars@.len() ==> #[trigger] chars@[i] == it.seq()[i],
    {
        chars.push(c);
    }
    assert(chars@ =~= s@);
    chars
}

/// The decimal digits of a number: a single digit stands for itself, and a digit
/// behind a number makes ten times that number and the digit.
pub proof fn law_decimal(n: nat, digit: nat)
    requires
        digit < 10,
    ensures
        decimal_text(digit) == seq![(0x30 + digit) as char],
        n > 0 ==> decimal_text(10 * n + digit) == decimal_text(n).push((0x30 + digit) as char),
{
    assert(digits()[digit as int] == (0x30 + digit) as char);
    if n > 0 {
        assert((10 * n + digit) / 10 == n && (10 * n + digit) % 10 == digit);
    }
}

/// Bytes that are valid UTF-8 are decoded to the text that they encode.
pub proof fn law_valid_text_is_kept(text: Seq<char>, bytes: Seq<u8>)
    requires
        is_decoded(text, bytes),
        valid_utf8(bytes),
    ensures
        text == decode_utf8(bytes),
{
}

} // verus!
