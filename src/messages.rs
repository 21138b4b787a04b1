//! Human-readable descriptions of parse errors.
use vstd::prelude::*;
use vstd::string::StringExecFns;
use crate::ast::ParserError;

verus! {

/// The character of a decimal digit.
pub open spec fn digit_char(d: nat) -> char {
    (d + '0' as nat) as char
}

/// The decimal digits of `n`, most significant first, without leading zeros.
pub open spec fn decimal(n: nat) -> Seq<char>
    decreases n,
{
    if n < 10 {
        seq![digit_char(n)]
    } else {
        decimal(n / 10).push(digit_char(n % 10))
    }
}

/// The text that describes error `e`.
pub open spec fn message_text(e: ParserError) -> Seq<char> {
    match e {
        ParserError::InvalidEscape(pos, ch) => "Invalid escape sequence at position "@ + decimal(
            pos as nat,
        ) + ": '"@ + seq![ch, '\''],
        ParserError::InvalidRightParen(pos) => "Invalid right parenthesis at position "@ + decimal(
            pos as nat,
        ),
        ParserError::NoPrev(pos) => "No previous character at position "@ + decimal(pos as nat),
        ParserError::NoRightParen => "No right parenthesis"@,
        ParserError::Empty => "Empty pattern"@,
    }
}

/// Relies on `String::push`, which appends one character to the string.
#[verifier::external_body]
fn push_char(s: &mut String, c: char)
    ensures
        final(s)@ == old(s)@.push(c),
{
    s.push(c)
}

/// Appends the decimal digits of `n` to `s`.
fn push_decimal(s: &mut String, n: usize)
    ensures
        final(s)@ == old(s)@ + decimal(n as nat),
    decreases n,
{
    if n >= 10 {
        push_decimal(s, n / 10);
    }
    let d = (n % 10) as u8;
    // 48 is the code of '0'.
    push_char(s, (48u8 + d) as char);
    proof {
        assert(final(s)@ =~= old(s)@ + decimal(n as nat));
    }
}

impl ParserError {
    /// A sentence that describes the error, with its position where it has one.
    pub fn message(&self) -> (r: String)
        ensures
            r@ == message_text(*self),
    {
        match *self {
            ParserError::InvalidEscape(pos, ch) => {
                let mut s = String::from_str("Invalid escape sequence at position ");
                push_decimal(&mut s, pos);
                s.append(": '");
                push_char(&mut s, ch);
                push_char(&mut s, '\'');
                proof {
                    assert(s@ =~= message_text(*self));
                }
                s
            },
            ParserError::InvalidRightParen(pos) => {
                let mut s = String::from_str("Invalid right parenthesis at position ");
                push_decimal(&mut s, pos);
                s
            },
            ParserError::NoPrev(pos) => {
                let mut s = String::from_str("No previous character at position ");
                push_decimal(&mut s, pos);
                s
            },
            ParserError::NoRightParen => String::from_str("No right parenthesis"),
            ParserError::Empty => String::from_str("Empty pattern"),
        }
    }
}

} // verus!
