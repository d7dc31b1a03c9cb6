//! What can go wrong reading a document.

use vstd::prelude::*;

verus! {

/// A failure to read something, with what it was and why.
#[derive(Debug)]
pub enum PdfError {
    /// A stream filter refused its input (7.4).
    Filter {
        /// The filter's name, as the stream wrote it.
        filter: String,
        /// Why, in words.
        message: String,
    },
    /// A value was not of the form a reader needs.
    Other(String),
    /// The syntax could not be read at this byte offset.
    Parse {
        /// Where.
        pos: u64,
        /// Why.
        message: String,
    },
    /// An object the document names is not in it.
    Arena(String),
}

/// What reading gives: the value, or why there is none.
pub type PdfResult<T> = Result<T, PdfError>;

/// A string holding one character.
#[verifier::external_body]
pub fn char_text(c: char) -> (r: String)
    ensures
        r@ == seq![c],
{
    String::from(c)
}

/// A string holding the characters of `s`.
pub fn text(s: &str) -> (r: String)
    ensures
        r@ == s@,
{
    s.to_owned()
}

/// `a` followed by `b`.
pub fn concat(a: String, b: &str) -> (r: String)
    ensures
        r@ == a@ + b@,
{
    let mut out = a;
    out.append(b);
    out
}

/// The decimal digits of `n`, most significant first, with no leading zero.
pub open spec fn decimal(n: nat) -> Seq<char>
    decreases n,
{
    if n < 10 {
        seq![digit_char(n)]
    } else {
        decimal(n / 10) + seq![digit_char(n % 10)]
    }
}

/// The character of one decimal digit.
pub open spec fn digit_char(d: nat) -> char {
    ((48 + d) as u8) as char
}

/// `n` written in decimal.
pub fn decimal_text(n: u64) -> (r: String)
    ensures
        r@ == decimal(n as nat),
    decreases n,
{
    let d = (n % 10) as u8;
    let c = (48 + d) as char;
    if n < 10 {
        char_text(c)
    } else {
        let head = decimal_text(n / 10);
        concat(head, char_text(c).as_str())
    }
}

/// A filter's refusal, naming the filter and the reason.
pub fn filter_error(filter: &str, message: String) -> (e: PdfError)
    ensures
        e matches PdfError::Filter { filter: f, message: m } && f@ == filter@ && m == message,
{
    PdfError::Filter { filter: text(filter), message }
}

/// What an error says, in words.
pub open spec fn error_text(e: PdfError) -> Seq<char> {
    match e {
        PdfError::Filter { filter, message } => filter@ + ": "@ + message@,
        PdfError::Other(m) => m@,
        PdfError::Parse { pos, message } => "at byte "@ + decimal(pos as nat) + ": "@ + message@,
        PdfError::Arena(m) => m@,
    }
}

impl PdfError {
    /// What the error says, in words: the filter and its reason, the position and its
    /// reason, or the message.
    pub fn message(&self) -> (r: String)
        ensures
            r@ == error_text(*self),
    {
        match self {
            PdfError::Filter { filter, message } => concat(concat(text(filter.as_str()), ": "), message.as_str()),
            PdfError::Other(m) => text(m.as_str()),
            PdfError::Parse { pos, message } => concat(
                concat(concat(text("at byte "), decimal_text(*pos).as_str()), ": "),
                message.as_str(),
            ),
            PdfError::Arena(m) => text(m.as_str()),
        }
    }
}

} // verus!
