//! Source positions attached to the nodes of the intermediate representations.
use vstd::prelude::*;
use vstd::string::StringExecFns;

verus! {

/// A range of bytes in a source text.
#[derive(Debug, Copy, Clone, PartialEq, Eq, Structural)]
pub struct Span {
    pub byte_start: usize,
    pub byte_end: usize,
}

impl Span {
    pub fn new(byte_start: usize, byte_end: usize) -> (span: Span)
        ensures
            span.byte_start == byte_start,
            span.byte_end == byte_end,
    {
        Span { byte_start, byte_end }
    }

    /// The span that marks a position that has not been assigned.
    pub open spec fn spec_sentinel() -> Span {
        Span { byte_start: usize::MAX, byte_end: usize::MAX }
    }

    /// The span of a node that the compiler itself generated.
    pub open spec fn spec_internal() -> Span {
        Span { byte_start: 0, byte_end: 0 }
    }

    #[verifier::when_used_as_spec(spec_sentinel)]
    pub fn sentinel() -> (span: Span)
        ensures
            span == Span::spec_sentinel(),
    {
        Span { byte_start: usize::MAX, byte_end: usize::MAX }
    }

    #[verifier::when_used_as_spec(spec_internal)]
    pub fn internal() -> (span: Span)
        ensures
            span == Span::spec_internal(),
    {
        Span { byte_start: 0, byte_end: 0 }
    }
}

/// A node together with the span of source text that it came from.
#[derive(Debug, Clone)]
pub struct Spanned<T> {
    pub node: T,
    pub span: Span,
}

impl<T> Spanned<T> {
    pub fn new(node: T, span: Span) -> (spanned: Spanned<T>)
        ensures
            spanned.node == node,
            spanned.span == span,
    {
        Spanned { node, span }
    }
}

/// A text whose byte offsets spans refer to.
#[derive(Debug)]
pub struct TextMap {
    text: String,
}

impl TextMap {
    pub closed spec fn spec_text(&self) -> Seq<char> {
        self.text@
    }

    pub fn new(text: String) -> (map: TextMap)
        ensures
            map.spec_text() == text@,
    {
        TextMap { text }
    }

    pub fn text(&self) -> (text: &str)
        ensures
            text@ == self.spec_text(),
    {
        self.text.as_str()
    }
}

/// The character of a decimal digit.
pub open spec fn digit_char(d: nat) -> char {
    if d == 0 { '0' }
    else if d == 1 { '1' }
    else if d == 2 { '2' }
    else if d == 3 { '3' }
    else if d == 4 { '4' }
    else if d == 5 { '5' }
    else if d == 6 { '6' }
    else if d == 7 { '7' }
    else if d == 8 { '8' }
    else { '9' }
}

/// The decimal numeral of a natural number, without leading zeros.
pub open spec fn decimal(n: nat) -> Seq<char>
    decreases n,
{
    if n < 10 {
        seq![digit_char(n)]
    } else {
        decimal(n / 10).push(digit_char(n % 10))
    }
}

/// Writes `n` in decimal with `u64::to_string` (std's `Display` for `u64`).
/// Trusted: std documents that an unsigned integer displays as its decimal
/// numeral, with no sign and no leading zeros.
#[verifier::external_body]
pub(crate) fn decimal_text(n: u64) -> (text: String)
    ensures
        text@ == decimal(n as nat),
{
    n.to_string()
}

/// The character of a hexadecimal digit, in lower case.
pub open spec fn hex_digit_char(d: nat) -> char {
    if d < 10 { digit_char(d) }
    else if d == 10 { 'a' }
    else if d == 11 { 'b' }
    else if d == 12 { 'c' }
    else if d == 13 { 'd' }
    else if d == 14 { 'e' }
    else { 'f' }
}

/// The hexadecimal numeral of a natural number, in lower case, without leading zeros.
pub open spec fn hexadecimal(n: nat) -> Seq<char>
    decreases n,
{
    if n < 16 {
        seq![hex_digit_char(n)]
    } else {
        hexadecimal(n / 16).push(hex_digit_char(n % 16))
    }
}

/// Writes `n` with `format!("{:#x}", n)` (std's `LowerHex` with the alternate
/// flag). Trusted: std documents that this writes `0x` followed by the
/// number in lower-case hexadecimal digits, with no leading zeros.
#[verifier::external_body]
pub(crate) fn hex_text(n: u64) -> (text: String)
    ensures
        text@ == seq!['0', 'x'] + hexadecimal(n as nat),
{
    format!("{:#x}", n)
}

/// The text of `prefix` followed by the decimal numeral of `n` and then `suffix`.
pub fn numbered_text(prefix: &str, n: usize, suffix: &str) -> (text: String)
    ensures
        text@ == prefix@ + decimal(n as nat) + suffix@,
{
    let mut text = String::from_str(prefix);
    let number = decimal_text(n as u64);
    text.append(number.as_str());
    text.append(suffix);
    text
}

} // verus!
