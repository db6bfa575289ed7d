use vstd::prelude::*;

verus! {

/// The failure kinds the builder and its leaf parsers can report.
/// `UnexpectedCharacter` is the only kind the dispatch raises itself;
/// the others surface unchanged from the leaf parsers and the
/// structural pre-scan.
#[derive(PartialEq, Eq, Structural, Clone, Copy, Debug)]
pub enum ErrorType {
    /// The dispatch byte cannot start a JSON value.
    UnexpectedCharacter,
    /// The cursor ran out of tokens where a value was required.
    UnexpectedEnd,
    /// A string token has no closing quote inside the buffer.
    UnterminatedString,
    /// A numeric token is not an integer this core can represent.
    InvalidNumber,
    /// A backslash is followed by an unsupported escape byte.
    InvalidEscape,
    /// A literal token is not exactly `null`, `true` or `false`.
    InvalidLiteral,
    /// Brackets do not pair up, or a token is malformed.
    Syntax,
    /// Containers nest deeper than the configured limit.
    NestingTooDeep,
}

} // verus!
