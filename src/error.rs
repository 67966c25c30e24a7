//! Errors returned by the library.
use vstd::prelude::*;

verus! {

/// Why a pattern (or a replacement template) is malformed.
#[derive(Debug, PartialEq, Eq)]
pub enum SyntaxReason {
    /// A backslash ends the text.
    BadEscapeAtEnd,
    /// A backslash before a letter or digit that has no meaning.
    BadEscape,
    /// A reference to a group number that does not exist.
    InvalidGroupReference,
    /// A reference to a group name that was never declared.
    UnknownGroupName,
    /// A `[` without its `]`.
    UnterminatedCharacterSet,
    /// A class range whose end comes before its start, or whose end is a
    /// shorthand class.
    BadCharacterRange,
    /// A group name without its closing `>`.
    MissingGreaterThan,
    /// `\g` in a template without `<`.
    MissingLessThan,
    /// A group name that is empty or holds other than letters, digits and `_`.
    BadGroupName,
    /// A named reference without its closing `)`.
    UnterminatedName,
    /// `(?` followed by something that is not a known group form.
    UnknownExtension,
    /// An opening parenthesis without its `)`.
    MissingClosingParenthesis,
    /// A `)` without its opening parenthesis.
    UnbalancedParenthesis,
    /// A quantifier with nothing before it to repeat.
    NothingToRepeat,
    /// A quantifier directly after another.
    MultipleRepeat,
    /// A counted repetition whose minimum exceeds its maximum.
    MinRepeatGreaterThanMax,
}

/// Why a well-formed pattern cannot be compiled.
#[derive(Debug, PartialEq, Eq)]
pub enum CompileReason {
    /// A group name is defined twice.
    DuplicateGroupName,
    TooManyGroups,
    PatternTooLong,
}

/// What went wrong: a malformed pattern, a pattern that cannot be compiled,
/// or a group looked up by an index or a name that the pattern does not have.
#[derive(Debug, PartialEq, Eq)]
pub enum RegexError {
    PatternSyntax { position: usize, message: SyntaxReason },
    Compile { reason: CompileReason },
    GroupIndex { requested: usize, max: usize },
    GroupName { name: String },
}

} // verus!
