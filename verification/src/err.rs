use vstd::prelude::*;

verus! {

/// `std::num::ParseIntError`, carried through as the cause of a failed integer read.
#[verifier::external_type_specification]
#[verifier::external_body]
pub struct ExParseIntError(std::num::ParseIntError);

/// `std::num::ParseFloatError`, carried through as the cause of a failed float read.
#[verifier::external_type_specification]
#[verifier::external_body]
pub struct ExParseFloatError(std::num::ParseFloatError);

/// `<ParseIntError as Clone>::clone`: nothing is claimed of the copy.
pub assume_specification[ <std::num::ParseIntError as Clone>::clone ](
    e: &std::num::ParseIntError,
) -> std::num::ParseIntError;

/// `<ParseFloatError as Clone>::clone`: nothing is claimed of the copy.
pub assume_specification[ <std::num::ParseFloatError as Clone>::clone ](
    e: &std::num::ParseFloatError,
) -> std::num::ParseFloatError;

/// Why a text is not an integer: the kinds of std's `IntErrorKind`, `Other` standing for
/// any kind std may add.
#[derive(Debug, Clone, Copy, PartialEq, Eq, Structural)]
pub enum IntErrorKind {
    Empty,
    InvalidDigit,
    PosOverflow,
    NegOverflow,
    Zero,
    Other,
}

/// Everything that can go wrong while reading or writing CQ codes.
#[derive(Debug, Clone)]
pub enum Error {
    UnsupportedType(String),
    /// std's error and its kind.
    ParseIntError(std::num::ParseIntError, IntErrorKind),
    ParseFloatError(std::num::ParseFloatError),
    ExpectedCQCode,
    /// `MismatchedValueType(found, expected)`
    MismatchedValueType(String, String),
    MissingCodeType,
    MissingValue,
    ExpectedDelimiter,
    ExpectedCodeType,
    ExpectedCodeComma,
    ExpectedCodeColon,
    ExpectedCodeStart,
    ExpectedCodeEnd,
    UnknownEscaping(String),
    /// `UnknownValue(found, expected type)`
    UnknownValue(String, String),
    Eof,
    Custom(String),
}

/// The mathematical picture of an [`Error`]: the same variants, texts as character sequences.
pub enum ErrorView {
    UnsupportedType(Seq<char>),
    ParseIntError(IntErrorKind),
    ParseFloatError,
    ExpectedCQCode,
    MismatchedValueType(Seq<char>, Seq<char>),
    MissingCodeType,
    MissingValue,
    ExpectedDelimiter,
    ExpectedCodeType,
    ExpectedCodeComma,
    ExpectedCodeColon,
    ExpectedCodeStart,
    ExpectedCodeEnd,
    UnknownEscaping(Seq<char>),
    UnknownValue(Seq<char>, Seq<char>),
    Eof,
    Custom(Seq<char>),
}

impl View for Error {
    type V = ErrorView;

    open spec fn view(&self) -> ErrorView {
        match self {
            Error::UnsupportedType(s) => ErrorView::UnsupportedType(s@),
            Error::ParseIntError(_, k) => ErrorView::ParseIntError(*k),
            Error::ParseFloatError(_) => ErrorView::ParseFloatError,
            Error::ExpectedCQCode => ErrorView::ExpectedCQCode,
            Error::MismatchedValueType(a, b) => ErrorView::MismatchedValueType(a@, b@),
            Error::MissingCodeType => ErrorView::MissingCodeType,
            Error::MissingValue => ErrorView::MissingValue,
            Error::ExpectedDelimiter => ErrorView::ExpectedDelimiter,
            Error::ExpectedCodeType => ErrorView::ExpectedCodeType,
            Error::ExpectedCodeComma => ErrorView::ExpectedCodeComma,
            Error::ExpectedCodeColon => ErrorView::ExpectedCodeColon,
            Error::ExpectedCodeStart => ErrorView::ExpectedCodeStart,
            Error::ExpectedCodeEnd => ErrorView::ExpectedCodeEnd,
            Error::UnknownEscaping(s) => ErrorView::UnknownEscaping(s@),
            Error::UnknownValue(a, b) => ErrorView::UnknownValue(a@, b@),
            Error::Eof => ErrorView::Eof,
            Error::Custom(s) => ErrorView::Custom(s@),
        }
    }
}

} // verus!
