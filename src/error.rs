//! The errors of the codec.
use vstd::prelude::*;

verus! {

/// Every fatal condition of loading, decoding, formatting and encoding.
#[derive(Debug)]
pub enum BBScriptError {
    /// A catalog file could not be opened: its path and the reason.
    ConfigOpenError(String, String),
    /// A catalog could not be read: the reason.
    ConfigInvalid(String),
    /// Instruction names that occur more than once in a catalog.
    ConfigDuplicateName(Vec<String>),
    /// A name that two enum tables of a catalog share.
    ConfigDuplicateEnum(String),
    BadInputFile(String),
    OutputAlreadyExists(String),
    UnknownInstructionName(String),
    UnknownInstructionID(u32),
    NoVariableName(String),
    /// A named variant given for an argument (its index) that the instruction (its ID)
    /// does not declare as an enum.
    NoEnum(usize, u32),
    /// An enum argument naming a map that the catalog lacks.
    BadEnumReference(String),
    /// A variant (first) that the enum (second) does not have.
    NoAssociatedValue(String, String),
    /// The jump table would take this many bytes, at least all that remain.
    IncorrectJumpTableSize(String),
    /// An instruction, the size its arguments give and the size the catalog declares.
    IncorrectFunctionSize(String, usize, usize),
    /// The input ends inside a field or a record.
    UnexpectedEnd,
    /// An instruction (its ID) whose known arguments take more bytes (first) than
    /// its record has room for (second: the record's size).
    ArgumentsExceedSize(u32, usize, usize),
    /// A fixed string of this many bytes given where this many fit.
    StringTooLong(usize, usize),
    /// A size or an offset that does not fit the 32-bit fields of the format.
    StreamTooLarge(usize),
    /// A line of text (its number, counted from 1) that the script syntax does not accept.
    SyntaxError(usize),
}

/// `BBScriptError` with its text as sequences of characters.
pub enum ErrorView {
    ConfigOpenError(Seq<char>, Seq<char>),
    ConfigInvalid(Seq<char>),
    ConfigDuplicateName(Seq<Seq<char>>),
    ConfigDuplicateEnum(Seq<char>),
    BadInputFile(Seq<char>),
    OutputAlreadyExists(Seq<char>),
    UnknownInstructionName(Seq<char>),
    UnknownInstructionID(u32),
    NoVariableName(Seq<char>),
    NoEnum(usize, u32),
    BadEnumReference(Seq<char>),
    NoAssociatedValue(Seq<char>, Seq<char>),
    IncorrectJumpTableSize(Seq<char>),
    IncorrectFunctionSize(Seq<char>, usize, usize),
    UnexpectedEnd,
    ArgumentsExceedSize(u32, usize, usize),
    StringTooLong(usize, usize),
    StreamTooLarge(usize),
    SyntaxError(usize),
}

impl View for BBScriptError {
    type V = ErrorView;

    open spec fn view(&self) -> ErrorView {
        match self {
            BBScriptError::ConfigOpenError(a, b) => ErrorView::ConfigOpenError(a@, b@),
            BBScriptError::ConfigInvalid(a) => ErrorView::ConfigInvalid(a@),
            BBScriptError::ConfigDuplicateName(v) => ErrorView::ConfigDuplicateName(
                v@.map_values(|s: String| s@),
            ),
            BBScriptError::ConfigDuplicateEnum(a) => ErrorView::ConfigDuplicateEnum(a@),
            BBScriptError::BadInputFile(a) => ErrorView::BadInputFile(a@),
            BBScriptError::OutputAlreadyExists(a) => ErrorView::OutputAlreadyExists(a@),
            BBScriptError::UnknownInstructionName(a) => ErrorView::UnknownInstructionName(a@),
            BBScriptError::UnknownInstructionID(id) => ErrorView::UnknownInstructionID(*id),
            BBScriptError::NoVariableName(a) => ErrorView::NoVariableName(a@),
            BBScriptError::NoEnum(i, id) => ErrorView::NoEnum(*i, *id),
            BBScriptError::BadEnumReference(a) => ErrorView::BadEnumReference(a@),
            BBScriptError::NoAssociatedValue(a, b) => ErrorView::NoAssociatedValue(a@, b@),
            BBScriptError::IncorrectJumpTableSize(a) => ErrorView::IncorrectJumpTableSize(a@),
            BBScriptError::IncorrectFunctionSize(a, x, y) => ErrorView::IncorrectFunctionSize(
                a@,
                *x,
                *y,
            ),
            BBScriptError::UnexpectedEnd => ErrorView::UnexpectedEnd,
            BBScriptError::ArgumentsExceedSize(id, x, y) => ErrorView::ArgumentsExceedSize(
                *id,
                *x,
                *y,
            ),
            BBScriptError::StringTooLong(x, y) => ErrorView::StringTooLong(*x, *y),
            BBScriptError::StreamTooLarge(x) => ErrorView::StreamTooLarge(*x),
            BBScriptError::SyntaxError(x) => ErrorView::SyntaxError(*x),
        }
    }
}

} // verus!
