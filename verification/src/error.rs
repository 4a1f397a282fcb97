use vstd::prelude::*;

verus! {

/// Why a decode attempt did not produce a value.
///
/// `Incomplete` is not a failure of the stream: the bytes seen so far are a
/// proper beginning of a frame and more are needed. Every other variant is
/// fatal for the stream.
#[derive(Clone, Copy, Debug, PartialEq, Eq, Structural)]
pub enum CodecError {
    /// The input ends before the frame does.
    Incomplete,
    /// The frame starts with a byte that names no kind of value.
    InvalidTag,
    /// A line that has to be text is not UTF-8.
    InvalidEncoding,
    /// A line that has to be a number is not one, or a length is below -1.
    InvalidNumber,
    /// A line is longer than the scanner allows.
    FrameTooLarge,
    /// The two bytes after a counted payload are not CR LF.
    MissingTerminator,
}

impl CodecError {
    /// Whether the stream can go on after this outcome.
    pub open spec fn is_fatal(self) -> bool {
        self != CodecError::Incomplete
    }
}

/// Why a decoded reply has no reading as a publish/subscribe event.
#[derive(Clone, Copy, Debug, PartialEq, Eq, Structural)]
pub enum ShapeError {
    /// The reply is a list without a first element.
    EmptyList,
    /// A `message` reply has fewer than two fields after its kind.
    MessageFields,
    /// A `pmessage` reply has fewer than three fields after its kind.
    PatternMessageFields,
    /// The payload is not UTF-8.
    NotText,
}

} // verus!
