//! What can go wrong while a file is analysed.
use vstd::prelude::*;

verus! {

/// Why a request was turned down.
#[derive(Debug, PartialEq, Eq)]
pub enum Error {
    /// A gain of zero steps was asked for.
    ZeroGainSteps,
    /// The bytes do not start with an accepted `ftyp` box.
    NotMp4,
    /// There is no top-level `moov` box.
    NoMoovBox,
    /// No track has an `mp4a` sample entry.
    NoAacTrack,
    /// A box or an AAC element is malformed or not supported.
    AacParse { message: String },
    /// No gain field was found, and this many samples could not be parsed.
    AacParseFailure { warnings: u32 },
}

/// The mathematical value of an [`Error`].
pub enum ErrorView {
    ZeroGainSteps,
    NotMp4,
    NoMoovBox,
    NoAacTrack,
    AacParse { message: Seq<char> },
    AacParseFailure { warnings: u32 },
}

impl View for Error {
    type V = ErrorView;

    open spec fn view(&self) -> ErrorView {
        match *self {
            Error::ZeroGainSteps => ErrorView::ZeroGainSteps,
            Error::NotMp4 => ErrorView::NotMp4,
            Error::NoMoovBox => ErrorView::NoMoovBox,
            Error::NoAacTrack => ErrorView::NoAacTrack,
            Error::AacParse { message } => ErrorView::AacParse { message: message@ },
            Error::AacParseFailure { warnings } => ErrorView::AacParseFailure { warnings },
        }
    }
}

/// The parse error with the given text.
pub open spec fn parse_error(message: Seq<char>) -> ErrorView {
    ErrorView::AacParse { message }
}

impl Error {
    /// The parse error with the given text.
    pub fn aac_parse(message: &str) -> (error: Error)
        ensures
            error@ == parse_error(message@),
    {
        Error::AacParse { message: message.to_string() }
    }
}

/// Why the boxes of a file could not be followed to the end.
#[derive(Debug, PartialEq, Eq)]
pub enum Fault {
    /// The file is turned down.
    Reject(Error),
    /// An offset, a size or a table of the file points outside of its bytes,
    /// or does not fit the integers that hold positions; or a track has no
    /// size, so that no track behind it could ever be reached.
    OutOfRange,
}

/// The mathematical value of a [`Fault`].
pub enum FaultView {
    Reject(ErrorView),
    OutOfRange,
}

impl View for Fault {
    type V = FaultView;

    open spec fn view(&self) -> FaultView {
        match *self {
            Fault::Reject(error) => FaultView::Reject(error@),
            Fault::OutOfRange => FaultView::OutOfRange,
        }
    }
}

} // verus!
