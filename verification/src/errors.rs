//! Failures reported by the codec binding and the stream adapters.
use vstd::prelude::*;

verus! {

/// Class of an I/O failure, as far as the adapters tell them apart.
#[derive(Debug, Clone, Copy, PartialEq, Eq, Structural)]
pub enum ErrorKind {
    /// The source ended in the middle of an item.
    UnexpectedEof,
    /// Any other failure.
    Other,
}

/// An I/O failure: its class and its text.
#[derive(Debug, Clone)]
pub struct IoError {
    pub kind: ErrorKind,
    pub message: String,
}

/// Why an operation failed.
#[derive(Debug, Clone)]
pub enum Error {
    /// The source or the sink failed, or the stream is cut short.
    Io(IoError),
    /// A block size, or a length that a record declares, is out of range.
    BlockSize,
    /// The codec rejected a block; the text is the codec's diagnostic.
    ProcessBlock(String),
    /// The stream does not start with the signature.
    InvalidSignature,
}

pub type Result<T> = core::result::Result<T, Error>;

/// Mathematical value of an [`IoError`].
pub struct IoErrorView {
    pub kind: ErrorKind,
    pub message: Seq<char>,
}

/// Mathematical value of an [`Error`].
pub enum ErrorView {
    Io(IoErrorView),
    BlockSize,
    ProcessBlock(Seq<char>),
    InvalidSignature,
}

impl View for IoError {
    type V = IoErrorView;

    open spec fn view(&self) -> IoErrorView {
        IoErrorView { kind: self.kind, message: self.message@ }
    }
}

impl View for Error {
    type V = ErrorView;

    open spec fn view(&self) -> ErrorView {
        match self {
            Error::Io(e) => ErrorView::Io(e@),
            Error::BlockSize => ErrorView::BlockSize,
            Error::ProcessBlock(text) => ErrorView::ProcessBlock(text@),
            Error::InvalidSignature => ErrorView::InvalidSignature,
        }
    }
}

impl ErrorView {
    /// The text shown for this error.
    pub open spec fn message(self) -> Seq<char> {
        match self {
            ErrorView::Io(e) => e.message,
            ErrorView::BlockSize => "Invalid block size: must be between 65kiB and 511MiB"@,
            ErrorView::ProcessBlock(text) => text,
            ErrorView::InvalidSignature => "Invalid file signature"@,
        }
    }

    /// This error as an I/O failure: an I/O failure is itself, any other
    /// error becomes a failure of class `Other` that carries its text.
    pub open spec fn into_io_error(self) -> IoErrorView {
        match self {
            ErrorView::Io(e) => e,
            _ => IoErrorView { kind: ErrorKind::Other, message: self.message() },
        }
    }
}

impl Error {
    /// The text shown for this error.
    pub fn message(&self) -> (text: String)
        ensures
            text@ == self@.message(),
    {
        match self {
            Error::Io(e) => e.message.clone(),
            Error::BlockSize => "Invalid block size: must be between 65kiB and 511MiB".to_owned(),
            Error::ProcessBlock(text) => text.clone(),
            Error::InvalidSignature => "Invalid file signature".to_owned(),
        }
    }

    /// Turns this error into an I/O failure.
    pub fn into_io_error(self) -> (e: IoError)
        ensures
            e@ == self@.into_io_error(),
    {
        match self {
            Error::Io(e) => e,
            other => {
                let message = other.message();
                IoError { kind: ErrorKind::Other, message }
            },
        }
    }
}

} // verus!
