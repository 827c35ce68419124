//! Errors of the wire format.
use vstd::prelude::*;

verus! {

/// What can be wrong with a request, a response or a URL.
#[derive(Debug)]
pub enum ProtocolError {
    /// A request or status line that does not have the expected shape.
    MalformedLine(String),
    /// A header line without a name.
    InvalidHeader(String),
    /// The request line is longer than the limit.
    RequestLineTooLarge { max: usize },
    /// The head is longer than the limit.
    HeadersTooLarge { max: usize },
    /// The body is longer than the limit.
    BodyTooLarge { max: usize },
    /// A URL or a path that cannot be used.
    InvalidUrl(String),
    /// A status code that the protocol does not define.
    InvalidStatus(u16),
    /// A chunk of a chunked body that cannot be read.
    InvalidChunk(String),
    /// The input ended before the message did.
    UnexpectedEof,
}

/// The mathematical value of a [`ProtocolError`]: messages as char sequences.
pub enum ErrorView {
    MalformedLine(Seq<char>),
    InvalidHeader(Seq<char>),
    RequestLineTooLarge { max: nat },
    HeadersTooLarge { max: nat },
    BodyTooLarge { max: nat },
    InvalidUrl(Seq<char>),
    InvalidStatus(nat),
    InvalidChunk(Seq<char>),
    UnexpectedEof,
}

impl View for ProtocolError {
    type V = ErrorView;

    open spec fn view(&self) -> ErrorView {
        match self {
            ProtocolError::MalformedLine(s) => ErrorView::MalformedLine(s@),
            ProtocolError::InvalidHeader(s) => ErrorView::InvalidHeader(s@),
            ProtocolError::RequestLineTooLarge { max } => ErrorView::RequestLineTooLarge {
                max: *max as nat,
            },
            ProtocolError::HeadersTooLarge { max } => ErrorView::HeadersTooLarge { max: *max as nat },
            ProtocolError::BodyTooLarge { max } => ErrorView::BodyTooLarge { max: *max as nat },
            ProtocolError::InvalidUrl(s) => ErrorView::InvalidUrl(s@),
            ProtocolError::InvalidStatus(c) => ErrorView::InvalidStatus(*c as nat),
            ProtocolError::InvalidChunk(s) => ErrorView::InvalidChunk(s@),
            ProtocolError::UnexpectedEof => ErrorView::UnexpectedEof,
        }
    }
}

/// A successful spec result.
pub open spec fn ok_v<T>(x: T) -> Result<T, ErrorView> {
    Ok(x)
}

/// A failed spec result.
pub open spec fn err_v<T>(e: ErrorView) -> Result<T, ErrorView> {
    Err(e)
}

/// A message made of the literal `prefix` followed by the chars `tail`.
pub fn message(prefix: &str, tail: &[char]) -> (r: String)
    ensures
        r@ == prefix@ + tail@,
{
    let mut v = crate::unicode::str_chars(prefix);
    let mut i: usize = 0;
    let ghost start = v@;
    while i < tail.len()
        invariant
            i <= tail@.len(),
            v@ == start + tail@.subrange(0, i as int),
            start == prefix@,
        decreases tail@.len() - i,
    {
        v.push(tail[i]);
        i = i + 1;
        assert(v@ =~= start + tail@.subrange(0, i as int));
    }
    assert(tail@.subrange(0, tail@.len() as int) =~= tail@);
    crate::unicode::string_from_chars(&v)
}

} // verus!
