//! The ways in which a call on a connection fails.
use crate::outside::{name_error_text, status_error_text, value_error_text};
use crate::text::{decimal, decimal_text};
use http::header::{InvalidHeaderName, InvalidHeaderValue};
use http::status::InvalidStatusCode;
use vstd::prelude::*;
use vstd::string::StringExecFns;

verus! {

/// Why a call on a connection failed.
#[derive(Debug)]
pub enum CodecError {
    /// The handshake with the peer failed.
    HandshakeFailed(h2::Error),
    /// There is no request on the stream that waits for an answer.
    UnknownStream(u32),
    /// The status code is not a number of three digits.
    InvalidStatus(InvalidStatusCode),
    /// A header field has a name that no field may have.
    InvalidHeaderName(InvalidHeaderName),
    /// A header field has a value that no field may have.
    InvalidHeaderValue(InvalidHeaderValue),
    /// There are more header fields than a message head has room for.
    TooManyHeaders,
    /// The stream did not take the head of the response.
    SendResponseFailed(h2::Error),
}

/// `text` is what an error of `h2` displays as.
pub open spec fn displayed(e: h2::Error, text: String) -> bool {
    vstd::string::to_string_from_display_ensures::<h2::Error>(&e, text)
}

impl CodecError {
    /// The message for the error, where the text of the error of `h2` underneath, if
    /// there is one, is `cause`.
    pub open spec fn wording(self, cause: Seq<char>) -> Seq<char> {
        match self {
            CodecError::HandshakeFailed(_) => "handshake failed: "@ + cause,
            CodecError::UnknownStream(stream_id) => "unknown stream "@ + decimal(stream_id as nat),
            CodecError::InvalidStatus(_) => "invalid status code"@,
            CodecError::InvalidHeaderName(_) => "invalid HTTP header name"@,
            CodecError::InvalidHeaderValue(_) => "failed to parse header value"@,
            CodecError::TooManyHeaders => "too many header fields"@,
            CodecError::SendResponseFailed(_) => "send_response failed: "@ + cause,
        }
    }

    /// The error of `h2` underneath, if there is one.
    pub open spec fn cause(self) -> Option<h2::Error> {
        match self {
            CodecError::HandshakeFailed(e) => Some(e),
            CodecError::SendResponseFailed(e) => Some(e),
            _ => None,
        }
    }

    /// Gives the message for the error, around the text of the error of `h2` underneath.
    pub fn message_with(&self, cause: &str) -> (r: String)
        ensures
            r@ == self.wording(cause@),
    {
        match self {
            CodecError::HandshakeFailed(_) => "handshake failed: ".to_owned().concat(cause),
            CodecError::UnknownStream(stream_id) => {
                let number = decimal_text(*stream_id);
                "unknown stream ".to_owned().concat(number.as_str())
            },
            CodecError::InvalidStatus(e) => status_error_text(e),
            CodecError::InvalidHeaderName(e) => name_error_text(e),
            CodecError::InvalidHeaderValue(e) => value_error_text(e),
            CodecError::TooManyHeaders => "too many header fields".to_owned(),
            CodecError::SendResponseFailed(_) => "send_response failed: ".to_owned().concat(cause),
        }
    }

    /// Gives the message for the error.
    pub fn message(&self) -> (r: String)
        ensures
            self.cause() matches Some(e) ==> exists|text: String|
                displayed(e, text) && r@ == #[trigger] self.wording(text@),
            self.cause() is None ==> r@ == self.wording(Seq::empty()),
    {
        match self {
            CodecError::HandshakeFailed(e) => {
                let text = e.to_string();
                self.message_with(text.as_str())
            },
            CodecError::SendResponseFailed(e) => {
                let text = e.to_string();
                self.message_with(text.as_str())
            },
            _ => self.message_with(""),
        }
    }
}

} // verus!
