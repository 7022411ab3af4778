//! The ways in which parsing a request can fail.

use vstd::prelude::*;
use vstd::string::StringExecFns;

verus! {

/// Why a request, or a part of it, was refused.
#[derive(Debug, Clone, PartialEq, Eq)]
pub enum ParseError {
    /// The bytes handed to a parser are not well-formed UTF-8 (with the description
    /// that `std::str::from_utf8` gave).
    InvalidUtf8(String),
    /// The request line does not have exactly three space-separated parts.
    MalformedRequestLine,
    /// The HTTP version does not have exactly two '/'-separated parts.
    MalformedHttpVersion,
    /// The method holds a character that is not uppercase.
    MalformedMethod,
    /// A field line has no ':'.
    MalformedHeader,
    /// The field name (given) is not a token.
    MalformedFieldName(String),
    /// The Content-Length field is not a decimal number that fits a `usize`.
    MalformedContentLength,
    /// More body bytes arrived than the Content-Length field announced.
    BodyTooLong,
    /// The stream ended before the request was complete.
    MalformedRequest,
}

/// A `ParseError` as the specifications see it: the field name as its characters.
pub enum ParseFailure {
    InvalidUtf8(Seq<char>),
    MalformedRequestLine,
    MalformedHttpVersion,
    MalformedMethod,
    MalformedHeader,
    MalformedFieldName(Seq<char>),
    MalformedContentLength,
    BodyTooLong,
    MalformedRequest,
}

impl View for ParseError {
    type V = ParseFailure;

    open spec fn view(&self) -> ParseFailure {
        match self {
            ParseError::InvalidUtf8(text) => ParseFailure::InvalidUtf8(text@),
            ParseError::MalformedRequestLine => ParseFailure::MalformedRequestLine,
            ParseError::MalformedHttpVersion => ParseFailure::MalformedHttpVersion,
            ParseError::MalformedMethod => ParseFailure::MalformedMethod,
            ParseError::MalformedHeader => ParseFailure::MalformedHeader,
            ParseError::MalformedFieldName(name) => ParseFailure::MalformedFieldName(name@),
            ParseError::MalformedContentLength => ParseFailure::MalformedContentLength,
            ParseError::BodyTooLong => ParseFailure::BodyTooLong,
            ParseError::MalformedRequest => ParseFailure::MalformedRequest,
        }
    }
}

/// An outcome with its error taken by its view.
pub open spec fn failure_of<T>(r: Result<T, ParseError>) -> Result<T, ParseFailure> {
    match r {
        Ok(v) => Ok(v),
        Err(e) => Err(e@),
    }
}

/// The text that explains an error.
pub open spec fn error_message(e: ParseFailure) -> Seq<char> {
    match e {
        ParseFailure::InvalidUtf8(text) => text,
        ParseFailure::MalformedRequestLine => "Request line is Malformed: the request was incomplete"@,
        ParseFailure::MalformedHttpVersion => "HTTP Version is Malformed: the HTTP method was incorrect"@,
        ParseFailure::MalformedMethod => "Method is Malformed: the Request method was incorrect"@,
        ParseFailure::MalformedHeader => "HEADER is Malformed"@,
        ParseFailure::MalformedFieldName(name) => "Field value is Malformed Field name: "@ + name + " "@,
        ParseFailure::MalformedContentLength => "Content-Length is Malformed"@,
        ParseFailure::BodyTooLong => "Length of the body is larger than what was provided in content length"@,
        ParseFailure::MalformedRequest => "Request is Malformed"@,
    }
}

/// The text with which reading a request reports a refusal: a stream that ended
/// before the request was complete as it is, a refusal of the parser after
/// "Request is in error state: ".
pub open spec fn request_error_message(e: ParseFailure) -> Seq<char> {
    match e {
        ParseFailure::MalformedRequest => error_message(e),
        _ => "Request is in error state: "@ + error_message(e),
    }
}

impl ParseError {
    /// The text that explains this error; see `error_message`.
    pub fn message(&self) -> (r: String)
        ensures
            r@ == error_message(self@),
    {
        match self {
            ParseError::InvalidUtf8(text) => text.clone(),
            ParseError::MalformedRequestLine => "Request line is Malformed: the request was incomplete".to_owned(),
            ParseError::MalformedHttpVersion => "HTTP Version is Malformed: the HTTP method was incorrect".to_owned(),
            ParseError::MalformedMethod => "Method is Malformed: the Request method was incorrect".to_owned(),
            ParseError::MalformedHeader => "HEADER is Malformed".to_owned(),
            ParseError::MalformedFieldName(name) => {
                let mut text = "Field value is Malformed Field name: ".to_owned();
                text.append(name.as_str());
                text.append(" ");
                text
            },
            ParseError::MalformedContentLength => "Content-Length is Malformed".to_owned(),
            ParseError::BodyTooLong => "Length of the body is larger than what was provided in content length".to_owned(),
            ParseError::MalformedRequest => "Request is Malformed".to_owned(),
        }
    }

    /// The text with which reading a request reports this error; see
    /// `request_error_message`.
    pub fn request_message(&self) -> (r: String)
        ensures
            r@ == request_error_message(self@),
    {
        let text = self.message();
        match self {
            ParseError::MalformedRequest => text,
            _ => {
                let mut out = "Request is in error state: ".to_owned();
                out.append(text.as_str());
                out
            },
        }
    }
}

} // verus!
