//! The body of a request, collected up to the length its Content-Length announced.

use crate::error::{ParseError, ParseFailure};
use vstd::prelude::*;

verus! {

pub struct Body {
    body: Vec<u8>,
    content_length: usize,
}

impl View for Body {
    /// The bytes collected so far and the announced length.
    type V = (Seq<u8>, nat);

    closed spec fn view(&self) -> (Seq<u8>, nat) {
        (self.body@, self.content_length as nat)
    }
}

/// What `Body::parse_body` does with `data`: the bytes are appended; the body is
/// complete when it reaches the announced length exactly and refused when it
/// goes beyond it. The count of a complete body is 0, that of an incomplete
/// one the length of `data`.
pub open spec fn parse_body_spec(body: Seq<u8>, content_length: nat, data: Seq<u8>) -> Result<
    (int, bool),
    ParseFailure,
> {
    let collected = body + data;
    if content_length == collected.len() {
        Ok((0, true))
    } else if content_length < collected.len() {
        Err(ParseFailure::BodyTooLong)
    } else {
        Ok((data.len() as int, false))
    }
}

impl Body {
    pub fn new() -> (b: Self)
        ensures
            b@ == (Seq::<u8>::empty(), 0nat),
    {
        Body { body: Vec::new(), content_length: 0 }
    }

    pub fn set_content_length(&mut self, content_length: usize)
        ensures
            final(self)@ == (old(self)@.0, content_length as nat),
    {
        self.content_length = content_length;
    }

    pub fn get_body(&self) -> (r: &Vec<u8>)
        ensures
            r@ == self@.0,
    {
        &self.body
    }

    /// Appends `data` to the body; see `parse_body_spec`.
    pub fn parse_body(&mut self, data: &[u8]) -> (r: Result<(usize, bool), ParseError>)
        ensures
            final(self)@ == (old(self)@.0 + data@, old(self)@.1),
            match r {
                Ok((n, d)) => parse_body_spec(old(self)@.0, old(self)@.1, data@) == Ok::<(int, bool), ParseFailure>((n as int, d)),
                Err(e) => parse_body_spec(old(self)@.0, old(self)@.1, data@) == Err::<(int, bool), ParseFailure>(e@),
            },
    {
        let mut temp = vstd::slice::slice_to_vec(data);
        self.body.append(&mut temp);
        if self.content_length == self.body.len() {
            return Ok((temp.len(), true));
        } else if self.content_length < self.body.len() {
            return Err(ParseError::BodyTooLong);
        }
        Ok((data.len(), false))
    }
}

} // verus!
