//! What the endpoint answers: a status and, for a file that was found and
//! opened, a body of known length.

use vstd::prelude::*;

verus! {

/// The statuses that the endpoint answers with.
#[derive(Clone, Copy, Debug, PartialEq, Eq, Structural)]
pub enum StatusCode {
    /// `200 OK`: the file was found and opened.
    Success,
    /// `404 Not Found`: nothing is served under the path that was asked for.
    NotFound,
    /// `500 Internal Server Error`: the file is there and may be served, but
    /// could not be opened.
    InternalServerError,
}

impl StatusCode {
    /// The number that HTTP gives the status.
    pub open spec fn number(self) -> int {
        match self {
            StatusCode::Success => 200,
            StatusCode::NotFound => 404,
            StatusCode::InternalServerError => 500,
        }
    }

    /// The number that HTTP gives the status.
    pub fn code(self) -> (code: u16)
        ensures
            code == self.number(),
    {
        match self {
            StatusCode::Success => 200,
            StatusCode::NotFound => 404,
            StatusCode::InternalServerError => 500,
        }
    }
}

/// A body that is read from `reader` as it is sent, `length` bytes in all.
#[derive(Debug, PartialEq, Eq)]
pub struct Body<S> {
    /// Number of bytes that the body holds.
    pub length: usize,
    /// Where the bytes come from.
    pub reader: S,
}

/// A response: the status, and the body if there is one.
#[derive(Debug, PartialEq, Eq)]
pub struct Response<S> {
    /// The status of the response.
    pub status: StatusCode,
    /// The body; `None` for a response that carries none.
    pub body: Option<Body<S>>,
}

impl<S> Response<S> {
    /// The response that has `status` and no body.
    pub open spec fn bare(status: StatusCode) -> Self {
        Response { status, body: None }
    }

    /// The response `200 OK` whose body is `length` bytes from `reader`.
    pub open spec fn streaming(length: usize, reader: S) -> Self {
        Response { status: StatusCode::Success, body: Some(Body { length, reader }) }
    }

    /// A response with the given status and no body.
    pub fn new(status: StatusCode) -> (response: Self)
        ensures
            response == Self::bare(status),
    {
        Response { status, body: None }
    }

    /// Gives the response a body of `length` bytes that are read from `reader`.
    pub fn set_body(&mut self, length: usize, reader: S)
        ensures
            final(self).status == old(self).status,
            final(self).body == Some(Body { length, reader }),
    {
        self.body = Some(Body { length, reader });
    }
}

} // verus!
