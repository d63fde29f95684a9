//! The outcome of a request, as an HTTP status.

use vstd::prelude::*;

verus! {

/// The HTTP statuses that the data layer answers with.
#[derive(Clone, Copy, Debug, PartialEq, Eq, Structural)]
pub enum Status {
    /// 200
    Success,
    /// 201
    Created,
    /// 202
    Accepted,
    /// 204
    NoContent,
    /// 400
    BadRequest,
    /// 404
    NotFound,
    /// 406
    NotAcceptable,
    /// 409
    Conflict,
    /// 417
    ExpectationFailed,
    /// 500
    InternalServerError,
}

impl Status {
    /// The numeric HTTP code.
    pub fn code(&self) -> (r: u16)
        ensures
            r == self.code_spec(),
    {
        match self {
            Status::Success => 200,
            Status::Created => 201,
            Status::Accepted => 202,
            Status::NoContent => 204,
            Status::BadRequest => 400,
            Status::NotFound => 404,
            Status::NotAcceptable => 406,
            Status::Conflict => 409,
            Status::ExpectationFailed => 417,
            Status::InternalServerError => 500,
        }
    }

    pub open spec fn code_spec(self) -> u16 {
        match self {
            Status::Success => 200,
            Status::Created => 201,
            Status::Accepted => 202,
            Status::NoContent => 204,
            Status::BadRequest => 400,
            Status::NotFound => 404,
            Status::NotAcceptable => 406,
            Status::Conflict => 409,
            Status::ExpectationFailed => 417,
            Status::InternalServerError => 500,
        }
    }
}

} // verus!
