use vstd::prelude::*;

verus! {

/// The failures that the gateway reports to a client.
#[derive(Debug, Clone, Copy, PartialEq, Eq, Structural)]
pub enum GatewayError {
    /// Malformed or out-of-scope input.
    BadRequest,
    /// Missing, invalid or expired session.
    Unauthorized,
    /// A valid path whose resource is absent.
    NotFound,
    /// A byte range outside the file, or malformed range syntax.
    RangeUnsatisfiable,
    /// An unexpected failure below the gateway.
    Internal,
}

/// HTTP status code of each failure.
pub open spec fn status_of(e: GatewayError) -> u16 {
    match e {
        GatewayError::BadRequest => 400,
        GatewayError::Unauthorized => 401,
        GatewayError::NotFound => 404,
        GatewayError::RangeUnsatisfiable => 416,
        GatewayError::Internal => 500,
    }
}

impl GatewayError {
    /// The HTTP status code under which this failure is answered.
    pub fn status(&self) -> (r: u16)
        ensures
            r == status_of(*self),
    {
        match self {
            GatewayError::BadRequest => 400,
            GatewayError::Unauthorized => 401,
            GatewayError::NotFound => 404,
            GatewayError::RangeUnsatisfiable => 416,
            GatewayError::Internal => 500,
        }
    }
}

} // verus!
