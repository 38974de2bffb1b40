//! The status codes of gRPC.

use crate::text::{decimal, decimal_string};
use ntex_h2::frame::Reason;
use vstd::prelude::*;

verus! {

#[verifier::external_type_specification]
#[verifier::external_body]
pub struct ExReason(Reason);

/// The number of an HTTP/2 error code.
pub uninterp spec fn reason_code(reason: Reason) -> u32;

/// `u32::from(Reason)`: the number of the error code.
#[verifier::external_body]
fn reason_to_u32(reason: Reason) -> (code: u32)
    ensures
        code == reason_code(reason),
{
    u32::from(reason)
}

/// The outcome of a call.
#[derive(Clone, Copy, Debug, PartialEq, Eq, Hash, Structural)]
pub enum GrpcStatus {
    /// The call completed.
    Okay,
    /// The call was cancelled, typically by the caller.
    Cancelled,
    /// An error that fits no other code.
    Unknown,
    /// The client specified an invalid argument.
    InvalidArgument,
    /// The deadline expired before the call could complete.
    DeadlineExceeded,
    /// A requested entity was not found.
    NotFound,
    /// The entity that a client attempted to create already exists.
    AlreadyExists,
    /// The caller has no permission to execute the call.
    PermissionDenied,
    /// A resource has been exhausted.
    ResourceExhausted,
    /// The system is not in a state that the call requires.
    FailedPrecondition,
    /// The call was aborted.
    Aborted,
    /// The call was attempted past the valid range.
    OutOfRange,
    /// The call is not implemented or not supported.
    Unimplemented,
    /// An internal error.
    Internal,
    /// The service is currently unavailable.
    Unavailable,
    /// Unrecoverable data loss or corruption.
    DataLoss,
    /// The request has no valid authentication credentials.
    Unauthenticated,
}

impl GrpcStatus {
    /// The number of the status on the wire.
    pub open spec fn spec_code(self) -> u8 {
        match self {
            GrpcStatus::Okay => 0,
            GrpcStatus::Cancelled => 1,
            GrpcStatus::Unknown => 2,
            GrpcStatus::InvalidArgument => 3,
            GrpcStatus::DeadlineExceeded => 4,
            GrpcStatus::NotFound => 5,
            GrpcStatus::AlreadyExists => 6,
            GrpcStatus::PermissionDenied => 7,
            GrpcStatus::ResourceExhausted => 8,
            GrpcStatus::FailedPrecondition => 9,
            GrpcStatus::Aborted => 10,
            GrpcStatus::OutOfRange => 11,
            GrpcStatus::Unimplemented => 12,
            GrpcStatus::Internal => 13,
            GrpcStatus::Unavailable => 14,
            GrpcStatus::DataLoss => 15,
            GrpcStatus::Unauthenticated => 16,
        }
    }

    /// The status with the given number, if there is one.
    pub open spec fn spec_from_code(code: u8) -> Option<GrpcStatus> {
        if code == 0 {
            Some(GrpcStatus::Okay)
        }         else if code == 1 {
            Some(GrpcStatus::Cancelled)
        }         else if code == 2 {
            Some(GrpcStatus::Unknown)
        }         else if code == 3 {
            Some(GrpcStatus::InvalidArgument)
        }         else if code == 4 {
            Some(GrpcStatus::DeadlineExceeded)
        }         else if code == 5 {
            Some(GrpcStatus::NotFound)
        }         else if code == 6 {
            Some(GrpcStatus::AlreadyExists)
        }         else if code == 7 {
            Some(GrpcStatus::PermissionDenied)
        }         else if code == 8 {
            Some(GrpcStatus::ResourceExhausted)
        }         else if code == 9 {
            Some(GrpcStatus::FailedPrecondition)
        }         else if code == 10 {
            Some(GrpcStatus::Aborted)
        }         else if code == 11 {
            Some(GrpcStatus::OutOfRange)
        }         else if code == 12 {
            Some(GrpcStatus::Unimplemented)
        }         else if code == 13 {
            Some(GrpcStatus::Internal)
        }         else if code == 14 {
            Some(GrpcStatus::Unavailable)
        }         else if code == 15 {
            Some(GrpcStatus::DataLoss)
        }         else if code == 16 {
            Some(GrpcStatus::Unauthenticated)
        } else {
            None
        }
    }

    /// The name of the status.
    pub open spec fn spec_name(self) -> Seq<char> {
        match self {
            GrpcStatus::Okay => "Ok"@,
            GrpcStatus::Cancelled => "Cancelled"@,
            GrpcStatus::Unknown => "Unknown"@,
            GrpcStatus::InvalidArgument => "InvalidArgument"@,
            GrpcStatus::DeadlineExceeded => "DeadlineExceeded"@,
            GrpcStatus::NotFound => "NotFound"@,
            GrpcStatus::AlreadyExists => "AlreadyExists"@,
            GrpcStatus::PermissionDenied => "PermissionDenied"@,
            GrpcStatus::ResourceExhausted => "ResourceExhausted"@,
            GrpcStatus::FailedPrecondition => "FailedPrecondition"@,
            GrpcStatus::Aborted => "Aborted"@,
            GrpcStatus::OutOfRange => "OutOfRange"@,
            GrpcStatus::Unimplemented => "Unimplemented"@,
            GrpcStatus::Internal => "Internal"@,
            GrpcStatus::Unavailable => "Unavailable"@,
            GrpcStatus::DataLoss => "DataLoss"@,
            GrpcStatus::Unauthenticated => "Unauthenticated"@,
        }
    }

    /// The status that an HTTP/2 error code with the given number amounts
    /// to: a refused stream is a service that is unavailable, a cancelled one
    /// a cancelled call, a peer that asks for calm an exhausted resource,
    /// inadequate security a denied permission; protocol, flow-control,
    /// settings, frame-size, compression and connect errors, internal errors
    /// and "no error" are internal; anything else is unknown.
    pub open spec fn spec_from_reason_code(code: u32) -> GrpcStatus {
        if code == 0 || code == 1 || code == 2 || code == 3 || code == 4 || code == 6 || code == 9
            || code == 10 {
            GrpcStatus::Internal
        } else if code == 7 {
            GrpcStatus::Unavailable
        } else if code == 8 {
            GrpcStatus::Cancelled
        } else if code == 11 {
            GrpcStatus::ResourceExhausted
        } else if code == 12 {
            GrpcStatus::PermissionDenied
        } else {
            GrpcStatus::Unknown
        }
    }

    pub fn as_str(&self) -> (s: &'static str)
        ensures
            s@ == self.spec_name(),
    {
        match self {
            GrpcStatus::Okay => "Ok",
            GrpcStatus::Cancelled => "Cancelled",
            GrpcStatus::Unknown => "Unknown",
            GrpcStatus::InvalidArgument => "InvalidArgument",
            GrpcStatus::DeadlineExceeded => "DeadlineExceeded",
            GrpcStatus::NotFound => "NotFound",
            GrpcStatus::AlreadyExists => "AlreadyExists",
            GrpcStatus::PermissionDenied => "PermissionDenied",
            GrpcStatus::ResourceExhausted => "ResourceExhausted",
            GrpcStatus::FailedPrecondition => "FailedPrecondition",
            GrpcStatus::Aborted => "Aborted",
            GrpcStatus::OutOfRange => "OutOfRange",
            GrpcStatus::Unimplemented => "Unimplemented",
            GrpcStatus::Internal => "Internal",
            GrpcStatus::Unavailable => "Unavailable",
            GrpcStatus::DataLoss => "DataLoss",
            GrpcStatus::Unauthenticated => "Unauthenticated",
        }
    }

    pub fn code(&self) -> (c: u8)
        ensures
            c == self.spec_code(),
            c <= 16,
    {
        match self {
            GrpcStatus::Okay => 0,
            GrpcStatus::Cancelled => 1,
            GrpcStatus::Unknown => 2,
            GrpcStatus::InvalidArgument => 3,
            GrpcStatus::DeadlineExceeded => 4,
            GrpcStatus::NotFound => 5,
            GrpcStatus::AlreadyExists => 6,
            GrpcStatus::PermissionDenied => 7,
            GrpcStatus::ResourceExhausted => 8,
            GrpcStatus::FailedPrecondition => 9,
            GrpcStatus::Aborted => 10,
            GrpcStatus::OutOfRange => 11,
            GrpcStatus::Unimplemented => 12,
            GrpcStatus::Internal => 13,
            GrpcStatus::Unavailable => 14,
            GrpcStatus::DataLoss => 15,
            GrpcStatus::Unauthenticated => 16,
        }
    }

    /// The status with the given number; a number above 16 is refused.
    pub fn try_from(v: u8) -> (r: Result<GrpcStatus, ()>)
        ensures
            match GrpcStatus::spec_from_code(v) {
                Some(status) => r == Ok::<GrpcStatus, ()>(status),
                None => r.is_err(),
            },
    {
        if v == 0 {
            Ok(GrpcStatus::Okay)
        }         else if v == 1 {
            Ok(GrpcStatus::Cancelled)
        }         else if v == 2 {
            Ok(GrpcStatus::Unknown)
        }         else if v == 3 {
            Ok(GrpcStatus::InvalidArgument)
        }         else if v == 4 {
            Ok(GrpcStatus::DeadlineExceeded)
        }         else if v == 5 {
            Ok(GrpcStatus::NotFound)
        }         else if v == 6 {
            Ok(GrpcStatus::AlreadyExists)
        }         else if v == 7 {
            Ok(GrpcStatus::PermissionDenied)
        }         else if v == 8 {
            Ok(GrpcStatus::ResourceExhausted)
        }         else if v == 9 {
            Ok(GrpcStatus::FailedPrecondition)
        }         else if v == 10 {
            Ok(GrpcStatus::Aborted)
        }         else if v == 11 {
            Ok(GrpcStatus::OutOfRange)
        }         else if v == 12 {
            Ok(GrpcStatus::Unimplemented)
        }         else if v == 13 {
            Ok(GrpcStatus::Internal)
        }         else if v == 14 {
            Ok(GrpcStatus::Unavailable)
        }         else if v == 15 {
            Ok(GrpcStatus::DataLoss)
        }         else if v == 16 {
            Ok(GrpcStatus::Unauthenticated)
        } else {
            Err(())
        }
    }

    /// The status that an HTTP/2 error code with the given number amounts
    /// to.
    pub fn from_reason_code(code: u32) -> (status: GrpcStatus)
        ensures
            status == GrpcStatus::spec_from_reason_code(code),
    {
        if code == 0 || code == 1 || code == 2 || code == 3 || code == 4 || code == 6 || code == 9
            || code == 10 {
            GrpcStatus::Internal
        } else if code == 7 {
            GrpcStatus::Unavailable
        } else if code == 8 {
            GrpcStatus::Cancelled
        } else if code == 11 {
            GrpcStatus::ResourceExhausted
        } else if code == 12 {
            GrpcStatus::PermissionDenied
        } else {
            GrpcStatus::Unknown
        }
    }

    /// The status that the reason for the reset of an HTTP/2 stream amounts
    /// to.
    pub fn from(reason: Reason) -> (status: GrpcStatus)
        ensures
            status == GrpcStatus::spec_from_reason_code(reason_code(reason)),
    {
        GrpcStatus::from_reason_code(reason_to_u32(reason))
    }

    /// The value of the `grpc-status` header for the status: its number in
    /// decimal.
    pub fn header_value(&self) -> (s: String)
        ensures
            s@ == decimal(self.spec_code() as nat),
    {
        decimal_string(self.code() as u128)
    }
}

/// Every status is the one that its number stands for, and the numbers run
/// from 0 to 16.
pub proof fn lemma_status_code_round_trip(status: GrpcStatus)
    ensures
        GrpcStatus::spec_from_code(status.spec_code()) == Some(status),
        status.spec_code() <= 16,
{
}

/// A number stands for a status exactly when it is at most 16, and then for
/// the status with that number.
pub proof fn lemma_status_from_code(code: u8)
    ensures
        GrpcStatus::spec_from_code(code).is_some() <==> code <= 16,
        GrpcStatus::spec_from_code(code) matches Some(status) ==> status.spec_code() == code,
{
}

} // verus!
