//! Refusal codes, the error value that carries one, and the protocol's fixed limits.

use vstd::prelude::*;

verus! {

pub const DURABLE_WORK: u16 = 65284;

pub const RESULT_DELIVERY: u16 = 65285;

/// The largest number that any counter, length or time may hold.
pub const MAX_NUMBER: u64 = 0x7fff_ffff_ffff_ffff;

/// The longest duration, one year of milliseconds.
pub const MAX_DURATION: u64 = 31_536_000_000;

pub const INITIAL_CONTROL_LIMIT: usize = 4096;

pub const MAX_CONTROL_LIMIT: usize = 1_048_576;

pub const MAX_HEADER: usize = 4096;

/// Refusal codes, distinct from the version-1 error namespace.
#[derive(Debug, Clone, Copy, PartialEq, Eq, Structural)]
pub enum ErrorCode {
    FrameError,
    ExtensionUnsupported,
    Unauthorized,
    LimitExceeded,
    NotFound,
    Expired,
    Conflict,
    IntegrityError,
    NotReady,
    WaitTimeout,
    DeadlineExceeded,
    Cancelled,
    ApplicationUnsupported,
    ControlReset,
    InternalError,
    OutputUnavailable,
    ClockUnsafe,
    AlreadyTerminal,
}

impl ErrorCode {
    /// The number that stands for the code on the wire.
    pub open spec fn wire_code(self) -> u64 {
        match self {
            ErrorCode::FrameError => 1,
            ErrorCode::ExtensionUnsupported => 2,
            ErrorCode::Unauthorized => 3,
            ErrorCode::LimitExceeded => 4,
            ErrorCode::NotFound => 5,
            ErrorCode::Expired => 6,
            ErrorCode::Conflict => 7,
            ErrorCode::IntegrityError => 8,
            ErrorCode::NotReady => 9,
            ErrorCode::WaitTimeout => 10,
            ErrorCode::DeadlineExceeded => 11,
            ErrorCode::Cancelled => 12,
            ErrorCode::ApplicationUnsupported => 13,
            ErrorCode::ControlReset => 14,
            ErrorCode::InternalError => 15,
            ErrorCode::OutputUnavailable => 16,
            ErrorCode::ClockUnsafe => 17,
            ErrorCode::AlreadyTerminal => 18,
        }
    }

    /// The registered name of the code.
    pub open spec fn registered_name(self) -> Seq<char> {
        match self {
            ErrorCode::FrameError => "FRAME_ERROR"@,
            ErrorCode::ExtensionUnsupported => "EXTENSION_UNSUPPORTED"@,
            ErrorCode::Unauthorized => "UNAUTHORIZED"@,
            ErrorCode::LimitExceeded => "LIMIT_EXCEEDED"@,
            ErrorCode::NotFound => "NOT_FOUND"@,
            ErrorCode::Expired => "EXPIRED"@,
            ErrorCode::Conflict => "CONFLICT"@,
            ErrorCode::IntegrityError => "INTEGRITY_ERROR"@,
            ErrorCode::NotReady => "NOT_READY"@,
            ErrorCode::WaitTimeout => "WAIT_TIMEOUT"@,
            ErrorCode::DeadlineExceeded => "DEADLINE_EXCEEDED"@,
            ErrorCode::Cancelled => "CANCELLED"@,
            ErrorCode::ApplicationUnsupported => "APPLICATION_UNSUPPORTED"@,
            ErrorCode::ControlReset => "CONTROL_RESET"@,
            ErrorCode::InternalError => "INTERNAL_ERROR"@,
            ErrorCode::OutputUnavailable => "OUTPUT_UNAVAILABLE"@,
            ErrorCode::ClockUnsafe => "CLOCK_UNSAFE"@,
            ErrorCode::AlreadyTerminal => "ALREADY_TERMINAL"@,
        }
    }

    pub fn name(self) -> (r: &'static str)
        ensures
            r@ == self.registered_name(),
    {
        match self {
            ErrorCode::FrameError => "FRAME_ERROR",
            ErrorCode::ExtensionUnsupported => "EXTENSION_UNSUPPORTED",
            ErrorCode::Unauthorized => "UNAUTHORIZED",
            ErrorCode::LimitExceeded => "LIMIT_EXCEEDED",
            ErrorCode::NotFound => "NOT_FOUND",
            ErrorCode::Expired => "EXPIRED",
            ErrorCode::Conflict => "CONFLICT",
            ErrorCode::IntegrityError => "INTEGRITY_ERROR",
            ErrorCode::NotReady => "NOT_READY",
            ErrorCode::WaitTimeout => "WAIT_TIMEOUT",
            ErrorCode::DeadlineExceeded => "DEADLINE_EXCEEDED",
            ErrorCode::Cancelled => "CANCELLED",
            ErrorCode::ApplicationUnsupported => "APPLICATION_UNSUPPORTED",
            ErrorCode::ControlReset => "CONTROL_RESET",
            ErrorCode::InternalError => "INTERNAL_ERROR",
            ErrorCode::OutputUnavailable => "OUTPUT_UNAVAILABLE",
            ErrorCode::ClockUnsafe => "CLOCK_UNSAFE",
            ErrorCode::AlreadyTerminal => "ALREADY_TERMINAL",
        }
    }

    /// The number that stands for the code on the wire.
    pub fn code(self) -> (r: u64)
        ensures
            r == self.wire_code(),
            1 <= r <= 18,
    {
        match self {
            ErrorCode::FrameError => 1,
            ErrorCode::ExtensionUnsupported => 2,
            ErrorCode::Unauthorized => 3,
            ErrorCode::LimitExceeded => 4,
            ErrorCode::NotFound => 5,
            ErrorCode::Expired => 6,
            ErrorCode::Conflict => 7,
            ErrorCode::IntegrityError => 8,
            ErrorCode::NotReady => 9,
            ErrorCode::WaitTimeout => 10,
            ErrorCode::DeadlineExceeded => 11,
            ErrorCode::Cancelled => 12,
            ErrorCode::ApplicationUnsupported => 13,
            ErrorCode::ControlReset => 14,
            ErrorCode::InternalError => 15,
            ErrorCode::OutputUnavailable => 16,
            ErrorCode::ClockUnsafe => 17,
            ErrorCode::AlreadyTerminal => 18,
        }
    }

    pub fn quic_error(self) -> (r: u64)
        ensures
            r == 0x200 + self.wire_code(),
    {
        0x200 + self.code()
    }
}

/// A refusal: the code that the peer acts on, and a fixed diagnostic text for people.
#[derive(Debug, Clone, Copy, PartialEq, Eq)]
pub struct Error {
    pub code: ErrorCode,
    pub detail: &'static str,
}

impl Error {
    pub fn new(code: ErrorCode, detail: &'static str) -> (r: Self)
        ensures
            r.code == code,
            r.detail == detail,
    {
        Error { code, detail }
    }

    pub fn frame(detail: &'static str) -> (r: Self)
        ensures
            r.code == ErrorCode::FrameError,
            r.detail == detail,
    {
        Error { code: ErrorCode::FrameError, detail }
    }

    /// `NAME: detail`.
    pub fn message(&self) -> (r: String)
        ensures
            r@ == self.code.registered_name() + ": "@ + self.detail@,
    {
        let mut text = self.code.name().to_owned();
        text.append(": ");
        text.append(self.detail);
        text
    }
}

pub fn require(condition: bool, detail: &'static str) -> (r: Result<(), Error>)
    ensures
        match r {
            Ok(_) => condition,
            Err(e) => !condition && e.code == ErrorCode::FrameError && e.detail == detail,
        },
{
    if condition {
        Ok(())
    } else {
        Err(Error::frame(detail))
    }
}

/// No two codes share a number on the wire, and every number is in the range of the namespace.
pub proof fn law_codes_are_distinct(a: ErrorCode, b: ErrorCode)
    ensures
        a.wire_code() == b.wire_code() ==> a == b,
        1 <= a.wire_code() <= 18,
{
}

} // verus!
