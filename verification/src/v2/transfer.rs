//! Validation of object payloads as they arrive.

use super::error::{Error, ErrorCode};
use super::labels::Digest;
use super::negotiation::Capabilities;
use super::numbers::{IdleMs, LifetimeMs, Number};
use super::wire::Wire;
use crate::hashing::{self, hash_finish, hash_start, hash_update, Hasher};
use vstd::prelude::*;

verus! {

/// Evidence from a completed validation, not a buffer or a durable publication.
/// A receiver may persist the bytes incrementally but cannot construct this
/// evidence until it has checked length, digest, the end of the stream and its deadlines.
#[derive(Debug, Clone, Copy, PartialEq, Eq)]
pub struct VerifiedPayload {
    length: Number,
    sha256: Digest,
}

impl VerifiedPayload {
    pub closed spec fn committed_length(self) -> Number {
        self.length
    }

    pub closed spec fn committed_digest(self) -> Digest {
        self.sha256
    }

    pub fn length(&self) -> (r: Number)
        ensures
            r == self.committed_length(),
    {
        self.length
    }

    pub fn sha256(&self) -> (r: Digest)
        ensures
            r == self.committed_digest(),
    {
        self.sha256
    }
}

/// How far a transfer has come.
#[derive(Debug, Clone, Copy, PartialEq, Eq, Structural)]
pub enum Phase {
    Receiving,
    Verified,
    Failed,
}

/// Constant-memory validation over borrowed receive chunks. It neither buffers the object nor
/// invokes an application callback. Times are nanoseconds of one monotonic clock.
pub struct PayloadReceiver {
    length: Number,
    expected: Digest,
    received: u64,
    hash: Hasher,
    started: u64,
    last_progress: u64,
    idle_ms: IdleMs,
    lifetime_ms: LifetimeMs,
    phase: Phase,
}

/// What the receiver knows of a transfer.
pub struct Transfer {
    pub length: Number,
    pub expected: Digest,
    pub content: Seq<u8>,
    pub started: u64,
    pub last_progress: u64,
    pub idle_ms: IdleMs,
    pub lifetime_ms: LifetimeMs,
    pub phase: Phase,
}

impl View for PayloadReceiver {
    type V = Transfer;

    closed spec fn view(&self) -> Transfer {
        Transfer {
            length: self.length,
            expected: self.expected,
            content: hashing::absorbed(self.hash),
            started: self.started,
            last_progress: self.last_progress,
            idle_ms: self.idle_ms,
            lifetime_ms: self.lifetime_ms,
            phase: self.phase,
        }
    }
}

pub open spec fn nanoseconds(ms: u64) -> nat {
    ms as nat * 1_000_000
}

impl Transfer {
    /// Why the transfer cannot go on at `now`, if it cannot. The silence is counted from the last
    /// progress, the life from the start; progress never extends the life.
    pub open spec fn deadline_refusal(self, now: u64) -> Option<ErrorCode> {
        if self.phase != Phase::Receiving {
            Some(ErrorCode::FrameError)
        } else if now < self.started || now < self.last_progress {
            Some(ErrorCode::ClockUnsafe)
        } else if now - self.started >= nanoseconds(self.lifetime_ms.0) || now - self.last_progress
            >= nanoseconds(self.idle_ms.0) {
            Some(ErrorCode::LimitExceeded)
        } else {
            None
        }
    }

    /// Why a chunk is not taken in at `now`, if it is not.
    pub open spec fn chunk_refusal(self, chunk: Seq<u8>, now: u64) -> Option<ErrorCode> {
        match self.deadline_refusal(now) {
            Some(code) => Some(code),
            None => if self.content.len() + chunk.len() > self.length.0 {
                Some(ErrorCode::IntegrityError)
            } else {
                None
            },
        }
    }

    /// The transfer with a chunk taken in at `now`. An empty one is no progress.
    pub open spec fn received(self, chunk: Seq<u8>, now: u64) -> Transfer {
        Transfer {
            content: self.content + chunk,
            last_progress: if chunk.len() > 0 {
                now
            } else {
                self.last_progress
            },
            ..self
        }
    }

    /// Why the end of the stream at `now` completes nothing, if it does not.
    pub open spec fn end_refusal(self, now: u64) -> Option<ErrorCode> {
        match self.deadline_refusal(now) {
            Some(code) => Some(code),
            None => if self.content.len() != self.length.0 || hashing::sha256(self.content)
                != self.expected.0@ {
                Some(ErrorCode::IntegrityError)
            } else {
                None
            },
        }
    }

    /// The transfer after a failure; one that had already ended stays as it was.
    pub open spec fn failed(self) -> Transfer {
        if self.phase == Phase::Receiving {
            Transfer { phase: Phase::Failed, ..self }
        } else {
            self
        }
    }
}

impl PayloadReceiver {
    /// No more than the committed length has been taken in.
    pub closed spec fn well_formed(self) -> bool {
        &&& self.received == hashing::absorbed(self.hash).len()
        &&& self.received <= self.length.0
        &&& self.lifetime_ms.0 <= 86_400_000
        &&& self.idle_ms.0 <= 300_000
    }

    pub fn new(length: Number, expected: Digest, limits: &Capabilities, now: u64) -> (r: Result<
        Self,
        Error,
    >)
        ensures
            match r {
                Ok(t) => {
                    &&& length.valid() && limits.valid() && length.0 <= limits.object_limit.0
                    &&& t.well_formed()
                    &&& t@ == (Transfer {
                        length,
                        expected,
                        content: Seq::empty(),
                        started: now,
                        last_progress: now,
                        idle_ms: limits.stream_idle_ms,
                        lifetime_ms: limits.stream_lifetime_ms,
                        phase: Phase::Receiving,
                    })
                },
                Err(e) => if !length.valid() {
                    e.code == ErrorCode::FrameError
                } else if !limits.valid() {
                    e.code == limits.refusal()
                } else {
                    length.0 > limits.object_limit.0 && e.code == ErrorCode::LimitExceeded
                },
            },
    {
        length.check()?;
        limits.check()?;
        if length.0 > limits.object_limit.0 {
            return Err(
                Error::new(
                    ErrorCode::LimitExceeded,
                    "payload exceeds negotiated object limit",
                ),
            );
        }
        Ok(
            PayloadReceiver {
                length,
                expected,
                received: 0,
                hash: hash_start(),
                started: now,
                last_progress: now,
                idle_ms: limits.stream_idle_ms,
                lifetime_ms: limits.stream_lifetime_ms,
                phase: Phase::Receiving,
            },
        )
    }

    fn fail(&mut self, code: ErrorCode, detail: &'static str) -> (e: Error)
        requires
            old(self).phase == Phase::Receiving,
        ensures
            final(self)@ == old(self)@.failed(),
            old(self).well_formed() ==> final(self).well_formed(),
            e.code == code,
    {
        self.phase = Phase::Failed;
        Error::new(code, detail)
    }

    /// Must also be driven by an endpoint timer when no payload arrives. An
    /// empty chunk does not extend idle time; progress never extends lifetime.
    pub fn check_deadline(&mut self, now: u64) -> (r: Result<(), Error>)
        requires
            old(self).well_formed(),
        ensures
            final(self).well_formed(),
            match r {
                Ok(_) => old(self)@.deadline_refusal(now) is None && *final(self) == *old(self),
                Err(e) => old(self)@.deadline_refusal(now) == Some(e.code) && final(self)@ == old(
                    self,
                )@.failed(),
            },
    {
        if self.phase != Phase::Receiving {
            return Err(Error::frame("payload receiver is no longer receiving"));
        }
        if now < self.started || now < self.last_progress {
            return Err(self.fail(ErrorCode::ClockUnsafe, "stream monotonic clock regressed"));
        }
        if now - self.started >= self.lifetime_ms.0 * 1_000_000 || now - self.last_progress
            >= self.idle_ms.0 * 1_000_000 {
            return Err(self.fail(ErrorCode::LimitExceeded, "payload stream deadline reached"));
        }
        Ok(())
    }

    pub fn receive(&mut self, chunk: &[u8], now: u64) -> (r: Result<(), Error>)
        requires
            old(self).well_formed(),
        ensures
            final(self).well_formed(),
            ({
                let t = old(self)@;
                let refusal = t.chunk_refusal(chunk@, now);
                match r {
                    Ok(_) => refusal is None && final(self)@ == t.received(chunk@, now),
                    Err(e) => refusal == Some(e.code) && final(self)@ == t.failed(),
                }
            }),
    {
        self.check_deadline(now)?;
        if chunk.len() as u64 > self.length.0 - self.received {
            return Err(
                self.fail(ErrorCode::IntegrityError, "payload exceeds committed length"),
            );
        }
        hash_update(&mut self.hash, chunk);
        self.received += chunk.len() as u64;
        if chunk.len() > 0 {
            self.last_progress = now;
        }
        Ok(())
    }

    /// Call only for a successful end of stream, never for an end caused by reset or
    /// connection loss. A premature or late end is not a verified empty result.
    pub fn finish(&mut self, now: u64) -> (r: Result<VerifiedPayload, Error>)
        requires
            old(self).well_formed(),
        ensures
            final(self).well_formed(),
            ({
                let t = old(self)@;
                let refusal = t.end_refusal(now);
                match r {
                    Ok(p) => {
                        &&& refusal is None
                        &&& final(self)@ == (Transfer { phase: Phase::Verified, ..t })
                        &&& p.committed_length() == t.length
                        &&& p.committed_digest().0@ == t.expected.0@
                    },
                    Err(e) => refusal == Some(e.code) && final(self)@ == t.failed(),
                }
            }),
    {
        self.check_deadline(now)?;
        if self.received != self.length.0 {
            return Err(self.fail(ErrorCode::IntegrityError, "truncated payload"));
        }
        let actual = Digest(hash_finish(&self.hash));
        if !actual.same(&self.expected) {
            return Err(self.fail(ErrorCode::IntegrityError, "payload digest mismatch"));
        }
        self.phase = Phase::Verified;
        Ok(VerifiedPayload { length: self.length, sha256: actual })
    }
}

/// The transfer is under way, the clock has not gone back, and it is in time: less than its lifetime since
/// it started, and less than its idle time since it last brought something.
pub open spec fn under_way(t: Transfer, now: u64) -> bool {
    &&& t.phase is Receiving
    &&& t.started <= now
    &&& t.last_progress <= now
    &&& now < t.started + t.lifetime_ms.0 * 1_000_000
    &&& now < t.last_progress + t.idle_ms.0 * 1_000_000
}

/// A transfer goes on exactly while it is under way.
pub proof fn law_transfer_goes_on_in_time(t: Transfer, now: u64)
    ensures
        t.deadline_refusal(now) is None <==> under_way(t, now),
        !(t.phase is Receiving) ==> t.deadline_refusal(now) == Some(ErrorCode::FrameError),
        t.phase is Receiving && (now < t.started || now < t.last_progress) ==> t.deadline_refusal(now)
            == Some(ErrorCode::ClockUnsafe),
{
}

/// Chunks are taken in as they come, up to the length that was committed: what has come in is what the
/// chunks hold, one behind the other, however the content was cut.
pub proof fn law_chunks_add_up(t: Transfer, a: Seq<u8>, b: Seq<u8>, now: u64)
    requires
        under_way(t, now),
    ensures
        t.chunk_refusal(a, now) is None <==> t.content.len() + a.len() <= t.length.0,
        t.chunk_refusal(a, now) is None ==> under_way(t.received(a, now), now) || t.idle_ms.0 == 0,
        t.received(a, now).content == t.content + a,
        t.received(a, now).received(b, now).content == t.received(a + b, now).content,
        t.received(a, now).started == t.started,
        t.received(a, now).length == t.length,
        t.received(a, now).expected == t.expected,
        a.len() == 0 ==> t.received(a, now).last_progress == t.last_progress,
        a.len() > 0 ==> t.received(a, now).last_progress == now,
        t.idle_ms.0 > 0 && t.chunk_refusal(a, now) is None ==> (t.received(a, now).chunk_refusal(b, now) is None
            <==> t.chunk_refusal(a + b, now) is None),
{
    assert(t.content + a + b =~= t.content + (a + b));
}

/// The end of the stream completes a transfer exactly where all of it has come in, in time, and hashes
/// to what was committed.
pub proof fn law_end_completes_the_whole(t: Transfer, now: u64)
    ensures
        t.end_refusal(now) is None <==> under_way(t, now) && t.content.len() == t.length.0
            && hashing::sha256(t.content) == t.expected.0@,
        under_way(t, now) && t.end_refusal(now) is Some ==> t.end_refusal(now) == Some(
            ErrorCode::IntegrityError,
        ),
{
}

/// A transfer that failed takes nothing in any more; one that was verified stays verified.
pub proof fn law_failed_transfer_is_over(t: Transfer, chunk: Seq<u8>, now: u64)
    ensures
        t.failed().phase is Receiving == false,
        t.failed().chunk_refusal(chunk, now) is Some,
        t.failed().end_refusal(now) is Some,
        t.phase is Verified ==> t.failed() == t,
        t.failed().content == t.content,
{
}

} // verus!
