//! Bounded connection-local correlation. No transport event in this module
//! grants an attempt or changes a durable work outcome.

use super::error::{require, Error, ErrorCode, DURABLE_WORK};
use super::messages::{Control, Drain, ResultMessage, Scope, Session, Work};
use super::negotiation::Capabilities;
use super::numbers::{Id, Literal, StreamId};
use super::records::{
    InputHeader, Manifest, OperationReceipt, Outcome, Refusal, RequestTag, ResultHeader, ScopeEntry,
};
use super::transfer::{self, PayloadReceiver, Phase, VerifiedPayload};
use super::wire::Wire;
use vstd::prelude::*;

verus! {

/// A particular response stream, bound to the book that accepted its header.
/// Moving it to an I/O task does not borrow or block the control book.
pub struct ResultTransfer {
    book: u64,
    request: Id,
    receiver: PayloadReceiver,
}

/// A response stream that was received and verified in full.
pub struct VerifiedResult {
    book: u64,
    request: Id,
    payload: VerifiedPayload,
}

impl VerifiedResult {
    pub closed spec fn book_number(self) -> u64 {
        self.book
    }

    pub closed spec fn request_number(self) -> Id {
        self.request
    }

    pub closed spec fn proof_of(self) -> VerifiedPayload {
        self.payload
    }
}

impl ResultTransfer {
    pub closed spec fn book_number(self) -> u64 {
        self.book
    }

    pub closed spec fn request_number(self) -> Id {
        self.request
    }

    pub closed spec fn progress(self) -> transfer::Transfer {
        self.receiver@
    }

    pub closed spec fn well_formed(self) -> bool {
        self.receiver.well_formed()
    }

    pub fn receive(&mut self, chunk: &[u8], now: u64) -> (r: Result<(), Error>)
        requires
            old(self).well_formed(),
        ensures
            final(self).well_formed(),
            final(self).book_number() == old(self).book_number(),
            final(self).request_number() == old(self).request_number(),
            ({
                let t = old(self).progress();
                let refusal = t.chunk_refusal(chunk@, now);
                match r {
                    Ok(_) => refusal is None && final(self).progress() == t.received(chunk@, now),
                    Err(e) => refusal == Some(e.code) && final(self).progress() == t.failed(),
                }
            }),
    {
        self.receiver.receive(chunk, now)
    }

    pub fn check_deadline(&mut self, now: u64) -> (r: Result<(), Error>)
        requires
            old(self).well_formed(),
        ensures
            final(self).well_formed(),
            final(self).book_number() == old(self).book_number(),
            final(self).request_number() == old(self).request_number(),
            match r {
                Ok(_) => old(self).progress().deadline_refusal(now) is None
                    && final(self).progress() == old(self).progress(),
                Err(e) => old(self).progress().deadline_refusal(now) == Some(e.code)
                    && final(self).progress() == old(self).progress().failed(),
            },
    {
        self.receiver.check_deadline(now)
    }

    pub fn finish(self, now: u64) -> (r: Result<VerifiedResult, Error>)
        requires
            self.well_formed(),
        ensures
            ({
                let t = self.progress();
                let refusal = t.end_refusal(now);
                match r {
                    Ok(v) => {
                        &&& refusal is None
                        &&& v.book_number() == self.book_number()
                        &&& v.request_number() == self.request_number()
                        &&& v.proof_of().committed_length() == t.length
                        &&& v.proof_of().committed_digest().0@ == t.expected.0@
                    },
                    Err(e) => refusal == Some(e.code),
                }
            }),
    {
        let mut receiver = self.receiver;
        let payload = receiver.finish(now)?;
        Ok(VerifiedResult { book: self.book, request: self.request, payload })
    }
}

/// A control request that awaits its response.
#[derive(Debug)]
pub struct Pending {
    pub id: u64,
    pub request: Control,
    pub result: Option<ResultHeader>,
    pub receiving_result: bool,
}

/// An input stream that awaits its admission.
#[derive(Debug)]
pub struct PendingInput {
    pub stream: u64,
    pub header: InputHeader,
}

/// A client book records requests before transmission and accepts responses in
/// any order. It retains no unbounded completed-ID history. A fresh connection
/// needs a fresh book, not reused request numbers in the old one.
///
/// Open requests stand in vectors in the order of their numbers: numbers only grow, so a new one goes
/// to the end, and a result stream marks its request in place, for which the specified maps have no
/// operation.
pub struct Correlation {
    identity: u64,
    selected: Capabilities,
    highest: u64,
    controls: Vec<Pending>,
    inputs: Vec<PendingInput>,
    highest_input: Option<u64>,
}

/// What a book holds.
pub struct Book {
    pub identity: u64,
    pub selected: Capabilities,
    pub highest: u64,
    pub controls: Seq<Pending>,
    pub inputs: Seq<PendingInput>,
    pub highest_input: Option<u64>,
}

impl View for Correlation {
    type V = Book;

    closed spec fn view(&self) -> Book {
        Book {
            identity: self.identity,
            selected: self.selected,
            highest: self.highest,
            controls: self.controls@,
            inputs: self.inputs@,
            highest_input: self.highest_input,
        }
    }
}

impl Book {
    /// Requests and inputs stand in the order of their numbers, none above the high-water mark,
    /// and no more are open than were negotiated.
    pub open spec fn well_formed(self) -> bool {
        &&& self.selected.valid()
        &&& self.selected.response.0 == 1
        &&& forall|i: int, j: int|
            0 <= i < j < self.controls.len() ==> (#[trigger] self.controls[i]).id < (
            #[trigger] self.controls[j]).id
        &&& forall|i: int|
            0 <= i < self.controls.len() ==> 1 <= (#[trigger] self.controls[i]).id <= self.highest
        &&& forall|i: int, j: int|
            0 <= i < j < self.inputs.len() ==> (#[trigger] self.inputs[i]).stream < (
            #[trigger] self.inputs[j]).stream
        &&& self.inputs.len() > 0 ==> self.highest_input is Some
        &&& forall|i: int|
            0 <= i < self.inputs.len() ==> (#[trigger] self.inputs[i]).stream
                <= self.highest_input->0
        &&& self.open() <= self.selected.pending_limit.0
        &&& self.inputs.len() <= self.selected.stream_limit.0
    }

    pub open spec fn open(self) -> nat {
        self.controls.len() + self.inputs.len()
    }

    /// The place of a request in the book, or the number of requests where it is not there.
    pub open spec fn control_at(self, id: u64) -> int {
        first_control(self.controls, id)
    }

    pub open spec fn input_at(self, stream: u64) -> int {
        first_input(self.inputs, stream)
    }

    pub open spec fn limit(self) -> usize {
        self.selected.control_limit.0 as usize
    }

    /// The header that a result read must be answered with, as the manifest commits to it; or why
    /// the read cannot be registered.
    pub open spec fn read_header(self, read: ResultMessage, manifest: Option<Manifest>) -> Result<
        ResultHeader,
        ErrorCode,
    > {
        match (read, manifest) {
            (ResultMessage::Read { request, work, attempt, index, expected_sha256 }, Some(m)) => if !(
            m.valid() && index.0 < m.outputs@.len() && m.work == work && m.attempt == attempt
                && m.outputs@[index.0 as int].sha256.0@ == expected_sha256.0@) {
                Err(ErrorCode::FrameError)
            } else if m.outputs@[index.0 as int].length.0 > self.selected.object_limit.0 {
                Err(ErrorCode::LimitExceeded)
            } else {
                Ok(
                    ResultHeader {
                        kind: Literal,
                        request,
                        generation: m.generation,
                        work,
                        attempt,
                        index,
                        length: m.outputs@[index.0 as int].length,
                        sha256: m.outputs@[index.0 as int].sha256,
                    },
                )
            },
            _ => Err(ErrorCode::FrameError),
        }
    }

    /// Why a request cannot be registered, if it cannot.
    pub open spec fn register_refusal(self, request: Control, manifest: Option<Manifest>) -> Option<
        ErrorCode,
    > {
        let number = request_number(request);
        if request.context_refusal(true, Some(self.selected)) is Some {
            request.context_refusal(true, Some(self.selected))
        } else if !request.sendable(self.limit()) || number is None {
            Some(ErrorCode::FrameError)
        } else if !((self.highest != 0 || (number->0).0 == 1) && (number->0).0 > self.highest) {
            Some(ErrorCode::FrameError)
        } else if self.open() >= self.selected.pending_limit.0 {
            Some(ErrorCode::LimitExceeded)
        } else {
            match request {
                Control::Result(read) if read is Read => match self.read_header(read, manifest) {
                    Ok(_) => None,
                    Err(code) => Some(code),
                },
                _ => if manifest is Some {
                    Some(ErrorCode::FrameError)
                } else {
                    None
                },
            }
        }
    }

    /// The entry that registering a request adds.
    pub open spec fn entry_for(
        self,
        request: Control,
        manifest: Option<Manifest>,
        entry: Pending,
    ) -> bool {
        &&& entry.id == (request_number(request)->0).0
        &&& entry.request.agrees(request)
        &&& !entry.receiving_result
        &&& match request {
            Control::Result(read) if read is Read => self.read_header(read, manifest) matches Ok(h)
                && entry.result matches Some(own) && own.agrees(&h),
            _ => entry.result is None,
        }
    }

    pub open spec fn input_refusal(self, stream: StreamId, header: InputHeader) -> Option<ErrorCode> {
        if !(RequestTag::Input { stream }).valid() || !header.valid() {
            Some(ErrorCode::FrameError)
        } else if !self.selected.supports(DURABLE_WORK) {
            Some(ErrorCode::ExtensionUnsupported)
        } else if self.highest_input matches Some(high) && stream.0 <= high {
            Some(ErrorCode::FrameError)
        } else if self.open() >= self.selected.pending_limit.0 || self.inputs.len()
            >= self.selected.stream_limit.0 {
            Some(ErrorCode::LimitExceeded)
        } else {
            None
        }
    }

    /// Which entry a response completes: a control request (`Ok`) or an input (`Err`).
    pub open spec fn answers(self, response: Control) -> Option<Result<int, int>> {
        match response {
            Control::Work(Work::Admitted { request: RequestTag::Input { stream }, receipt }) => {
                let i = self.input_at(stream.0);
                if i < self.inputs.len() && admission_matches(self.inputs[i].header, receipt) {
                    Some(Err(i))
                } else {
                    None
                }
            },
            Control::Refusal(Refusal { request: RequestTag::Input { stream }, .. }) => {
                let i = self.input_at(stream.0);
                if i < self.inputs.len() {
                    Some(Err(i))
                } else {
                    None
                }
            },
            _ => match request_number(response) {
                None => None,
                Some(id) => {
                    let i = self.control_at(id.0);
                    if i < self.controls.len() && !self.controls[i].receiving_result
                        && reply_matches(self.controls[i].request, response) {
                        Some(Ok(i))
                    } else {
                        None
                    }
                },
            },
        }
    }

    pub open spec fn accept_refusal(self, response: Control) -> Option<ErrorCode> {
        if response.context_refusal(false, Some(self.selected)) is Some {
            response.context_refusal(false, Some(self.selected))
        } else if !response.sendable(self.limit()) || self.answers(response) is None {
            Some(ErrorCode::FrameError)
        } else {
            None
        }
    }

    pub open spec fn without_control(self, i: int) -> Book {
        Book { controls: self.controls.remove(i), ..self }
    }

    pub open spec fn without_input(self, i: int) -> Book {
        Book { inputs: self.inputs.remove(i), ..self }
    }

    /// The proof completes a transfer that this book started and that is still open.
    pub open spec fn owes(self, verified: VerifiedResult) -> bool {
        let i = self.control_at(verified.request_number().0);
        &&& verified.book_number() == self.identity
        &&& i < self.controls.len()
        &&& self.controls[i].receiving_result
        &&& self.controls[i].result matches Some(h) && h.length
            == verified.proof_of().committed_length() && h.sha256.0@
            == verified.proof_of().committed_digest().0@
    }

    pub open spec fn transfers(self) -> nat {
        count_transfers(self.controls)
    }
}

/// What the header of a result comes to: the transfer that the book expects of it, or a refusal that
/// changes nothing.
pub open spec fn result_started(
    book: Book,
    header: ResultHeader,
    now: u64,
    r: Result<ResultTransfer, Error>,
    after: Book,
) -> bool {
    let i = book.control_at(header.request.0);
    let expected = header.valid() && i < book.controls.len() && !book.controls[i].receiving_result && (
    book.controls[i].result matches Some(h) && h.agrees(&header));
    match r {
        Ok(t) => {
            &&& expected
            &&& book.transfers() < book.selected.stream_limit.0
            &&& header.length.0 <= book.selected.object_limit.0
            &&& t.well_formed()
            &&& t.book_number() == book.identity
            &&& t.request_number() == header.request
            &&& t.progress() == (transfer::Transfer {
                length: header.length,
                expected: header.sha256,
                content: Seq::empty(),
                started: now,
                last_progress: now,
                idle_ms: book.selected.stream_idle_ms,
                lifetime_ms: book.selected.stream_lifetime_ms,
                phase: Phase::Receiving,
            })
            &&& after == (Book {
                controls: book.controls.update(
                    i,
                    (Pending { receiving_result: true, ..book.controls[i] }),
                ),
                ..book
            })
        },
        Err(e) => {
            &&& after == book
            &&& if !expected {
                e.code == ErrorCode::FrameError
            } else {
                e.code == ErrorCode::LimitExceeded && (book.transfers()
                    >= book.selected.stream_limit.0 || header.length.0 > book.selected.object_limit.0)
            }
        },
    }
}

/// What giving up a request comes to: it is no longer open, or it was not.
pub open spec fn aborted(book: Book, request: RequestTag, r: Result<(), Error>, after: Book) -> bool {
    let left = match request {
        RequestTag::Control { request: id } => if book.control_at(id.0) < book.controls.len() {
            Some(book.without_control(book.control_at(id.0)))
        } else {
            None
        },
        RequestTag::Input { stream } => if book.input_at(stream.0) < book.inputs.len() {
            Some(book.without_input(book.input_at(stream.0)))
        } else {
            None
        },
    };
    match r {
        Ok(_) => request.valid() && left == Some(after),
        Err(e) => e.code == ErrorCode::FrameError && after == book && !(request.valid()
            && left is Some),
    }
}

pub open spec fn first_control(s: Seq<Pending>, id: u64) -> int
    decreases s.len(),
{
    if s.len() == 0 || s[0].id == id {
        0
    } else {
        1 + first_control(s.drop_first(), id)
    }
}

pub open spec fn first_input(s: Seq<PendingInput>, stream: u64) -> int
    decreases s.len(),
{
    if s.len() == 0 || s[0].stream == stream {
        0
    } else {
        1 + first_input(s.drop_first(), stream)
    }
}

/// How many requests are receiving a result stream.
pub open spec fn count_transfers(s: Seq<Pending>) -> nat
    decreases s.len(),
{
    if s.len() == 0 {
        0
    } else {
        count_transfers(s.drop_last()) + if s.last().receiving_result {
            1nat
        } else {
            0
        }
    }
}

/// The receipt admits exactly what the input asked for.
pub open spec fn admission_matches(input: InputHeader, receipt: OperationReceipt) -> bool {
    input.operation.0@ == receipt.operation.0@ && admission_terms(input, receipt)
}

/// The admitted work, its time and its child scope are those of the input's parameters.
pub open spec fn admission_terms(input: InputHeader, receipt: OperationReceipt) -> bool {
    receipt.body matches Outcome::Admitted { work, admitted_at, deadline, child, .. } && {
        &&& work == input.parameters.work
        &&& deadline.0 - admitted_at.0 == input.parameters.execution_ms.0
        &&& match input.parameters.mode.0 {
            0 => child is None,
            1 => child matches Some(c) && c.producer.0 == 0,
            2 => child matches Some(c) && c.producer.0 == 1,
            _ => false,
        }
    }
}

/// The request number that a control message carries.
pub open spec fn request_number(control: Control) -> Option<Id> {
    match control {
        Control::Session(s) => Some(
            match s {
                Session::Create { request, .. } => request,
                Session::Binding { request, .. } => request,
                Session::Attach { request, .. } => request,
                Session::NextSequence { request } => request,
                Session::Sequence { request, .. } => request,
            },
        ),
        Control::Scope(s) => Some(
            match s {
                Scope::Declare { request, .. } => request,
                Scope::Declared { request, .. } => request,
                Scope::Page { request, .. } => request,
                Scope::PageResponse { request, .. } => request,
                Scope::Checkpoint { request, .. } => request,
                Scope::CheckpointResponse { request, .. } => request,
                Scope::Cancel { request, .. } => request,
                Scope::Cancelled { request, .. } => request,
            },
        ),
        Control::Work(w) => match w {
            Work::Admitted { .. } => None,
            Work::Operation { request, .. } => Some(request),
            Work::OperationResponse { request, .. } => Some(request),
            Work::Watch { request, .. } => Some(request),
            Work::View { request, .. } => Some(request),
            Work::Retry { request, .. } => Some(request),
            Work::Retried { request, .. } => Some(request),
            Work::Cancel { request, .. } => Some(request),
            Work::Cancelled { request, .. } => Some(request),
            Work::Skip { request, .. } => Some(request),
            Work::Skipped { request, .. } => Some(request),
        },
        Control::Result(r) => Some(
            match r {
                ResultMessage::Read { request, .. } => request,
                ResultMessage::GetManifest { request, .. } => request,
                ResultMessage::ManifestResponse { request, .. } => request,
            },
        ),
        Control::Drain(d) => Some(
            match d {
                Drain::Complete { request, .. } => request,
                Drain::Completed { request, .. } => request,
                Drain::Detach { request } => request,
                Drain::Detached { request } => request,
            },
        ),
        Control::Refusal(Refusal { request: RequestTag::Control { request }, .. }) => Some(request),
        _ => None,
    }
}

/// The response is of the kind that the request asks for and repeats what the request fixed. A
/// refusal answers every request.
pub open spec fn reply_matches(request: Control, response: Control) -> bool {
    match (request, response) {
        (_, Control::Refusal(_)) => true,
        (Control::Session(a), Control::Session(b)) => session_matches(a, b),
        (Control::Scope(a), Control::Scope(b)) => scope_matches(a, b),
        (Control::Work(a), Control::Work(b)) => work_matches(a, b),
        (
            Control::Result(ResultMessage::GetManifest { work, attempt, .. }),
            Control::Result(ResultMessage::ManifestResponse { manifest, .. }),
        ) => manifest.work == work && manifest.attempt == attempt,
        (
            Control::Drain(Drain::Complete { generation, root_summary, .. }),
            Control::Drain(Drain::Completed { generation: g, root_summary: s, .. }),
        ) => generation == g && root_summary.agrees(&s),
        (Control::Drain(Drain::Detach { .. }), Control::Drain(Drain::Detached { .. })) => true,
        _ => false,
    }
}

pub open spec fn session_matches(request: Session, response: Session) -> bool {
    match (request, response) {
        (
            Session::Create { creation_sequence, policy, .. },
            Session::Binding { creation_sequence: actual, policy: bound, .. },
        ) => creation_sequence == actual && policy == bound,
        (
            Session::Attach { authority, owner, generation, .. },
            Session::Binding { authority: a, owner: o, generation: g, .. },
        ) => authority.0@ == a.0@ && owner.0@ == o.0@ && generation == g,
        (Session::NextSequence { .. }, Session::Sequence { .. }) => true,
        _ => false,
    }
}

pub open spec fn scope_matches(request: Scope, response: Scope) -> bool {
    match (request, response) {
        (
            Scope::Declare { operation, scope, entity_ids, seal, .. },
            Scope::Declared { receipt, .. },
        ) => receipt.operation.0@ == operation.0@ && (receipt.body matches Outcome::Declared {
            scope: s,
            accepted_count,
            seal: digest,
            ..
        } && s == scope && accepted_count.0 == entity_ids@.len() && (digest is Some) == seal),
        (
            Scope::Page { scope, after_entity, limit, .. },
            Scope::PageResponse { scope: s, entries, .. },
        ) => scope == s && entries@.len() <= limit.0 && forall|i: int|
            0 <= i < entries@.len() ==> (#[trigger] entries@[i]).entity.0 > after_entity.0,
        (Scope::Checkpoint { scope, seal, .. }, Scope::CheckpointResponse { summary, .. }) =>
        summary.scope == scope && summary.seal.0@ == seal.0@,
        (Scope::Cancel { operation, scope, .. }, Scope::Cancelled { receipt, .. }) =>
        receipt.operation.0@ == operation.0@ && (receipt.body matches Outcome::ScopeCancelled {
            scope: s,
            ..
        } && s == scope),
        _ => false,
    }
}

pub open spec fn work_matches(request: Work, response: Work) -> bool {
    match (request, response) {
        (Work::Operation { operation, .. }, Work::OperationResponse { receipt, .. }) =>
        receipt.operation.0@ == operation.0@,
        (
            Work::Watch { work, after_revision, .. },
            Work::View { work: view, revision, .. },
        ) => work == view.work && revision.0 >= after_revision.0,
        (
            Work::Retry { operation, work, expected_attempt, .. },
            Work::Retried { receipt, .. },
        ) => receipt.operation.0@ == operation.0@ && (receipt.body matches Outcome::Retried {
            work: w,
            expected_attempt: a,
            ..
        } && w == work && a == expected_attempt),
        (Work::Cancel { operation, work, .. }, Work::Cancelled { receipt, .. }) =>
        receipt.operation.0@ == operation.0@ && (receipt.body matches Outcome::Cancelled {
            work: w,
            ..
        } && w == work),
        (Work::Skip { operation, work, .. }, Work::Skipped { receipt, .. }) =>
        receipt.operation.0@ == operation.0@ && (receipt.body matches Outcome::Skipped {
            work: w,
            ..
        } && w == work),
        _ => false,
    }
}

pub proof fn lemma_first_control(s: Seq<Pending>, id: u64, i: int)
    requires
        0 <= i <= s.len(),
        forall|j: int| 0 <= j < i ==> (#[trigger] s[j]).id != id,
        i < s.len() ==> s[i].id == id,
    ensures
        first_control(s, id) == i,
    decreases s.len(),
{
    if i > 0 {
        assert(s[0].id != id);
        assert forall|j: int| 0 <= j < i - 1 implies (#[trigger] s.drop_first()[j]).id != id by {
            assert(s[j + 1].id != id);
        }
        lemma_first_control(s.drop_first(), id, i - 1);
    }
}

pub proof fn lemma_first_input(s: Seq<PendingInput>, stream: u64, i: int)
    requires
        0 <= i <= s.len(),
        forall|j: int| 0 <= j < i ==> (#[trigger] s[j]).stream != stream,
        i < s.len() ==> s[i].stream == stream,
    ensures
        first_input(s, stream) == i,
    decreases s.len(),
{
    if i > 0 {
        assert(s[0].stream != stream);
        assert forall|j: int| 0 <= j < i - 1 implies (#[trigger] s.drop_first()[j]).stream
            != stream by {
            assert(s[j + 1].stream != stream);
        }
        lemma_first_input(s.drop_first(), stream, i - 1);
    }
}

/// Removing an entry keeps the order of the others.
proof fn lemma_removal(book: Book)
    requires
        book.well_formed(),
    ensures
        forall|i: int| 0 <= i < book.controls.len() ==> (#[trigger] book.without_control(i)).well_formed(),
        forall|i: int| 0 <= i < book.inputs.len() ==> (#[trigger] book.without_input(i)).well_formed(),
{
    assert forall|i: int| 0 <= i < book.controls.len() implies (
    #[trigger] book.without_control(i)).well_formed() by {
        lemma_control_removal(book, i);
    }
    assert forall|i: int| 0 <= i < book.inputs.len() implies (
    #[trigger] book.without_input(i)).well_formed() by {
        lemma_input_removal(book, i);
    }
}

proof fn lemma_control_removal(book: Book, i: int)
    requires
        book.well_formed(),
        0 <= i < book.controls.len(),
    ensures
        book.without_control(i).well_formed(),
{
    let s = book.controls;
    let after = book.without_control(i);
    let t = after.controls;
    assert forall|j: int| 0 <= j < t.len() implies #[trigger] t[j] == s[if j < i {
        j
    } else {
        j + 1
    }] by {}
    assert forall|j: int, k: int| 0 <= j < k < after.controls.len() implies (
    #[trigger] after.controls[j]).id < (#[trigger] after.controls[k]).id by {
        assert(t[j].id < t[k].id);
    }
}

proof fn lemma_input_removal(book: Book, i: int)
    requires
        book.well_formed(),
        0 <= i < book.inputs.len(),
    ensures
        book.without_input(i).well_formed(),
{
    let s = book.inputs;
    let after = book.without_input(i);
    let t = after.inputs;
    assert forall|j: int| 0 <= j < t.len() implies #[trigger] t[j] == s[if j < i {
        j
    } else {
        j + 1
    }] by {}
    assert forall|j: int, k: int| 0 <= j < k < after.inputs.len() implies (
    #[trigger] after.inputs[j]).stream < (#[trigger] after.inputs[k]).stream by {
        assert(t[j].stream < t[k].stream);
    }
}

impl Correlation {
    /// Opens a book for one connection. `identity` tells the books of a process apart.
    pub fn new(selected: Capabilities, identity: u64) -> (r: Result<Self, Error>)
        ensures
            match r {
                Ok(book) => {
                    &&& selected.valid() && selected.response.0 == 1
                    &&& book@.well_formed()
                    &&& book@ == (Book {
                        identity,
                        selected,
                        highest: 0,
                        controls: Seq::empty(),
                        inputs: Seq::empty(),
                        highest_input: None,
                    })
                },
                Err(e) => if !selected.valid() {
                    e.code == selected.refusal()
                } else {
                    selected.response.0 != 1 && e.code == ErrorCode::FrameError
                },
            },
    {
        selected.check()?;
        require(selected.response.0 == 1, "correlation requires negotiated selection")?;
        Ok(
            Correlation {
                identity,
                selected,
                highest: 0,
                controls: Vec::new(),
                inputs: Vec::new(),
                highest_input: None,
            },
        )
    }

    pub fn pending(&self) -> (r: usize)
        requires
            self@.well_formed(),
        ensures
            r == self@.open(),
    {
        self.controls.len() + self.inputs.len()
    }

    fn capacity(&self) -> (r: Result<(), Error>)
        requires
            self@.well_formed(),
        ensures
            match r {
                Ok(_) => self@.open() < self@.selected.pending_limit.0,
                Err(e) => self@.open() >= self@.selected.pending_limit.0 && e.code
                    == ErrorCode::LimitExceeded,
            },
    {
        if self.pending() as u64 >= self.selected.pending_limit.0 {
            Err(Error::new(ErrorCode::LimitExceeded, "pending request limit reached"))
        } else {
            Ok(())
        }
    }

    fn find_control(&self, id: u64) -> (r: Option<usize>)
        ensures
            match r {
                Some(i) => i == self@.control_at(id) && i < self@.controls.len()
                    && self@.controls[i as int].id == id,
                None => self@.control_at(id) == self@.controls.len(),
            },
    {
        let mut i: usize = 0;
        while i < self.controls.len()
            invariant
                i <= self.controls@.len(),
                forall|j: int| 0 <= j < i ==> (#[trigger] self.controls@[j]).id != id,
            decreases self.controls@.len() - i,
        {
            if self.controls[i].id == id {
                proof {
                    lemma_first_control(self.controls@, id, i as int);
                }
                return Some(i);
            }
            i += 1;
        }
        proof {
            lemma_first_control(self.controls@, id, i as int);
        }
        None
    }

    fn find_input(&self, stream: u64) -> (r: Option<usize>)
        ensures
            match r {
                Some(i) => i == self@.input_at(stream) && i < self@.inputs.len()
                    && self@.inputs[i as int].stream == stream,
                None => self@.input_at(stream) == self@.inputs.len(),
            },
    {
        let mut i: usize = 0;
        while i < self.inputs.len()
            invariant
                i <= self.inputs@.len(),
                forall|j: int| 0 <= j < i ==> (#[trigger] self.inputs@[j]).stream != stream,
            decreases self.inputs@.len() - i,
        {
            if self.inputs[i].stream == stream {
                proof {
                    lemma_first_input(self.inputs@, stream, i as int);
                }
                return Some(i);
            }
            i += 1;
        }
        proof {
            lemma_first_input(self.inputs@, stream, i as int);
        }
        None
    }

    fn result_header(&self, read: &ResultMessage, manifest: Option<&Manifest>) -> (r: Result<
        ResultHeader,
        Error,
    >)
        requires
            read is Read,
        ensures
            ({
                let held = match manifest {
                    Some(m) => Some(*m),
                    None => None,
                };
                match r {
                    Ok(own) => self@.read_header(*read, held) matches Ok(h) && own.agrees(&h),
                    Err(e) => self@.read_header(*read, held) matches Err(code) && code == e.code,
                }
            }),
    {
        match (read, manifest) {
            (
                ResultMessage::Read { request, work, attempt, index, expected_sha256 },
                Some(manifest),
            ) => {
                manifest.check()?;
                if index.0 >= manifest.outputs.len() as u64 {
                    return Err(Error::frame("result index absent from manifest"));
                }
                let output = &manifest.outputs[index.0 as usize];
                require(
                    manifest.work == *work && manifest.attempt == *attempt && output.sha256.same(
                        expected_sha256,
                    ),
                    "result request disagrees with manifest",
                )?;
                if output.length.0 > self.selected.object_limit.0 {
                    return Err(
                        Error::new(ErrorCode::LimitExceeded, "result exceeds object limit"),
                    );
                }
                Ok(
                    ResultHeader {
                        kind: Literal,
                        request: *request,
                        generation: manifest.generation,
                        work: *work,
                        attempt: *attempt,
                        index: *index,
                        length: output.length,
                        sha256: output.sha256,
                    },
                )
            },
            _ => Err(Error::frame("result read needs retained manifest")),
        }
    }

    /// Records a request before it is sent. A result read must supply the previously
    /// authenticated manifest. The book compares its object commitment but does not
    /// authenticate that record.
    pub fn register(&mut self, request: &Control, manifest: Option<&Manifest>) -> (r: Result<
        (),
        Error,
    >)
        requires
            old(self)@.well_formed(),
        ensures
            final(self)@.well_formed(),
            ({
                let held = match manifest {
                    Some(m) => Some(*m),
                    None => None,
                };
                match r {
                    Ok(_) => {
                        let entry = final(self)@.controls.last();
                        &&& old(self)@.register_refusal(*request, held) is None
                        &&& old(self)@.entry_for(*request, held, entry)
                        &&& final(self)@ == (Book {
                            highest: (request_number(*request)->0).0,
                            controls: old(self)@.controls.push(entry),
                            ..old(self)@
                        })
                    },
                    Err(e) => old(self)@.register_refusal(*request, held) == Some(e.code)
                        && final(self)@ == old(self)@,
                }
            }),
    {
        request.validate_context(true, Some(&self.selected))?;
        // Public constructed fields are validated too, not only decoded requests.
        match request.encode(self.selected.control_limit.0 as usize) {
            Ok(_) => {},
            Err(e) => {
                return Err(e);
            },
        }
        let id = match request_id(request) {
            Some(id) => id,
            None => {
                return Err(Error::frame("not a correlated control request"));
            },
        };
        require(
            (self.highest != 0 || id.0 == 1) && id.0 > self.highest,
            "request ID not increasing from one",
        )?;
        self.capacity()?;
        let result = match request {
            Control::Result(read) => {
                if matches!(read, ResultMessage::Read { .. }) {
                    Some(self.result_header(read, manifest)?)
                } else {
                    require(manifest.is_none(), "manifest supplied for a non-object request")?;
                    None
                }
            },
            _ => {
                require(manifest.is_none(), "manifest supplied for a non-object request")?;
                None
            },
        };
        let entry = Pending {
            id: id.0,
            request: request.duplicate(),
            result,
            receiving_result: false,
        };
        self.controls.push(entry);
        self.highest = id.0;
        Ok(())
    }

    /// Registers actual locally allocated input stream numbers, in allocation order
    /// (not network arrival order). The high-water mark prevents reuse.
    pub fn register_input(&mut self, stream: StreamId, header: &InputHeader) -> (r: Result<(), Error>)
        requires
            old(self)@.well_formed(),
        ensures
            final(self)@.well_formed(),
            match r {
                Ok(_) => {
                    let entry = final(self)@.inputs.last();
                    &&& old(self)@.input_refusal(stream, *header) is None
                    &&& entry.stream == stream.0
                    &&& entry.header.agrees(header)
                    &&& final(self)@ == (Book {
                        inputs: old(self)@.inputs.push(entry),
                        highest_input: Some(stream.0),
                        ..old(self)@
                    })
                },
                Err(e) => old(self)@.input_refusal(stream, *header) == Some(e.code) && final(self)@
                    == old(self)@,
            },
    {
        RequestTag::Input { stream }.check()?;
        header.check()?;
        if !self.selected.has(DURABLE_WORK) {
            return Err(
                Error::new(ErrorCode::ExtensionUnsupported, "input requires durable profile"),
            );
        }
        let fresh = match self.highest_input {
            Some(high) => stream.0 > high,
            None => true,
        };
        require(fresh, "input stream ID reused")?;
        self.capacity()?;
        if self.inputs.len() as u64 >= self.selected.stream_limit.0 {
            return Err(Error::new(ErrorCode::LimitExceeded, "incoming admission limit reached"));
        }
        self.inputs.push(PendingInput { stream: stream.0, header: header.duplicate() });
        self.highest_input = Some(stream.0);
        Ok(())
    }

    /// A control response completes its request only after shape, kind and known
    /// identity checks. Callers must still verify receipts' operation digests and
    /// retained session fields before accepting their durable claims.
    pub fn accept(&mut self, response: &Control) -> (r: Result<(), Error>)
        requires
            old(self)@.well_formed(),
        ensures
            final(self)@.well_formed(),
            match r {
                Ok(_) => old(self)@.accept_refusal(*response) is None && (match old(self)@.answers(
                    *response,
                ) {
                    Some(Ok(i)) => final(self)@ == old(self)@.without_control(i),
                    Some(Err(i)) => final(self)@ == old(self)@.without_input(i),
                    None => false,
                }),
                Err(e) => old(self)@.accept_refusal(*response) == Some(e.code) && final(self)@
                    == old(self)@,
            },
    {
        response.validate_context(false, Some(&self.selected))?;
        match response.encode(self.selected.control_limit.0 as usize) {
            Ok(_) => {},
            Err(e) => {
                return Err(e);
            },
        }
        proof {
            lemma_removal(self@);
        }
        match response {
            Control::Work(
                Work::Admitted { request: RequestTag::Input { stream }, receipt },
            ) => {
                let i = match self.find_input(stream.0) {
                    Some(i) => i,
                    None => {
                        return Err(Error::frame("unsolicited admission response"));
                    },
                };
                require(
                    self.inputs[i].header.operation.same(&receipt.operation),
                    "admission operation mismatch",
                )?;
                require(
                    admission_agrees(&self.inputs[i].header, receipt),
                    "admission receipt disagrees with input parameters",
                )?;
                self.inputs.remove(i);
                assert(self@ == old(self)@.without_input(i as int));
                return Ok(());
            },
            Control::Refusal(Refusal { request: RequestTag::Input { stream }, .. }) => {
                let i = match self.find_input(stream.0) {
                    Some(i) => i,
                    None => {
                        return Err(Error::frame("unsolicited input refusal"));
                    },
                };
                self.inputs.remove(i);
                assert(self@ == old(self)@.without_input(i as int));
                return Ok(());
            },
            _ => {},
        }
        let id = match request_id(response) {
            Some(id) => id,
            None => {
                return Err(Error::frame("not a correlated control response"));
            },
        };
        let i = match self.find_control(id.0) {
            Some(i) => i,
            None => {
                return Err(Error::frame("unsolicited or duplicate response"));
            },
        };
        require(
            !self.controls[i].receiving_result,
            "second control response after result header",
        )?;
        validate_reply(&self.controls[i].request, response)?;
        self.controls.remove(i);
        assert(self@ == old(self)@.without_control(i as int));
        Ok(())
    }

    fn receiving(&self) -> (n: u64)
        requires
            self@.well_formed(),
        ensures
            n == self@.transfers(),
    {
        let mut n: u64 = 0;
        let mut i: usize = 0;
        while i < self.controls.len()
            invariant
                i <= self.controls@.len() <= 1024,
                n == count_transfers(self.controls@.take(i as int)),
                n <= i,
            decreases self.controls@.len() - i,
        {
            assert(self.controls@.take(i + 1).drop_last() =~= self.controls@.take(i as int));
            if self.controls[i].receiving_result {
                n += 1;
            }
            i += 1;
        }
        assert(self.controls@.take(i as int) =~= self.controls@);
        n
    }

    /// The header starts delivery, not request completion. The returned receiver
    /// can validate incrementally without occupying the control reader.
    pub fn start_result(&mut self, header: &ResultHeader, now: u64) -> (r: Result<
        ResultTransfer,
        Error,
    >)
        requires
            old(self)@.well_formed(),
        ensures
            final(self)@.well_formed(),
            result_started(old(self)@, *header, now, r, final(self)@),
    {
        header.check()?;
        let i = match self.find_control(header.request.0) {
            Some(i) => i,
            None => {
                return Err(Error::frame("unsolicited result stream"));
            },
        };
        let agreed = match &self.controls[i].result {
            Some(h) => h.same(header),
            None => false,
        };
        require(
            !self.controls[i].receiving_result && agreed,
            "duplicate or mismatched result header",
        )?;
        if self.receiving() >= self.selected.stream_limit.0 {
            return Err(Error::new(ErrorCode::LimitExceeded, "result stream limit reached"));
        }
        let receiver = PayloadReceiver::new(header.length, header.sha256, &self.selected, now)?;
        let ghost before = self.controls@;
        let mut entry = self.controls.remove(i);
        entry.receiving_result = true;
        self.controls.insert(i, entry);
        assert(self.controls@ =~= before.update(
            i as int,
            (Pending { receiving_result: true, ..before[i as int] }),
        ));
        Ok(ResultTransfer { book: self.identity, request: header.request, receiver })
    }

    /// Completes a result read with the proof of a transfer that this book started.
    pub fn finish_result(&mut self, verified: VerifiedResult) -> (r: Result<(), Error>)
        requires
            old(self)@.well_formed(),
        ensures
            final(self)@.well_formed(),
            ({
                let book = old(self)@;
                let i = book.control_at(verified.request_number().0);
                match r {
                    Ok(_) => book.owes(verified) && final(self)@ == book.without_control(i),
                    Err(e) => !book.owes(verified) && e.code == ErrorCode::FrameError
                        && final(self)@ == book,
                }
            }),
    {
        require(self.identity == verified.book, "result belongs to another connection")?;
        proof {
            lemma_removal(self@);
        }
        let i = match self.find_control(verified.request.0) {
            Some(i) => i,
            None => {
                return Err(Error::frame("unknown result completion"));
            },
        };
        let committed = match &self.controls[i].result {
            Some(h) => h.length == verified.payload.length() && h.sha256.same(
                &verified.payload.sha256(),
            ),
            None => false,
        };
        require(
            self.controls[i].receiving_result && committed,
            "unverified result completion",
        )?;
        self.controls.remove(i);
        assert(self@ == old(self)@.without_control(i as int));
        Ok(())
    }

    /// Local transport failure releases only correlation capacity. The caller
    /// records delivery failure or uncertainty; it must not infer work cancellation.
    pub fn abort(&mut self, request: &RequestTag) -> (r: Result<(), Error>)
        requires
            old(self)@.well_formed(),
        ensures
            final(self)@.well_formed(),
            aborted(old(self)@, *request, r, final(self)@),
    {
        request.check()?;
        proof {
            lemma_removal(self@);
        }
        match request {
            RequestTag::Control { request: id } => match self.find_control(id.0) {
                Some(i) => {
                    self.controls.remove(i);
                    assert(self@ == old(self)@.without_control(i as int));
                    Ok(())
                },
                None => Err(Error::frame("unknown request abort")),
            },
            RequestTag::Input { stream } => match self.find_input(stream.0) {
                Some(i) => {
                    self.inputs.remove(i);
                    assert(self@ == old(self)@.without_input(i as int));
                    Ok(())
                },
                None => Err(Error::frame("unknown request abort")),
            },
        }
    }
}

fn admission_agrees(input: &InputHeader, receipt: &OperationReceipt) -> (r: bool)
    requires
        receipt.valid(),
    ensures
        r == admission_terms(*input, *receipt),
{
    match &receipt.body {
        Outcome::Admitted { work, admitted_at, deadline, child, .. } => {
            *work == input.parameters.work && deadline.0 - admitted_at.0
                == input.parameters.execution_ms.0 && (match input.parameters.mode.0 {
                0 => child.is_none(),
                1 => match child {
                    Some(c) => c.producer.0 == 0,
                    None => false,
                },
                2 => match child {
                    Some(c) => c.producer.0 == 1,
                    None => false,
                },
                _ => false,
            })
        },
        _ => false,
    }
}

/// The request number that a control message carries.
pub fn request_id(control: &Control) -> (r: Option<Id>)
    ensures
        r == request_number(*control),
{
    match control {
        Control::Session(s) => Some(
            match s {
                Session::Create { request, .. } => *request,
                Session::Binding { request, .. } => *request,
                Session::Attach { request, .. } => *request,
                Session::NextSequence { request } => *request,
                Session::Sequence { request, .. } => *request,
            },
        ),
        Control::Scope(s) => Some(
            match s {
                Scope::Declare { request, .. } => *request,
                Scope::Declared { request, .. } => *request,
                Scope::Page { request, .. } => *request,
                Scope::PageResponse { request, .. } => *request,
                Scope::Checkpoint { request, .. } => *request,
                Scope::CheckpointResponse { request, .. } => *request,
                Scope::Cancel { request, .. } => *request,
                Scope::Cancelled { request, .. } => *request,
            },
        ),
        Control::Work(w) => match w {
            Work::Admitted { .. } => None,
            Work::Operation { request, .. } => Some(*request),
            Work::OperationResponse { request, .. } => Some(*request),
            Work::Watch { request, .. } => Some(*request),
            Work::View { request, .. } => Some(*request),
            Work::Retry { request, .. } => Some(*request),
            Work::Retried { request, .. } => Some(*request),
            Work::Cancel { request, .. } => Some(*request),
            Work::Cancelled { request, .. } => Some(*request),
            Work::Skip { request, .. } => Some(*request),
            Work::Skipped { request, .. } => Some(*request),
        },
        Control::Result(r) => Some(
            match r {
                ResultMessage::Read { request, .. } => *request,
                ResultMessage::GetManifest { request, .. } => *request,
                ResultMessage::ManifestResponse { request, .. } => *request,
            },
        ),
        Control::Drain(d) => Some(
            match d {
                Drain::Complete { request, .. } => *request,
                Drain::Completed { request, .. } => *request,
                Drain::Detach { request } => *request,
                Drain::Detached { request } => *request,
            },
        ),
        Control::Refusal(Refusal { request: RequestTag::Control { request }, .. }) => Some(*request),
        _ => None,
    }
}

fn page_after(entries: &Vec<ScopeEntry>, after: u64) -> (r: bool)
    ensures
        r == forall|i: int| 0 <= i < entries@.len() ==> (#[trigger] entries@[i]).entity.0 > after,
{
    let mut i: usize = 0;
    while i < entries.len()
        invariant
            i <= entries@.len(),
            forall|j: int| 0 <= j < i ==> (#[trigger] entries@[j]).entity.0 > after,
        decreases entries@.len() - i,
    {
        if entries[i].entity.0 <= after {
            assert(entries@[i as int].entity.0 <= after);
            return false;
        }
        i += 1;
    }
    true
}

fn session_reply(request: &Session, response: &Session) -> (r: bool)
    ensures
        r == session_matches(*request, *response),
{
    match (request, response) {
        (
            Session::Create { creation_sequence, policy, .. },
            Session::Binding { creation_sequence: actual, policy: bound, .. },
        ) => *creation_sequence == *actual && *policy == *bound,
        (
            Session::Attach { authority, owner, generation, .. },
            Session::Binding { authority: a, owner: o, generation: g, .. },
        ) => authority.same(a) && owner.same(o) && *generation == *g,
        (Session::NextSequence { .. }, Session::Sequence { .. }) => true,
        _ => false,
    }
}

fn scope_reply(request: &Scope, response: &Scope) -> (r: bool)
    ensures
        r == scope_matches(*request, *response),
{
    match (request, response) {
        (
            Scope::Declare { operation, scope, entity_ids, seal, .. },
            Scope::Declared { receipt, .. },
        ) => receipt.operation.same(operation) && (match &receipt.body {
            Outcome::Declared { scope: s, accepted_count, seal: digest, .. } => *s == *scope
                && accepted_count.0 == entity_ids.len() as u64 && digest.is_some() == *seal,
            _ => false,
        }),
        (
            Scope::Page { scope, after_entity, limit, .. },
            Scope::PageResponse { scope: s, entries, .. },
        ) => *scope == *s && entries.len() as u64 <= limit.0 && page_after(entries, after_entity.0),
        (Scope::Checkpoint { scope, seal, .. }, Scope::CheckpointResponse { summary, .. }) =>
        summary.scope == *scope && summary.seal.same(seal),
        (Scope::Cancel { operation, scope, .. }, Scope::Cancelled { receipt, .. }) =>
        receipt.operation.same(operation) && (match &receipt.body {
            Outcome::ScopeCancelled { scope: s, .. } => *s == *scope,
            _ => false,
        }),
        _ => false,
    }
}

fn work_reply(request: &Work, response: &Work) -> (r: bool)
    ensures
        r == work_matches(*request, *response),
{
    match (request, response) {
        (Work::Operation { operation, .. }, Work::OperationResponse { receipt, .. }) =>
        receipt.operation.same(operation),
        (
            Work::Watch { work, after_revision, .. },
            Work::View { work: view, revision, .. },
        ) => *work == view.work && revision.0 >= after_revision.0,
        (
            Work::Retry { operation, work, expected_attempt, .. },
            Work::Retried { receipt, .. },
        ) => receipt.operation.same(operation) && (match &receipt.body {
            Outcome::Retried { work: w, expected_attempt: a, .. } => *w == *work && *a
                == *expected_attempt,
            _ => false,
        }),
        (Work::Cancel { operation, work, .. }, Work::Cancelled { receipt, .. }) =>
        receipt.operation.same(operation) && (match &receipt.body {
            Outcome::Cancelled { work: w, .. } => *w == *work,
            _ => false,
        }),
        (Work::Skip { operation, work, .. }, Work::Skipped { receipt, .. }) =>
        receipt.operation.same(operation) && (match &receipt.body {
            Outcome::Skipped { work: w, .. } => *w == *work,
            _ => false,
        }),
        _ => false,
    }
}

/// Holds a response against the request that it answers.
pub fn validate_reply(request: &Control, response: &Control) -> (r: Result<(), Error>)
    ensures
        match r {
            Ok(_) => reply_matches(*request, *response),
            Err(e) => !reply_matches(*request, *response) && e.code == ErrorCode::FrameError,
        },
{
    let matched = match (request, response) {
        (_, Control::Refusal(_)) => true,
        (Control::Session(a), Control::Session(b)) => session_reply(a, b),
        (Control::Scope(a), Control::Scope(b)) => scope_reply(a, b),
        (Control::Work(a), Control::Work(b)) => work_reply(a, b),
        (
            Control::Result(ResultMessage::GetManifest { work, attempt, .. }),
            Control::Result(ResultMessage::ManifestResponse { manifest, .. }),
        ) => manifest.work == *work && manifest.attempt == *attempt,
        (
            Control::Drain(Drain::Complete { generation, root_summary, .. }),
            Control::Drain(Drain::Completed { generation: g, root_summary: s, .. }),
        ) => *generation == *g && root_summary.same(s),
        (Control::Drain(Drain::Detach { .. }), Control::Drain(Drain::Detached { .. })) => true,
        _ => false,
    };
    require(matched, "response kind or committed fields mismatch")
}

/// A response that was accepted once is not accepted again before its number is registered anew,
/// which never happens: the number is gone from the book and stays below the high-water mark.
pub proof fn law_response_completes_once(book: Book, id: u64)
    requires
        book.well_formed(),
        book.control_at(id) < book.controls.len(),
    ensures
        ({
            let after = book.without_control(book.control_at(id));
            &&& after.control_at(id) == after.controls.len()
            &&& id <= after.highest
            &&& after.open() + 1 == book.open()
        }),
{
    lemma_control_found(book.controls, id);
    let i = book.control_at(id);
    let t = book.controls.remove(i);
    assert forall|j: int| 0 <= j < t.len() implies (#[trigger] t[j]).id != id by {
        let a = if j < i { j } else { j + 1 };
        assert(t[j] == book.controls[a]);
        if a < i {
            assert(book.controls[a].id < book.controls[i].id);
        } else {
            assert(book.controls[i].id < book.controls[a].id);
        }
    }
    lemma_first_control(t, id, t.len() as int);
}

pub proof fn lemma_control_found(s: Seq<Pending>, id: u64)
    ensures
        0 <= first_control(s, id) <= s.len(),
        first_control(s, id) < s.len() ==> s[first_control(s, id)].id == id,
    decreases s.len(),
{
    if s.len() > 0 && s[0].id != id {
        lemma_control_found(s.drop_first(), id);
    }
}

/// A response in any order leaves every other open request as it was.
pub proof fn law_other_requests_unchanged(book: Book, id: u64, other: u64)
    requires
        book.well_formed(),
        book.control_at(id) < book.controls.len(),
        book.control_at(other) < book.controls.len(),
        id != other,
    ensures
        ({
            let after = book.without_control(book.control_at(id));
            &&& after.control_at(other) < after.controls.len()
            &&& after.controls[after.control_at(other)] == book.controls[book.control_at(other)]
        }),
{
    lemma_control_found(book.controls, id);
    lemma_control_found(book.controls, other);
    let i = book.control_at(id);
    let k = book.control_at(other);
    let t = book.controls.remove(i);
    let at = if k < i { k } else { k - 1 };
    assert(t[at] == book.controls[k]);
    assert forall|j: int| 0 <= j < at implies (#[trigger] t[j]).id != other by {
        let a = if j < i { j } else { j + 1 };
        assert(t[j] == book.controls[a]);
        assert(book.controls[a].id < book.controls[k].id);
    }
    lemma_first_control(t, other, at);
}

/// What happens to a book.
pub enum Event {
    /// A request was registered.
    Registered(Control, Option<Manifest>),
    /// An input stream was registered.
    Admitting(StreamId, InputHeader),
    /// A response was accepted.
    Accepted(Control),
    /// A result stream was started.
    Started(ResultHeader),
    /// A request was given up.
    Aborted(RequestTag),
    /// A result stream was completed.
    Finished(VerifiedResult),
    /// Something was refused.
    Refused,
}

impl Book {
    /// The event leads from the one book to the other.
    #[verifier::opaque]
    pub open spec fn turns(self, event: Event, after: Book) -> bool {
        match event {
            Event::Registered(request, manifest) => {
                let entry = after.controls.last();
                &&& self.register_refusal(request, manifest) is None
                &&& self.entry_for(request, manifest, entry)
                &&& after == (Book {
                    highest: (request_number(request)->0).0,
                    controls: self.controls.push(entry),
                    ..self
                })
            },
            Event::Admitting(stream, header) => {
                &&& self.input_refusal(stream, header) is None
                &&& after == (Book {
                    inputs: self.inputs.push(after.inputs.last()),
                    highest_input: Some(stream.0),
                    ..self
                })
            },
            Event::Accepted(response) => self.accept_refusal(response) is None && match self.answers(
                response,
            ) {
                Some(Ok(i)) => after == self.without_control(i),
                Some(Err(i)) => after == self.without_input(i),
                None => false,
            },
            Event::Started(header) => {
                let i = self.control_at(header.request.0);
                &&& i < self.controls.len()
                &&& !self.controls[i].receiving_result
                &&& self.controls[i].result matches Some(h) && h.agrees(&header)
                &&& after == (Book {
                    controls: self.controls.update(
                        i,
                        (Pending { receiving_result: true, ..self.controls[i] }),
                    ),
                    ..self
                })
            },
            Event::Aborted(RequestTag::Control { request }) => self.control_at(request.0)
                < self.controls.len() && after == self.without_control(self.control_at(request.0)),
            Event::Aborted(RequestTag::Input { stream }) => self.input_at(stream.0)
                < self.inputs.len() && after == self.without_input(self.input_at(stream.0)),
            Event::Finished(verified) => self.owes(verified) && after == self.without_control(
                self.control_at(verified.request_number().0),
            ),
            Event::Refused => after == self,
        }
    }
}

/// The request is given up, or its result completed.
pub open spec fn closes(event: Event, request: Id) -> bool {
    match event {
        Event::Aborted(RequestTag::Control { request: id }) => id == request,
        Event::Finished(verified) => verified.request_number() == request,
        _ => false,
    }
}

/// The books follow one another by the events, each in order.
pub open spec fn course(books: Seq<Book>, events: Seq<Event>) -> bool {
    &&& books.len() == events.len() + 1
    &&& forall|k: int| 0 <= k < books.len() ==> (#[trigger] books[k]).well_formed()
    &&& forall|k: int|
        0 <= k < events.len() ==> books[k].turns(#[trigger] events[k], books[k + 1])
}

/// Taking another request out leaves a request as it is, or as absent as it was.
proof fn lemma_other_leaves(book: Book, i: int, id: u64)
    requires
        book.well_formed(),
        0 <= i < book.controls.len(),
        book.controls[i].id != id,
    ensures
        ({
            let after = book.without_control(i);
            &&& book.control_at(id) < book.controls.len() ==> after.control_at(id)
                < after.controls.len() && after.controls[after.control_at(id)]
                == book.controls[book.control_at(id)]
            &&& book.control_at(id) >= book.controls.len() ==> after.control_at(id)
                >= after.controls.len()
        }),
{
    let k = book.control_at(id);
    let t = book.controls.remove(i);
    lemma_control_found(book.controls, id);
    lemma_control_absent(book.controls, id);
    let at = if k <= i {
        k
    } else {
        k - 1
    };
    assert forall|j: int| 0 <= j < at implies (#[trigger] t[j]).id != id by {
        let a = if j < i {
            j
        } else {
            j + 1
        };
        assert(t[j] == book.controls[a]);
        assert(book.controls[a].id != id);
    }
    if k < book.controls.len() {
        assert(t[at] == book.controls[k]);
        lemma_first_control(t, id, at);
    } else {
        assert forall|j: int| 0 <= j < t.len() implies (#[trigger] t[j]).id != id by {
            let a = if j < i {
                j
            } else {
                j + 1
            };
            assert(t[j] == book.controls[a]);
            assert(book.controls[a].id != id);
        }
        lemma_first_control(t, id, t.len() as int);
    }
}

/// No request before the one that was found has its number.
proof fn lemma_control_absent(s: Seq<Pending>, id: u64)
    ensures
        forall|j: int| 0 <= j < first_control(s, id) && j < s.len() ==> (#[trigger] s[j]).id != id,
    decreases s.len(),
{
    if s.len() > 0 && s[0].id != id {
        let rest = s.drop_first();
        lemma_control_absent(rest, id);
        assert forall|j: int| 0 <= j < first_control(s, id) && j < s.len() implies (
        #[trigger] s[j]).id != id by {
            if j > 0 {
                assert(s[j] == rest[j - 1]);
            }
        }
    }
}

/// What a transfer of a request has come to.
spec fn receiving(book: Book, id: u64, result: Option<ResultHeader>) -> bool {
    let i = book.control_at(id);
    i < book.controls.len() && book.controls[i].receiving_result && book.controls[i].result == result
}

spec fn gone(book: Book, id: u64) -> bool {
    book.control_at(id) >= book.controls.len() && id <= book.highest
}

/// An event that does not close a request leaves its transfer as it is, and one that is gone stays
/// gone.
proof fn lemma_turn(book: Book, event: Event, after: Book, id: Id, result: Option<ResultHeader>)
    requires
        book.well_formed(),
        after.well_formed(),
        book.turns(event, after),
    ensures
        receiving(book, id.0, result) && !closes(event, id) ==> receiving(after, id.0, result),
        receiving(book, id.0, result) && closes(event, id) ==> gone(after, id.0),
        gone(book, id.0) ==> gone(after, id.0),
        after.identity == book.identity,
{
    reveal(Book::turns);
    let k = book.control_at(id.0);
    lemma_control_found(book.controls, id.0);
    lemma_control_absent(book.controls, id.0);
    match event {
        Event::Registered(request, manifest) => {
            let t = after.controls;
            if receiving(book, id.0, result) {
                assert(t[k] == book.controls[k]);
                assert forall|j: int| 0 <= j < k implies (#[trigger] t[j]).id != id.0 by {
                    assert(t[j] == book.controls[j]);
                }
                lemma_first_control(t, id.0, k);
            } else if gone(book, id.0) {
                assert forall|j: int| 0 <= j < t.len() implies (#[trigger] t[j]).id != id.0 by {
                    if j < book.controls.len() {
                        assert(t[j] == book.controls[j]);
                    }
                }
                lemma_first_control(t, id.0, t.len() as int);
            }
        },
        Event::Accepted(response) => match book.answers(response) {
            Some(Ok(i)) => {
                lemma_control_found(book.controls, (request_number(response)->0).0);
                if receiving(book, id.0, result) || gone(book, id.0) {
                    lemma_other_leaves(book, i, id.0);
                }
            },
            _ => {},
        },
        Event::Started(header) => {
            let i = book.control_at(header.request.0);
            let t = after.controls;
            lemma_control_found(book.controls, header.request.0);
            if receiving(book, id.0, result) {
                assert(t[k] == book.controls[k]);
                assert forall|j: int| 0 <= j < k implies (#[trigger] t[j]).id != id.0 by {
                    assert(t[j].id == book.controls[j].id);
                }
                lemma_first_control(t, id.0, k);
            } else if gone(book, id.0) {
                assert forall|j: int| 0 <= j < t.len() implies (#[trigger] t[j]).id != id.0 by {
                    assert(t[j].id == book.controls[j].id);
                }
                lemma_first_control(t, id.0, t.len() as int);
            }
        },
        Event::Aborted(RequestTag::Control { request }) => {
            lemma_control_found(book.controls, request.0);
            if request == id {
                if k < book.controls.len() {
                    law_response_completes_once(book, id.0);
                }
            } else {
                lemma_other_leaves(book, book.control_at(request.0), id.0);
            }
        },
        Event::Finished(verified) => {
            let request = verified.request_number();
            lemma_control_found(book.controls, request.0);
            if request == id {
                law_response_completes_once(book, id.0);
            } else {
                lemma_other_leaves(book, book.control_at(request.0), id.0);
            }
        },
        _ => {},
    }
}

/// Some event closed the request after it was started and before now.
pub open spec fn closed_since(events: Seq<Event>, i: int, j: int, request: Id) -> bool {
    exists|k: int| i < k < j && closes(#[trigger] events[k], request)
}

/// A result stream that was started is completed by the proof of its transfer exactly as long as the
/// request was neither given up nor completed since, whatever else happened; the completion makes
/// room for one more request.
pub proof fn law_result_completes_until_closed(
    books: Seq<Book>,
    events: Seq<Event>,
    i: int,
    j: int,
    header: ResultHeader,
    verified: VerifiedResult,
)
    requires
        course(books, events),
        0 <= i < j < books.len(),
        events[i] == Event::Started(header),
        verified.book_number() == books[i].identity,
        verified.request_number() == header.request,
        verified.proof_of().committed_length() == header.length,
        verified.proof_of().committed_digest().0@ == header.sha256.0@,
    ensures
        books[j].owes(verified) == !closed_since(events, i, j, header.request),
        books[j].owes(verified) ==> books[j].without_control(
            books[j].control_at(header.request.0),
        ).open() + 1 == books[j].open(),
{
    lemma_course(books, events, i, j, header);
    lemma_start(books[i], header, books[i + 1]);
    if books[j].owes(verified) {
        law_response_completes_once(books[j], header.request.0);
    }
}

/// A proof completes nothing in a book of another number, whatever that book has open: there it is
/// refused and changes nothing.
pub proof fn law_other_book_refuses_the_proof(
    books: Seq<Book>,
    events: Seq<Event>,
    other: Book,
    i: int,
    j: int,
    verified: VerifiedResult,
)
    requires
        course(books, events),
        0 <= i <= j < books.len(),
        verified.book_number() == books[i].identity,
        other.identity != books[i].identity,
    ensures
        !other.owes(verified),
        books[j].identity == books[i].identity,
        books[j].owes(verified) ==> !other.owes(verified),
{
    lemma_number_stays(books, events, i, j);
}

/// A book keeps its number.
proof fn lemma_number_stays(books: Seq<Book>, events: Seq<Event>, i: int, j: int)
    requires
        course(books, events),
        0 <= i <= j < books.len(),
    ensures
        books[j].identity == books[i].identity,
    decreases j - i,
{
    if i < j {
        lemma_number_stays(books, events, i, j - 1);
        assert(books[j - 1].turns(events[j - 1], books[j]));
        lemma_turn(books[j - 1], events[j - 1], books[j], Id(1), None);
    }
}

/// A result stream that was started is being received.
proof fn lemma_start(book: Book, header: ResultHeader, after: Book)
    requires
        book.well_formed(),
        book.turns(Event::Started(header), after),
    ensures
        ({
            let result = book.controls[book.control_at(header.request.0)].result;
            &&& after.identity == book.identity
            &&& receiving(after, header.request.0, result)
            &&& result matches Some(h) && h.length == header.length && h.sha256.0@
                == header.sha256.0@
        }),
{
    reveal(Book::turns);
    let id = header.request.0;
    let k = book.control_at(id);
    let t = after.controls;
    lemma_control_found(book.controls, id);
    lemma_control_absent(book.controls, id);
    assert forall|n: int| 0 <= n < k implies (#[trigger] t[n]).id != id by {
        assert(t[n].id == book.controls[n].id);
    }
    lemma_first_control(t, id, k);
}

proof fn lemma_course(
    books: Seq<Book>,
    events: Seq<Event>,
    i: int,
    j: int,
    header: ResultHeader,
)
    requires
        course(books, events),
        0 <= i < j < books.len(),
        events[i] == Event::Started(header),
    ensures
        ({
            let id = header.request;
            let result = books[i].controls[books[i].control_at(id.0)].result;
            &&& books[j].identity == books[i].identity
            &&& if closed_since(events, i, j, id) {
                gone(books[j], id.0)
            } else {
                receiving(books[j], id.0, result)
            }
        }),
    decreases j,
{
    let id = header.request;
    let result = books[i].controls[books[i].control_at(id.0)].result;
    let book = books[j - 1];
    assert(book.turns(events[j - 1], books[j]));
    if j == i + 1 {
        lemma_start(book, header, books[j]);
    } else {
        lemma_course(books, events, i, j - 1, header);
        lemma_turn(book, events[j - 1], books[j], id, result);
        if closed_since(events, i, j - 1, id) {
            let k = choose|k: int| i < k < j - 1 && closes(#[trigger] events[k], id);
            assert(closes(events[k], id));
        } else if closed_since(events, i, j, id) {
            let k = choose|k: int| i < k < j && closes(#[trigger] events[k], id);
            assert(k == j - 1);
        } else {
            assert(!closes(events[j - 1], id));
        }
    }
}

} // verus!
