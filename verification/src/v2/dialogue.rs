//! Which response answers which request, message by message. A book completes the request whose number
//! a response carries, and only where the response repeats what the request fixed.

use super::correlation::{self, Book, ResultTransfer};
use super::error::{Error, ErrorCode};
use super::labels::{Digest, IdentityLabel, OperationId};
use super::messages::{Control, Drain, ResultMessage, Scope, Session, Work};
use super::numbers::{Id, Number, PageLimit, StreamId, WaitMs};
use super::records::{
    Manifest, OperationReceipt, Policy, Refusal, RequestTag, ResultHeader, ScopeSummary, WorkKey,
    WorkView,
};
use super::wire::Wire;
use vstd::prelude::*;

verus! {

/// The request with a number stands in the book and awaits its response.
pub open spec fn awaits(book: Book, i: int, number: Id) -> bool {
    &&& book.well_formed()
    &&& 0 <= i < book.controls.len()
    &&& book.controls[i].id == number.0
    &&& !book.controls[i].receiving_result
}

/// The response completes the request at the index, or it completes nothing.
pub open spec fn completes(book: Book, i: int, response: Control, yes: bool) -> bool {
    book.answers(response) == if yes {
        Some(Ok::<int, int>(i))
    } else {
        None
    }
}

proof fn lemma_number(book: Book, i: int, number: Id)
    requires
        awaits(book, i, number),
    ensures
        book.control_at(number.0) == i,
{
    assert forall|j: int| 0 <= j < i implies (#[trigger] book.controls[j]).id != number.0 by {
        assert(book.controls[j].id < book.controls[i].id);
    }
    correlation::lemma_first_control(book.controls, number.0, i);
}

/// A watch is answered by a view of the watched work at the revision that the watcher knows or at a
/// later one. A view of other work, or an older one, is no answer.
pub proof fn law_view_answers_watch(
    book: Book,
    i: int,
    number: Id,
    work: WorkKey,
    known: Number,
    wait_ms: WaitMs,
    revision: Id,
    view: Box<WorkView>,
)
    requires
        awaits(book, i, number),
        book.controls[i].request == Control::Work(
            Work::Watch { request: number, work, after_revision: known, wait_ms },
        ),
    ensures
        completes(
            book,
            i,
            Control::Work(Work::View { request: number, revision, work: view }),
            (*view).work == work && revision.0 >= known.0,
        ),
{
    lemma_number(book, i, number);
}

/// A question about an operation is answered by its receipt, whatever it came to.
pub proof fn law_receipt_answers_operation(
    book: Book,
    i: int,
    number: Id,
    operation: OperationId,
    receipt: OperationReceipt,
)
    requires
        awaits(book, i, number),
        book.controls[i].request == Control::Work(Work::Operation { request: number, operation }),
    ensures
        completes(
            book,
            i,
            Control::Work(Work::OperationResponse { request: number, receipt }),
            receipt.operation.0@ == operation.0@,
        ),
{
    lemma_number(book, i, number);
}

/// A retry is answered by the receipt of that operation, for the work and the attempt it names.
pub proof fn law_receipt_answers_retry(
    book: Book,
    i: int,
    number: Id,
    operation: OperationId,
    work: WorkKey,
    expected_attempt: Id,
    receipt: OperationReceipt,
)
    requires
        awaits(book, i, number),
        book.controls[i].request == Control::Work(
            Work::Retry { request: number, operation, work, expected_attempt },
        ),
    ensures
        completes(
            book,
            i,
            Control::Work(Work::Retried { request: number, receipt }),
            receipt.operation.0@ == operation.0@ && receipt.body is Retried
                && receipt.body->Retried_work == work && receipt.body->Retried_expected_attempt
                == expected_attempt,
        ),
{
    lemma_number(book, i, number);
}

/// A cancellation is answered by the receipt of that operation, for the work it names.
pub proof fn law_receipt_answers_cancel(
    book: Book,
    i: int,
    number: Id,
    operation: OperationId,
    work: WorkKey,
    receipt: OperationReceipt,
)
    requires
        awaits(book, i, number),
        book.controls[i].request == Control::Work(
            Work::Cancel { request: number, operation, work },
        ),
    ensures
        completes(
            book,
            i,
            Control::Work(Work::Cancelled { request: number, receipt }),
            receipt.operation.0@ == operation.0@ && receipt.body is Cancelled
                && receipt.body->Cancelled_work == work,
        ),
{
    lemma_number(book, i, number);
}

/// A skip is answered by the receipt of that operation, for the work it names.
pub proof fn law_receipt_answers_skip(
    book: Book,
    i: int,
    number: Id,
    operation: OperationId,
    work: WorkKey,
    receipt: OperationReceipt,
)
    requires
        awaits(book, i, number),
        book.controls[i].request == Control::Work(Work::Skip { request: number, operation, work }),
    ensures
        completes(
            book,
            i,
            Control::Work(Work::Skipped { request: number, receipt }),
            receipt.operation.0@ == operation.0@ && receipt.body is Skipped
                && receipt.body->Skipped_work == work,
        ),
{
    lemma_number(book, i, number);
}

/// A declaration is answered by the receipt of that operation: in its scope, for as many members as
/// were declared, with a seal exactly where one was asked for.
pub proof fn law_receipt_answers_declaration(
    book: Book,
    i: int,
    number: Id,
    operation: OperationId,
    scope: Number,
    entity_ids: Vec<Id>,
    seal: bool,
    receipt: OperationReceipt,
)
    requires
        awaits(book, i, number),
        book.controls[i].request == Control::Scope(
            Scope::Declare { request: number, operation, scope, entity_ids, seal },
        ),
    ensures
        completes(
            book,
            i,
            Control::Scope(Scope::Declared { request: number, receipt }),
            receipt.operation.0@ == operation.0@ && receipt.body is Declared
                && receipt.body->Declared_scope == scope
                && receipt.body->Declared_accepted_count.0 == entity_ids@.len() && seal == (
            receipt.body->Declared_seal is Some),
        ),
{
    lemma_number(book, i, number);
}

/// A page is answered by entries of its scope, no more than asked for and all behind the entity that
/// was named.
pub proof fn law_entries_answer_page(
    book: Book,
    i: int,
    number: Id,
    scope: Number,
    behind: Number,
    limit: PageLimit,
    response: Scope,
)
    requires
        awaits(book, i, number),
        book.controls[i].request == Control::Scope(
            Scope::Page { request: number, scope, after_entity: behind, limit },
        ),
        response is PageResponse,
        response->PageResponse_request == number,
    ensures
        completes(
            book,
            i,
            Control::Scope(response),
            response->PageResponse_scope == scope && response->PageResponse_entries@.len()
                <= limit.0 && forall|n: int|
                0 <= n < response->PageResponse_entries@.len() ==> behind.0 < (
                #[trigger] response->PageResponse_entries@[n]).entity.0,
        ),
{
    lemma_number(book, i, number);
}

/// A checkpoint is answered by the summary of its scope under the seal that it names.
pub proof fn law_summary_answers_checkpoint(
    book: Book,
    i: int,
    number: Id,
    scope: Number,
    seal: Digest,
    wait_ms: WaitMs,
    summary: ScopeSummary,
)
    requires
        awaits(book, i, number),
        book.controls[i].request == Control::Scope(
            Scope::Checkpoint { request: number, scope, seal, wait_ms },
        ),
    ensures
        completes(
            book,
            i,
            Control::Scope(Scope::CheckpointResponse { request: number, summary }),
            summary.scope == scope && summary.seal.0@ == seal.0@,
        ),
{
    lemma_number(book, i, number);
}

/// The cancellation of a scope is answered by the receipt of that operation, for the scope it names.
pub proof fn law_receipt_answers_scope_cancel(
    book: Book,
    i: int,
    number: Id,
    operation: OperationId,
    scope: Number,
    receipt: OperationReceipt,
)
    requires
        awaits(book, i, number),
        book.controls[i].request == Control::Scope(
            Scope::Cancel { request: number, operation, scope },
        ),
    ensures
        completes(
            book,
            i,
            Control::Scope(Scope::Cancelled { request: number, receipt }),
            receipt.operation.0@ == operation.0@ && receipt.body is ScopeCancelled
                && receipt.body->ScopeCancelled_scope == scope,
        ),
{
    lemma_number(book, i, number);
}

/// A creation is answered by a binding with its number and its policy.
pub proof fn law_binding_answers_creation(
    book: Book,
    i: int,
    number: Id,
    creation_sequence: Id,
    policy: Policy,
    response: Session,
)
    requires
        awaits(book, i, number),
        book.controls[i].request == Control::Session(
            Session::Create { request: number, creation_sequence, policy },
        ),
        response is Binding,
        response->Binding_request == number,
    ensures
        completes(
            book,
            i,
            Control::Session(response),
            response->Binding_creation_sequence == creation_sequence && response->Binding_policy
                == policy,
        ),
{
    lemma_number(book, i, number);
}

/// An attachment is answered by the binding of the session that it names.
pub proof fn law_binding_answers_attachment(
    book: Book,
    i: int,
    number: Id,
    authority: IdentityLabel,
    owner: IdentityLabel,
    generation: Id,
    response: Session,
)
    requires
        awaits(book, i, number),
        book.controls[i].request == Control::Session(
            Session::Attach { request: number, authority, owner, generation },
        ),
        response is Binding,
        response->Binding_request == number,
    ensures
        completes(
            book,
            i,
            Control::Session(response),
            response->Binding_authority.0@ == authority.0@ && response->Binding_owner.0@ == owner.0@
                && response->Binding_generation == generation,
        ),
{
    lemma_number(book, i, number);
}

/// Whoever asks for the next creation number is answered by one.
pub proof fn law_sequence_answers_question(book: Book, i: int, number: Id, next: Id)
    requires
        awaits(book, i, number),
        book.controls[i].request == Control::Session(Session::NextSequence { request: number }),
    ensures
        completes(
            book,
            i,
            Control::Session(Session::Sequence { request: number, next_creation_sequence: next }),
            true,
        ),
{
    lemma_number(book, i, number);
}

/// A request for a manifest is answered by that of the work and the attempt it names.
pub proof fn law_manifest_answers_request(
    book: Book,
    i: int,
    number: Id,
    work: WorkKey,
    attempt: Id,
    manifest: Manifest,
)
    requires
        awaits(book, i, number),
        book.controls[i].request == Control::Result(
            ResultMessage::GetManifest { request: number, work, attempt },
        ),
    ensures
        completes(
            book,
            i,
            Control::Result(ResultMessage::ManifestResponse { request: number, manifest }),
            manifest.work == work && manifest.attempt == attempt,
        ),
{
    lemma_number(book, i, number);
}

/// Completion is confirmed for the session and the summary it names; to detach is confirmed by its
/// number alone.
pub proof fn law_drain_is_confirmed(
    book: Book,
    i: int,
    number: Id,
    generation: Id,
    summary: ScopeSummary,
    named: Id,
    told: ScopeSummary,
)
    requires
        awaits(book, i, number),
    ensures
        book.controls[i].request == Control::Drain(
            Drain::Complete { request: number, generation, root_summary: summary },
        ) ==> completes(
            book,
            i,
            Control::Drain(Drain::Completed { request: number, generation: named, root_summary: told }),
            named == generation && told == summary,
        ),
        book.controls[i].request == Control::Drain(Drain::Detach { request: number }) ==> completes(
            book,
            i,
            Control::Drain(Drain::Detached { request: number }),
            true,
        ),
{
    lemma_number(book, i, number);
    summary.agrees_reflexive();
    if summary.agrees(&told) {
        super::authority::retirement::lemma_summary_equal(summary, told);
    }
}

/// Any request may be refused.
pub proof fn law_refusal_answers_all(book: Book, i: int, number: Id, refusal: Refusal)
    requires
        awaits(book, i, number),
        refusal.request == (RequestTag::Control { request: number }),
    ensures
        completes(book, i, Control::Refusal(refusal), true),
{
    lemma_number(book, i, number);
}

/// A response that carries a number which no open request has completes none.
pub proof fn law_unsolicited_response_is_refused(book: Book, response: Control, number: Id)
    requires
        correlation::request_number(response) == Some(number),
        forall|i: int| 0 <= i < book.controls.len() ==> (#[trigger] book.controls[i]).id != number.0,
    ensures
        book.answers(response) is None,
        book.accept_refusal(response) is Some,
{
    correlation::lemma_first_control(book.controls, number.0, book.controls.len() as int);
}

/// A request that a response completes has the response's number, asked for a response of that kind,
/// and was not being answered by a stream.
pub proof fn law_answer_is_of_its_kind(book: Book, response: Control, i: int)
    requires
        book.answers(response) == Some(Ok::<int, int>(i)),
    ensures
        0 <= i < book.controls.len(),
        !book.controls[i].receiving_result,
        correlation::request_number(response) matches Some(n) && n.0 == book.controls[i].id,
        match response {
            Control::Refusal(_) => true,
            Control::Session(Session::Binding { .. }) => {
                ||| book.controls[i].request matches Control::Session(Session::Create { .. })
                ||| book.controls[i].request matches Control::Session(Session::Attach { .. })
            },
            Control::Session(Session::Sequence { .. }) => book.controls[i].request
                matches Control::Session(Session::NextSequence { .. }),
            Control::Scope(Scope::Declared { .. }) => book.controls[i].request
                matches Control::Scope(Scope::Declare { .. }),
            Control::Scope(Scope::PageResponse { .. }) => book.controls[i].request
                matches Control::Scope(Scope::Page { .. }),
            Control::Scope(Scope::CheckpointResponse { .. }) => book.controls[i].request
                matches Control::Scope(Scope::Checkpoint { .. }),
            Control::Scope(Scope::Cancelled { .. }) => book.controls[i].request
                matches Control::Scope(Scope::Cancel { .. }),
            Control::Work(Work::OperationResponse { .. }) => book.controls[i].request
                matches Control::Work(Work::Operation { .. }),
            Control::Work(Work::View { .. }) => book.controls[i].request
                matches Control::Work(Work::Watch { .. }),
            Control::Work(Work::Retried { .. }) => book.controls[i].request
                matches Control::Work(Work::Retry { .. }),
            Control::Work(Work::Cancelled { .. }) => book.controls[i].request
                matches Control::Work(Work::Cancel { .. }),
            Control::Work(Work::Skipped { .. }) => book.controls[i].request
                matches Control::Work(Work::Skip { .. }),
            Control::Result(ResultMessage::ManifestResponse { .. }) => book.controls[i].request
                matches Control::Result(ResultMessage::GetManifest { .. }),
            Control::Drain(Drain::Completed { .. }) => book.controls[i].request
                matches Control::Drain(Drain::Complete { .. }),
            Control::Drain(Drain::Detached { .. }) => book.controls[i].request
                matches Control::Drain(Drain::Detach { .. }),
            _ => false,
        },
{
    correlation::lemma_control_found(book.controls, (correlation::request_number(response)->0).0);
}

/// An input stands in the book and awaits its admission.
pub open spec fn admitting(book: Book, i: int, stream: StreamId) -> bool {
    &&& book.well_formed()
    &&& 0 <= i < book.inputs.len()
    &&& book.inputs[i].stream == stream.0
}

/// An input is answered by the admission of its operation: the work that it names, for as long as it
/// asks, with a child scope exactly where its mode opens one, and of the producer that the mode names.
/// It may be refused as well.
pub proof fn law_admission_answers_input(
    book: Book,
    i: int,
    stream: StreamId,
    receipt: OperationReceipt,
    refusal: Refusal,
)
    requires
        admitting(book, i, stream),
        refusal.request == (RequestTag::Input { stream }),
    ensures
        ({
            let input = book.inputs[i].header;
            let mode = input.parameters.mode.0;
            let child = receipt.body->Admitted_child;
            let fits = {
                &&& receipt.operation.0@ == input.operation.0@
                &&& receipt.body is Admitted
                &&& receipt.body->Admitted_work == input.parameters.work
                &&& receipt.body->Admitted_deadline.0 == receipt.body->Admitted_admitted_at.0
                    + input.parameters.execution_ms.0
                &&& mode == 0 || mode == 1 || mode == 2
                &&& (child is Some) == (mode != 0)
                &&& child is Some ==> (child->0).producer.0 == mode - 1
            };
            book.answers(
                Control::Work(Work::Admitted { request: RequestTag::Input { stream }, receipt }),
            ) == if fits {
                Some(Err::<int, int>(i))
            } else {
                None
            }
        }),
        book.answers(Control::Refusal(refusal)) == Some(Err::<int, int>(i)),
{
    assert forall|j: int| 0 <= j < i implies (#[trigger] book.inputs[j]).stream != stream.0 by {
        assert(book.inputs[j].stream < book.inputs[i].stream);
    }
    correlation::lemma_first_input(book.inputs, stream.0, i);
}

/// A number may be registered once: it is above every number before it, the first is one, and no more
/// are open than were agreed on.
pub proof fn law_registered_numbers_grow(book: Book, request: Control, manifest: Option<Manifest>)
    requires
        book.well_formed(),
        book.register_refusal(request, manifest) is None,
    ensures
        correlation::request_number(request) matches Some(number) && {
            &&& number.0 > book.highest
            &&& book.highest == 0 ==> number.0 == 1
            &&& forall|i: int|
                0 <= i < book.controls.len() ==> (#[trigger] book.controls[i]).id < number.0
        },
        book.controls.len() + book.inputs.len() < book.selected.pending_limit.0,
        manifest is Some <==> (request matches Control::Result(ResultMessage::Read { .. })),
{
}

/// What was registered last stands last in the book, is open under its own number, and is the only
/// thing that its answer takes out again.
pub proof fn law_registered_request_awaits(
    book: Book,
    request: Control,
    manifest: Option<Manifest>,
    entry: correlation::Pending,
)
    requires
        book.well_formed(),
        book.register_refusal(request, manifest) is None,
        book.entry_for(request, manifest, entry),
        (Book {
            highest: (correlation::request_number(request)->0).0,
            controls: book.controls.push(entry),
            ..book
        }).well_formed(),
    ensures
        ({
            let after = Book {
                highest: (correlation::request_number(request)->0).0,
                controls: book.controls.push(entry),
                ..book
            };
            let i = book.controls.len() as int;
            &&& awaits(after, i, correlation::request_number(request)->0)
            &&& after.controls[i].request.agrees(request)
            &&& after.without_control(i).controls == book.controls
            &&& after.without_control(i).inputs == book.inputs
        }),
{
    let after = book.controls.push(entry);
    assert(after.remove(book.controls.len() as int) =~= book.controls);
}

proof fn lemma_more_transfers(s: Seq<correlation::Pending>, i: int)
    requires
        0 <= i < s.len(),
        !s[i].receiving_result,
    ensures
        correlation::count_transfers(
            s.update(i, (correlation::Pending { receiving_result: true, ..s[i] })),
        ) == correlation::count_transfers(s) + 1,
    decreases s.len(),
{
    let t = s.update(i, (correlation::Pending { receiving_result: true, ..s[i] }));
    if i == s.len() - 1 {
        assert(t.drop_last() =~= s.drop_last());
    } else {
        lemma_more_transfers(s.drop_last(), i);
        assert(t.drop_last() =~= s.drop_last().update(
            i,
            (correlation::Pending { receiving_result: true, ..s[i] }),
        ));
    }
}

/// A result is received by the read that awaits it: the header must be the one that the read expects,
/// no larger than was agreed on, and there must be room for one more stream. The transfer then waits for
/// as many octets with that digest, within the times that were agreed on.
pub proof fn law_expected_result_is_received(
    book: Book,
    i: int,
    header: ResultHeader,
    now: u64,
    r: Result<ResultTransfer, Error>,
    after: Book,
)
    requires
        awaits(book, i, header.request),
        header.valid(),
        correlation::result_started(book, header, now, r, after),
    ensures
        r is Ok <==> {
            &&& book.controls[i].result matches Some(h) && h.agrees(&header)
            &&& header.length.0 <= book.selected.object_limit.0
            &&& correlation::count_transfers(book.controls) + 1 <= book.selected.stream_limit.0
        },
        r is Err ==> after == book,
        r matches Ok(t) ==> {
            &&& t.progress().length == header.length
            &&& t.progress().expected == header.sha256
            &&& t.progress().content.len() == 0
            &&& t.progress().started == now
            &&& t.progress().last_progress == now
            &&& t.progress().idle_ms == book.selected.stream_idle_ms
            &&& t.progress().lifetime_ms == book.selected.stream_lifetime_ms
            &&& t.request_number() == header.request
            &&& t.book_number() == book.identity
            &&& after.controls[i].receiving_result
            &&& after.controls[i].request == book.controls[i].request
            &&& after.transfers() == book.transfers() + 1
            &&& after.transfers() <= book.selected.stream_limit.0
            &&& after.inputs == book.inputs
            &&& forall|j: int|
                0 <= j < book.controls.len() && j != i ==> #[trigger] after.controls[j]
                    == book.controls[j]
        },
{
    lemma_number(book, i, header.request);
    if r is Ok {
        lemma_more_transfers(book.controls, i);
    }
}

/// A result is received once: while it is being received, a second header for the same read is refused,
/// and so is one for a read that is not open.
pub proof fn law_result_is_received_once(
    book: Book,
    header: ResultHeader,
    second: ResultHeader,
    now: u64,
    later: u64,
    r: Result<ResultTransfer, Error>,
    after: Book,
    again: Result<ResultTransfer, Error>,
    end: Book,
)
    requires
        book.well_formed(),
        second.request == header.request,
        correlation::result_started(book, header, now, r, after),
        r is Ok,
        correlation::result_started(after, second, later, again, end),
    ensures
        again matches Err(e) && e.code == ErrorCode::FrameError,
        end == after,
{
    let i = book.control_at(header.request.0);
    correlation::lemma_control_found(book.controls, header.request.0);
    assert forall|j: int| 0 <= j < i implies (#[trigger] after.controls[j]).id != header.request.0 by {
        assert(book.controls[j].id < book.controls[i].id);
    }
    correlation::lemma_first_control(after.controls, header.request.0, i);
}

/// A request that was given up is no longer open, every other one is, and its number is not used again.
/// What is not open cannot be given up.
pub proof fn law_given_up_request_is_gone(
    book: Book,
    i: int,
    number: Id,
    r: Result<(), Error>,
    after: Book,
)
    requires
        book.well_formed(),
        number.valid(),
        correlation::aborted(book, RequestTag::Control { request: number }, r, after),
    ensures
        r is Ok <==> exists|j: int|
            0 <= j < book.controls.len() && (#[trigger] book.controls[j]).id == number.0,
        after.highest == book.highest,
        after.inputs == book.inputs,
        r matches Err(e) ==> e.code == ErrorCode::FrameError && after == book,
        r is Ok && 0 <= i < book.controls.len() && book.controls[i].id == number.0
            ==> after.controls == book.controls.remove(i),
{
    correlation::lemma_control_found(book.controls, number.0);
    let k = book.control_at(number.0);
    if k < book.controls.len() {
        assert(book.controls[k].id == number.0);
    }
    assert forall|n: int|
        0 <= n < book.controls.len() && (#[trigger] book.controls[n]).id == number.0 implies k == n by {
        assert forall|j: int| 0 <= j < n implies (#[trigger] book.controls[j]).id != number.0 by {
            assert(book.controls[j].id < book.controls[n].id);
        }
        correlation::lemma_first_control(book.controls, number.0, n);
    }
}

} // verus!
