//! What the authority answers is what was asked for: each answer completes the request in the book of
//! the client that registered it, and each is given exactly where the rows allow it.

use super::super::commitments::SessionIdentity;
use super::super::correlation::Book;
use super::super::dialogue;
use super::super::error::ErrorCode;
use super::super::labels::{Digest, IdentityLabel, OperationId};
use super::super::messages::{Control, ResultMessage, Scope, Session, Work};
use super::super::negotiation::Capabilities;
use super::super::numbers::{Id, Number, OutputIndex, PageLimit, State, WaitMs};
use super::super::records::{
    OperationReceipt, Policy, ResultHeader, ScopeSummary, WorkKey, WorkView,
};
use super::super::wire::Wire;
use super::accounts;
use super::conduct;
use super::release;
use super::scopes::{self, Declaration};
use super::store::{self, Access, Binding, ClockReading, Fault, Grants, Permission, Tables};
use super::table;
use vstd::prelude::*;

verus! {

/// The session is there under the name, was neither revoked nor marked for retirement.
pub open spec fn serves(t: Tables, i: int, identity: SessionIdentity) -> bool {
    let binding = t.sessions[i].binding;
    &&& 0 <= i < t.sessions.len()
    &&& binding.identity.generation == identity.generation
    &&& binding.identity.owner.0@ == identity.owner.0@
    &&& t.authority.0@ == identity.authority.0@
    &&& !t.sessions[i].retiring
    &&& forall|k: int|
        0 <= k < t.scopes.len() && (#[trigger] t.scopes[k]).generation == identity.generation
            && t.scopes[k].scope.0 == 0 ==> !t.scopes[k].revoked
}

/// An owner acts in a session exactly where it serves them under its name and the provider grants what
/// they are about to do.
pub proof fn law_session_serves_its_owner(
    t: Tables,
    i: int,
    identity: SessionIdentity,
    grants: Grants,
    permission: Permission,
)
    requires
        t.arranged(),
        identity.valid(),
        0 <= i < t.sessions.len(),
        t.sessions[i].binding.identity.generation == identity.generation,
    ensures
        ({
            let granted = match permission {
                Permission::Create => grants.create,
                Permission::Inspect => grants.inspect,
                Permission::Declare => grants.declare,
                Permission::Cancel => grants.cancel,
                Permission::Skip => grants.skip,
                Permission::Revoke => grants.revoke,
                Permission::ReadResult => grants.read_result,
            };
            &&& t.session_fault(identity, grants, permission) is None <==> granted && serves(
                t,
                i,
                identity,
            )
            &&& !granted ==> t.session_fault(identity, grants, permission) == Some(
                Fault::Refused(ErrorCode::Unauthorized),
            )
        }),
{
    release::lemma_session_row(t, i);
    let p = store::is_scope(identity.generation, Number(0));
    table::lemma_index_where(t.scopes, p);
    let k = t.scope_at(identity.generation, Number(0));
    assert forall|n: int|
        0 <= n < t.scopes.len() && (#[trigger] t.scopes[n]).generation == identity.generation
            && t.scopes[n].scope.0 == 0 implies n == k by {
        release::lemma_scope_row(t, n, identity.generation, 0);
    }
    if k < t.scopes.len() {
        assert(p(t.scopes[k]));
    }
}

/// A session that is not there under the number serves nobody.
pub proof fn law_absent_session_serves_nobody(
    t: Tables,
    identity: SessionIdentity,
    grants: Grants,
    permission: Permission,
)
    requires
        identity.valid(),
        forall|i: int|
            0 <= i < t.sessions.len() ==> (#[trigger] t.sessions[i]).binding.identity.generation
                != identity.generation,
    ensures
        t.session_fault(identity, grants, permission) == Some(
            Fault::Refused(ErrorCode::Unauthorized),
        ),
{
    table::lemma_index_unique(
        t.sessions,
        store::is_session(identity.generation),
        t.sessions.len() as int,
    );
}

/// The row of a unit of work under its key.
pub open spec fn keyed(t: Tables, j: int, generation: Id, key: WorkKey) -> bool {
    0 <= j < t.work.len() && t.work[j].generation == generation && t.work[j].view.work == key
}

pub proof fn lemma_keyed(t: Tables, j: int, generation: Id, key: WorkKey)
    requires
        t.arranged(),
        keyed(t, j, generation, key),
    ensures
        t.work_of(generation, key) == Ok::<int, Fault>(j),
{
    release::lemma_work_row(t, j, generation, key.scope, key.entity);
}

/// Work is shown to whoever may look at it and knows no later revision than there is. What is shown is
/// the work as it stands, and it completes the watch of a client that knows it up to there.
pub proof fn law_watch_is_answered(
    t: Tables,
    i: int,
    j: int,
    identity: SessionIdentity,
    key: WorkKey,
    known: Number,
    grants: Grants,
    book: Book,
    at: int,
    number: Id,
    wait_ms: WaitMs,
    shown: Box<WorkView>,
)
    requires
        t.well_formed(),
        serves(t, i, identity),
        identity.valid(),
        key.valid(),
        known.valid(),
        grants.inspect,
        keyed(t, j, identity.generation, key),
        (*shown).agrees(&t.work[j].view),
        dialogue::awaits(book, at, number),
        book.controls[at].request == Control::Work(
            Work::Watch { request: number, work: key, after_revision: known, wait_ms },
        ),
    ensures
        if known.0 <= t.work[j].revision.0 {
            &&& t.watch_fault(identity, key, known, grants) is None
            &&& t.work_of(identity.generation, key) == Ok::<int, Fault>(j)
            &&& dialogue::completes(
                book,
                at,
                Control::Work(
                    Work::View { request: number, revision: t.work[j].revision, work: shown },
                ),
                true,
            )
        } else {
            t.watch_fault(identity, key, known, grants) == Some(Fault::Refused(ErrorCode::Conflict))
        },
{
    lemma_keyed(t, j, identity.generation, key);
    law_session_serves_its_owner(t, i, identity, grants, Permission::Inspect);
    release::lemma_session_row(t, i);
    accounts::lemma_profiled(t, j);
    dialogue::law_view_answers_watch(
        book,
        at,
        number,
        key,
        known,
        wait_ms,
        t.work[j].revision,
        shown,
    );
}

/// A page of a scope shows its members behind an entity, in order, up to the limit, and says whether
/// more follow. It completes the request of a client that asked for it.
pub proof fn law_page_is_answered(
    t: Tables,
    i: int,
    k: int,
    identity: SessionIdentity,
    scope: Number,
    behind: Number,
    limit: PageLimit,
    grants: Grants,
    book: Book,
    at: int,
    number: Id,
    page: Control,
)
    requires
        t.well_formed(),
        serves(t, i, identity),
        identity.valid(),
        scope.valid(),
        behind.valid(),
        limit.valid(),
        grants.inspect,
        release::scope_row(t, k, identity.generation, scope.0),
        t.page_shown(identity.generation, number, scope, behind, limit, page),
        dialogue::awaits(book, at, number),
        book.controls[at].request == Control::Scope(
            Scope::Page { request: number, scope, after_entity: behind, limit },
        ),
    ensures
        t.page_fault(identity, scope, behind, limit, grants) is None,
        dialogue::completes(book, at, page, true),
        ({
            let members = t.members(identity.generation, scope);
            let page = page->Scope_0;
            let entries = page->PageResponse_entries@;
            let more = page->PageResponse_more;
            exists|n: int|
                #![trigger members.skip(n)]
                {
                    &&& 0 <= n <= members.len()
                    &&& forall|a: int|
                        0 <= a < n ==> (#[trigger] members[a]).view.work.entity.0 <= behind.0
                    &&& forall|a: int|
                        n <= a < members.len() ==> (#[trigger] members[a]).view.work.entity.0
                            > behind.0
                    &&& entries.len() <= limit.0
                    &&& n + entries.len() <= members.len()
                    &&& more <==> n + entries.len() < members.len()
                    &&& more ==> entries.len() == limit.0
                    &&& forall|a: int|
                        0 <= a < entries.len() ==> (#[trigger] entries[a]).entity
                            == members[n + a].view.work.entity && entries[a].state
                            == members[n + a].view.state
                }
        }),
        ({
            let page = page->Scope_0;
            &&& page->PageResponse_seal == t.scopes[k].seal
            &&& page->PageResponse_sealed == (t.scopes[k].seal is Some)
            &&& page->PageResponse_declared == t.scopes[k].declared
            &&& page->PageResponse_producer == t.scopes[k].producer
            &&& page->PageResponse_parent == t.scopes[k].parent
        }),
{
    let generation = identity.generation;
    law_session_serves_its_owner(t, i, identity, grants, Permission::Inspect);
    release::lemma_scope_row(t, k, generation, scope.0);
    let rows = t.page_rows(generation, scope, behind);
    let members = t.members(generation, scope);
    let n = conduct::lemma_page(t, generation, scope, behind);
    assert(rows == members.skip(n));
    let shown = scopes::least_len(rows.len(), limit.0 as nat);
    assert forall|a: int| 0 <= a < shown implies (#[trigger] rows[a]).view.work.producer
        == t.scopes[k].producer by {
        let j = table::lemma_rows_where_from(t.work, scopes::in_page(generation, scope, behind), a);
        accounts::lemma_profiled(t, j);
    }
    let inner = page->Scope_0;
    let entries = inner->PageResponse_entries@;
    assert forall|a: int| 0 <= a < entries.len() implies (#[trigger] entries[a]).entity
        == members[n + a].view.work.entity && entries[a].state == members[n + a].view.state
        && entries[a].entity.0 > behind.0 by {
        assert(rows[a] == members[n + a]);
    }
    dialogue::law_entries_answer_page(book, at, number, scope, behind, limit, inner);
}

/// A scope is answered for under its own seal alone, once it has one, and the summary that closed it
/// completes the checkpoint of a client that named that seal.
pub proof fn law_checkpoint_is_answered(
    t: Tables,
    i: int,
    k: int,
    identity: SessionIdentity,
    scope: Number,
    expected: Digest,
    grants: Grants,
    book: Book,
    at: int,
    number: Id,
    wait_ms: WaitMs,
    summary: ScopeSummary,
)
    requires
        t.well_formed(),
        serves(t, i, identity),
        identity.valid(),
        scope.valid(),
        grants.inspect,
        release::scope_row(t, k, identity.generation, scope.0),
        dialogue::awaits(book, at, number),
        book.controls[at].request == Control::Scope(
            Scope::Checkpoint { request: number, scope, seal: expected, wait_ms },
        ),
    ensures
        t.checkpoint_fault(identity, scope, expected, grants) is None <==> (
        t.scopes[k].seal matches Some(seal) && seal.0@ == expected.0@),
        t.scopes[k].seal is None ==> t.checkpoint_fault(identity, scope, expected, grants) == Some(
            Fault::Refused(ErrorCode::NotReady),
        ),
        t.scope_at(identity.generation, scope) == k,
        t.checkpoint_fault(identity, scope, expected, grants) is None && Some(summary).agrees(
            &t.scopes[k].summary,
        ) ==> dialogue::completes(
            book,
            at,
            Control::Scope(Scope::CheckpointResponse { request: number, summary }),
            true,
        ),
{
    law_session_serves_its_owner(t, i, identity, grants, Permission::Inspect);
    release::lemma_scope_row(t, k, identity.generation, scope.0);
    accounts::lemma_counted(t, k);
    assert(store::closed_sealed(t.scopes[k]));
    dialogue::law_summary_answers_checkpoint(book, at, number, scope, expected, wait_ms, summary);
}

/// The receipt of a declaration completes the request that declared it.
pub proof fn law_declaration_is_answered(
    t: Tables,
    d: Declaration,
    access: Access,
    clock: ClockReading,
    after: Tables,
    receipt: OperationReceipt,
    book: Book,
    at: int,
    number: Id,
)
    requires
        t.declare_fault(d, access, clock) is None,
        t.declared(d, clock, after, receipt),
        dialogue::awaits(book, at, number),
        book.controls[at].request == Control::Scope(
            Scope::Declare {
                request: number,
                operation: d.operation,
                scope: d.scope,
                entity_ids: d.entity_ids,
                seal: d.sealed,
            },
        ),
    ensures
        dialogue::completes(
            book,
            at,
            Control::Scope(Scope::Declared { request: number, receipt }),
            true,
        ),
{
    dialogue::law_receipt_answers_declaration(
        book,
        at,
        number,
        d.operation,
        d.scope,
        d.entity_ids,
        d.sealed,
        receipt,
    );
}

/// The receipt of a fence completes the request that set it.
pub proof fn law_fence_is_answered(
    t: Tables,
    identity: SessionIdentity,
    key: WorkKey,
    skip: bool,
    operation: OperationId,
    clock: ClockReading,
    after: Tables,
    receipt: OperationReceipt,
    book: Book,
    at: int,
    number: Id,
)
    requires
        t.work_fenced(identity, key, skip, operation, clock, after, receipt),
        dialogue::awaits(book, at, number),
        book.controls[at].request == Control::Work(
            if skip {
                Work::Skip { request: number, operation, work: key }
            } else {
                Work::Cancel { request: number, operation, work: key }
            },
        ),
    ensures
        dialogue::completes(
            book,
            at,
            Control::Work(
                if skip {
                    Work::Skipped { request: number, receipt }
                } else {
                    Work::Cancelled { request: number, receipt }
                },
            ),
            true,
        ),
{
    if skip {
        dialogue::law_receipt_answers_skip(book, at, number, operation, key, receipt);
    } else {
        dialogue::law_receipt_answers_cancel(book, at, number, operation, key, receipt);
    }
}

/// The binding of a session that was created completes the request that created it, and that of a
/// session which serves its owner completes the request to attach to it.
pub proof fn law_binding_is_answered(
    t: Tables,
    owner: IdentityLabel,
    sequence: Id,
    policy: Policy,
    caps: Capabilities,
    clock: ClockReading,
    after: Tables,
    binding: Binding,
    reply: Control,
    book: Book,
    at: int,
    number: Id,
)
    requires
        t.created(owner, sequence, policy, caps, clock, after, binding),
        binding.announcement(number, reply),
        dialogue::awaits(book, at, number),
    ensures
        book.controls[at].request == Control::Session(
            Session::Create { request: number, creation_sequence: sequence, policy },
        ) ==> dialogue::completes(book, at, reply, true),
        book.controls[at].request == Control::Session(
            Session::Attach {
                request: number,
                authority: binding.identity.authority,
                owner,
                generation: binding.identity.generation,
            },
        ) ==> dialogue::completes(book, at, reply, true),
{
    let inner = reply->Session_0;
    if book.controls[at].request == Control::Session(
        Session::Create { request: number, creation_sequence: sequence, policy },
    ) {
        dialogue::law_binding_answers_creation(book, at, number, sequence, policy, inner);
    }
    if book.controls[at].request == Control::Session(
        Session::Attach {
            request: number,
            authority: binding.identity.authority,
            owner,
            generation: binding.identity.generation,
        },
    ) {
        dialogue::law_binding_answers_attachment(
            book,
            at,
            number,
            binding.identity.authority,
            owner,
            binding.identity.generation,
            inner,
        );
    }
}

/// A manifest is handed out for the attempt that published it, and completes the request for it.
pub proof fn law_manifest_is_answered(
    t: Tables,
    j: int,
    identity: SessionIdentity,
    key: WorkKey,
    attempt: Id,
    caps: Capabilities,
    grants: Grants,
    book: Book,
    at: int,
    number: Id,
)
    requires
        t.arranged(),
        keyed(t, j, identity.generation, key),
        t.manifest_fault(identity, key, attempt, caps, grants) is None,
        dialogue::awaits(book, at, number),
        book.controls[at].request == Control::Result(
            ResultMessage::GetManifest { request: number, work: key, attempt },
        ),
    ensures
        ({
            let manifest = t.published(identity.generation, key);
            &&& t.work[j].view.manifest == Some(manifest)
            &&& t.work[j].view.state.0 == State::SUCCEEDED
            &&& manifest.work == key
            &&& manifest.attempt == attempt
            &&& manifest.generation == identity.generation
            &&& dialogue::completes(
                book,
                at,
                Control::Result(ResultMessage::ManifestResponse { request: number, manifest }),
                true,
            )
        }),
{
    lemma_keyed(t, j, identity.generation, key);
    let manifest = t.published(identity.generation, key);
    dialogue::law_manifest_answers_request(book, at, number, key, attempt, manifest);
}

/// A read that is granted is announced by the header that the published manifest commits to at the
/// requested index: its length and its digest, which is the one the reader expects. It is the very header
/// that the book of the reader holds the delivery against.
pub proof fn law_granted_read_is_announced(
    t: Tables,
    j: int,
    identity: SessionIdentity,
    number: Id,
    work: WorkKey,
    attempt: Id,
    index: OutputIndex,
    expected_sha256: Digest,
    caps: Capabilities,
    grants: Grants,
    clock: ClockReading,
    book: Book,
)
    requires
        t.arranged(),
        keyed(t, j, identity.generation, work),
        book.selected == caps,
        t.read_fault(
            identity,
            ResultMessage::Read { request: number, work, attempt, index, expected_sha256 },
            caps,
            grants,
            clock,
        ) is None,
    ensures
        ({
            let request = ResultMessage::Read { request: number, work, attempt, index, expected_sha256 };
            let header = t.read_header(identity, request);
            let manifest = t.work[j].view.manifest->0;
            let output = manifest.outputs@[index.0 as int];
            &&& t.work[j].view.manifest is Some
            &&& t.work[j].view.state.0 == State::SUCCEEDED
            &&& index.0 < manifest.outputs@.len()
            &&& header.index == index
            &&& header.length == output.length
            &&& header.sha256 == output.sha256
            &&& header.sha256.0@ == expected_sha256.0@
            &&& header.request == number
            &&& header.work == work
            &&& header.attempt == attempt
            &&& header.generation == identity.generation
            &&& header.length.0 <= caps.object_limit.0
            &&& clock.utc_ms.0 < manifest.available_until.0
            &&& t.work[j].job matches Some(job) && job.outputs_live
            &&& grants.read_result
            &&& book.read_header(request, Some(manifest)) == Ok::<ResultHeader, ErrorCode>(header)
        }),
{
    lemma_keyed(t, j, identity.generation, work);
}

/// A read is granted wherever the result can be delivered: the session serves the reader, the attempt
/// has published an output at the index with the digest expected, it is available, held, and no
/// larger than what the connection takes.
pub proof fn law_deliverable_read_is_granted(
    t: Tables,
    i: int,
    j: int,
    identity: SessionIdentity,
    number: Id,
    work: WorkKey,
    attempt: Id,
    index: OutputIndex,
    expected_sha256: Digest,
    caps: Capabilities,
    grants: Grants,
    clock: ClockReading,
)
    requires
        t.well_formed(),
        serves(t, i, identity),
        identity.valid(),
        grants.read_result,
        keyed(t, j, identity.generation, work),
        (ResultMessage::Read { request: number, work, attempt, index, expected_sha256 }).valid(),
        super::results::results_fault(caps) is None,
        super::sessions::connection_fault(t.sessions[i], caps) is None,
        t.work[j].view.state.0 == State::SUCCEEDED,
        t.work[j].view.attempt.0 == attempt.0,
        t.work[j].view.manifest matches Some(m) && {
            &&& m.authority.0@ == identity.authority.0@
            &&& m.owner.0@ == identity.owner.0@
            &&& m.generation == identity.generation
            &&& index.0 < m.outputs@.len()
            &&& m.outputs@[index.0 as int].sha256.0@ == expected_sha256.0@
            &&& m.outputs@[index.0 as int].length.0 <= caps.object_limit.0
            &&& clock.utc_ms.0 < m.available_until.0
        },
        t.work[j].job matches Some(job) && job.outputs_live,
        clock.trusted,
        t.greatest <= clock.utc_ms.0 <= super::super::error::MAX_NUMBER,
    ensures
        t.read_fault(
            identity,
            ResultMessage::Read { request: number, work, attempt, index, expected_sha256 },
            caps,
            grants,
            clock,
        ) is None,
{
    lemma_keyed(t, j, identity.generation, work);
    law_session_serves_its_owner(t, i, identity, grants, Permission::ReadResult);
    release::lemma_session_row(t, i);
    accounts::lemma_profiled(t, j);
    let request = ResultMessage::Read { request: number, work, attempt, index, expected_sha256 };
    let header = t.read_header(identity, request);
    let m = t.work[j].view.manifest->0;
    assert(m.valid());
    assert(m.outputs.valid());
    assert(m.outputs@[index.0 as int].valid());
    assert(header.fields().valid());
}

} // verus!
