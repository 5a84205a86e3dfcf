//! What records and messages have in common wherever they come from: which fields go together, which
//! times follow which, and which way a message goes.

use super::authority::evidence::{Proof, WorkFence};
use super::client::records::{JournalLimits, ScopeMember, ScopeObservation};
use super::commitments::StatusLeaf;
use super::correlation;
use super::error::{Error, ErrorCode, DURABLE_WORK, MAX_NUMBER, RESULT_DELIVERY};
use super::labels::{self, ApplicationLabel, Detail, IdentityLabel, OperationId};
use super::messages::{self, Control, ResultMessage, Scope, Work};
use super::negotiation::{self, Capabilities};
use super::numbers::{
    BatchCount, ConcurrencyLimit, ControlLimit, DiagnosticCode, Disposition, Duration, Id, IdleMs,
    LifetimeMs, Mode, Number, OutputIndex, PageLimit, Producer, ProfileId, ResponseFlag, State,
    StreamId, WaitMs,
};
use super::records::{self, Manifest, Outcome, RequestTag, ScopeSummary, WorkView};
use super::uri;
use super::wire::Wire;
use crate::cbor;
use vstd::prelude::*;
use vstd::utf8::*;

verus! {

/// One of the four ends.
pub open spec fn is_end(state: State) -> bool {
    ||| state.0 == State::SUCCEEDED
    ||| state.0 == State::FAILED
    ||| state.0 == State::CANCELLED
    ||| state.0 == State::SKIPPED
}

/// The ends, and no other states, are final.
pub proof fn law_four_states_are_final(state: State)
    ensures
        state.terminal() <==> is_end(state),
{
}

/// The ranges of the plain numbers.
pub proof fn law_numbers_have_ranges(n: u64)
    ensures
        Number(n).valid() <==> n < 0x8000_0000_0000_0000,
        Id(n).valid() <==> 0 < n < 0x8000_0000_0000_0000,
        Duration(n).valid() <==> 0 < n <= 365 * 24 * 60 * 60 * 1000,
        Producer(n).valid() <==> n == 0 || n == 1,
        State(n).valid() <==> n < 9,
        Mode(n).valid() <==> n == 0 || n == 1 || n == 2,
        Disposition(n).valid() <==> n == 0 || n == 1,
        OutputIndex(n).valid() <==> n < 256,
        BatchCount(n).valid() <==> n <= 256,
        PageLimit(n).valid() <==> 0 < n <= 256,
        WaitMs(n).valid() <==> n <= 30 * 1000,
{
}

/// A time span of at least one and at most a year of milliseconds.
pub open spec fn year_at_most(from: Number, to: Number) -> bool {
    from.0 < to.0 <= from.0 + 365 * 24 * 60 * 60 * 1000
}

/// Which fields of a view go together. What was admitted has an input, an interval and an attempt, and
/// nothing else has; what has come to an end has its time and a receipt that outlives it, and nothing
/// else has; only a success shows a manifest, which is of this work and attempt; a failure says why.
pub open spec fn view_shape(view: WorkView) -> bool {
    &&& view.admitted_at is Some <==> view.input is Some
    &&& view.admitted_at is Some <==> view.deadline is Some
    &&& view.admitted_at is Some <==> view.attempt.0 != 0
    &&& view.admitted_at matches Some(at) ==> year_at_most(at, view.deadline->0)
    &&& view.admitted_at is Some ==> view.state.0 != State::DECLARED
    &&& view.admitted_at is None ==> view.child is None && (view.state.0 == State::DECLARED
        || view.state.0 == State::CANCELLING || view.state.0 == State::CANCELLED || view.state.0
        == State::SKIPPED)
    &&& view.child matches Some(child) ==> view.work.scope.0 < child.scope.0
    &&& view.state.0 == State::WAITING_CHILDREN ==> view.child is Some
    &&& view.terminal_at is Some <==> is_end(view.state)
    &&& view.receipt_until is Some <==> is_end(view.state)
    &&& view.terminal_at matches Some(at) ==> year_at_most(at, view.receipt_until->0)
    &&& view.terminal_at matches Some(at) ==> (view.admitted_at matches Some(from) ==> from.0 <= at.0)
    &&& view.state.0 == State::FAILED || view.state.0 == State::AWAITING_RETRY
        ==> view.diagnostic is Some
    &&& view.state.0 == State::SUCCEEDED ==> view.input is Some
    &&& view.manifest is Some <==> view.output_until is Some
    &&& view.manifest matches Some(m) ==> {
        &&& view.state.0 == State::SUCCEEDED
        &&& m.work == view.work
        &&& m.attempt.0 == view.attempt.0
        &&& view.terminal_at == Some(m.committed_at)
        &&& view.output_until == Some(m.available_until)
        &&& view.input matches Some(input) && input.sha256.0@ == m.input_sha256.0@
    }
}

/// A view whose fields are each valid is valid exactly where they go together.
pub proof fn law_views_have_a_shape(view: WorkView)
    ensures
        view.valid() ==> view_shape(view),
        view.fields().valid() && view_shape(view) ==> view.valid(),
{
}

/// A manifest is committed before it becomes unavailable, within a year, and lists its outputs in their
/// order, each under the locator of its own work, attempt and index.
pub proof fn law_manifests_have_a_shape(m: Manifest)
    requires
        m.fields().valid(),
    ensures
        m.valid() <==> {
            &&& year_at_most(m.committed_at, m.available_until)
            &&& records::output_octets(m.outputs@) <= MAX_NUMBER
            &&& forall|i: int|
                0 <= i < m.outputs@.len() ==> {
                    let output = #[trigger] m.outputs@[i];
                    &&& output.index.0 == i
                    &&& uri::target_of(encode_utf8(output.locator.0@)) matches Some(t)
                        && t.generation == m.generation && t.work == m.work && t.attempt == m.attempt
                        && t.index.0 == i
                }
        },
{
    if m.valid() {
        assert forall|i: int| 0 <= i < m.outputs@.len() implies ({
            let output = #[trigger] m.outputs@[i];
            &&& output.index.0 == i
            &&& uri::target_of(encode_utf8(output.locator.0@)) matches Some(t) && t.generation
                == m.generation && t.work == m.work && t.attempt == m.attempt && t.index.0 == i
        }) by {
            assert(records::output_placed(m.outputs@[i], i, m.generation, m.work, m.attempt));
        }
    }
}

/// Outputs take up their lengths together.
pub proof fn law_output_octets_add_up(outputs: Seq<records::Output>, more: records::Output)
    ensures
        records::output_octets(Seq::empty()) == 0,
        records::output_octets(outputs.push(more)) == records::output_octets(outputs)
            + more.length.0,
{
    assert(outputs.push(more).drop_last() =~= outputs);
}

/// The summary of a scope counts each declared member once, and places the scope: the root under
/// nothing, any other under work of an older scope.
pub proof fn law_summaries_have_a_shape(s: ScopeSummary)
    requires
        s.fields().valid(),
    ensures
        s.valid() <==> {
            &&& s.counts.success.0 + s.counts.failure.0 + s.counts.cancelled.0 + s.counts.skipped.0
                == s.declared.0
            &&& s.scope.0 == 0 ==> s.producer.0 == 0 && s.parent is None
            &&& s.scope.0 != 0 ==> (s.parent matches Some(p) && p.scope.0 < s.scope.0)
        },
{
}

/// What the outcome of an operation tells fits together: a first attempt within its time, no more
/// members accepted than declared and none only where the scope was sealed, the next attempt after
/// the one replaced, and a fence that came in time before any other end.
pub proof fn law_outcomes_have_a_shape(o: Outcome)
    ensures
        o.rule() <==> match o {
            Outcome::Admitted { work, attempt, admitted_at, deadline, child } => {
                &&& attempt.0 == 1
                &&& year_at_most(admitted_at, deadline)
                &&& child matches Some(c) ==> work.scope.0 < c.scope.0
            },
            Outcome::Declared { scope, producer, accepted_count, declared, seal } => {
                &&& scope.0 == 0 ==> producer.0 == 0
                &&& accepted_count.0 <= declared.0
                &&& accepted_count.0 == 0 ==> seal is Some
            },
            Outcome::Retried { expected_attempt, replacement_attempt, .. } => replacement_attempt.0
                == expected_attempt.0 + 1,
            Outcome::Cancelled { disposition, state_at_commit, .. } => if disposition.0 == 0 {
                state_at_commit.0 == State::CANCELLING || state_at_commit.0 == State::CANCELLED
            } else {
                is_end(state_at_commit)
            },
            Outcome::Skipped { disposition, state_at_commit, .. } => if disposition.0 == 0 {
                state_at_commit.0 == State::CANCELLING || state_at_commit.0 == State::SKIPPED
            } else {
                is_end(state_at_commit)
            },
            Outcome::ScopeCancelled { .. } => true,
        },
{
}

/// A status leaf tells of an end. What never ran was cancelled or skipped, with nothing below it; only a
/// success has published something.
pub proof fn law_leaves_have_a_shape(l: StatusLeaf)
    ensures
        l.rule() <==> {
            &&& is_end(l.state)
            &&& l.attempt.0 == 0 ==> (l.state.0 == State::CANCELLED || l.state.0 == State::SKIPPED)
                && l.child_status_root is None
            &&& l.manifest_digest is Some ==> l.state.0 == State::SUCCEEDED
        },
{
}

/// The view of work that has come to an end, whether it ran or not, gives a leaf.
pub proof fn law_ended_view_gives_a_leaf(view: WorkView, root: Option<super::labels::Digest>)
    requires
        view.valid(),
        is_end(view.state),
        root is Some <==> view.child is Some,
    ensures
        super::authority::reconcile::leaf_of(view, root).rule(),
{
}

/// A page shows members in increasing order, no more than are declared, and says that more follow only
/// where some are shown and more are declared; a declaration lists its members in increasing order,
/// and none only where it seals.
pub proof fn law_scope_messages_have_a_shape(m: Scope)
    ensures
        m.rule() <==> match m {
            Scope::Declare { entity_ids, seal, .. } => {
                &&& entity_ids@.len() == 0 ==> seal
                &&& forall|i: int, j: int|
                    0 <= i < j < entity_ids@.len() ==> (#[trigger] entity_ids@[i]).0 < (
                    #[trigger] entity_ids@[j]).0
            },
            Scope::Declared { receipt, .. } => receipt.body is Declared,
            Scope::Cancelled { receipt, .. } => receipt.body is ScopeCancelled,
            Scope::PageResponse {
                scope,
                producer,
                parent,
                sealed,
                seal,
                declared,
                entries,
                more,
                ..
            } => {
                &&& scope.0 == 0 ==> producer.0 == 0 && parent is None
                &&& scope.0 != 0 ==> (parent matches Some(p) && p.scope.0 < scope.0)
                &&& sealed <==> seal is Some
                &&& entries@.len() <= declared.0
                &&& more ==> 1 <= entries@.len() < declared.0
                &&& forall|i: int, j: int|
                    0 <= i < j < entries@.len() ==> (#[trigger] entries@[i]).entity.0 < (
                    #[trigger] entries@[j]).entity.0
            },
            _ => true,
        },
{
}

/// Each answer about work carries the receipt of its own kind.
pub proof fn law_work_messages_have_a_shape(m: Work)
    ensures
        m.rule() <==> match m {
            Work::Admitted { request, receipt } => request is Input && receipt.body is Admitted,
            Work::Retried { receipt, .. } => receipt.body is Retried,
            Work::Cancelled { receipt, .. } => receipt.body is Cancelled,
            Work::Skipped { receipt, .. } => receipt.body is Skipped,
            _ => true,
        },
{
}

/// An input is tagged by a stream that the client opened and only sends on.
pub proof fn law_inputs_come_on_client_streams(tag: RequestTag)
    ensures
        tag.rule() <==> (tag matches RequestTag::Input { stream } ==> stream.0 % 2 == 0
            && stream.0 % 4 != 0),
{
}

/// A request goes from the client and its answer to the client, over connections with the same
/// profile.
pub proof fn law_answers_go_the_other_way(request: Control, response: Control)
    requires
        correlation::reply_matches(request, response),
        !(response is Refusal),
    ensures
        request.from_client(),
        !response.from_client(),
        request.needs_durable() == response.needs_durable(),
        request is Result == response is Result,
{
}

/// Whoever is asked may refuse, so a refusal comes from no client and needs no profile. A read is asked
/// for by the client alone.
pub proof fn law_refusals_need_no_profile(refusal: records::Refusal, read: ResultMessage)
    requires
        read is Read,
    ensures
        !Control::Refusal(refusal).from_client(),
        !Control::Refusal(refusal).needs_durable(),
        Control::Result(read).from_client(),
        Control::Result(read).needs_durable(),
{
}

/// In a connection that has made its selection a message is taken from the side it goes from, where the
/// profiles it needs were selected. Capabilities come before that, and what may be ignored is ignored
/// on either side.
pub proof fn law_messages_are_taken_from_one_side(m: Control, from_client: bool, s: Capabilities)
    requires
        s.valid(),
        s.response.0 == 1,
        !(m matches Control::Work(Work::View { .. })),
    ensures
        ({
            let taken = m.context_refusal(from_client, Some(s)) is None;
            &&& m is Capabilities ==> !taken
            &&& m is Ignorable ==> taken
            &&& !(m is Capabilities) && !(m is Ignorable) ==> (taken <==> {
                &&& m.from_client() == from_client
                &&& m.needs_durable() ==> s.supports(super::error::DURABLE_WORK)
                &&& m is Result ==> s.supports(super::error::RESULT_DELIVERY)
            })
        }),
{
}

/// Before a selection is made only capabilities are taken: the offer from the client, the selection from
/// the server.
pub proof fn law_capabilities_come_first(m: Control, from_client: bool)
    ensures
        m.context_refusal(from_client, None) is None <==> (m matches Control::Capabilities(c)
            && c.valid() && (c.response.0 == 0) == from_client),
{
}

/// The first five octets of a frame announce the length of the rest. Before the negotiation that is so of
/// capabilities alone; anything else is refused.
pub proof fn law_prefix_announces_the_body(
    c: Control,
    limit: usize,
    before: Result<usize, Error>,
    behind: Result<usize, Error>,
)
    requires
        c.sendable(limit),
        messages::body_announced(c.frame_wire().subrange(0, 5), None, before),
        messages::body_announced(c.frame_wire().subrange(0, 5), Some(limit), behind),
    ensures
        behind matches Ok(n) && n == c.frame_wire().len() - 5,
        c is Capabilities ==> (before matches Ok(n) && n == c.frame_wire().len() - 5),
        !(c is Capabilities) ==> (before matches Err(e) && e.code == ErrorCode::FrameError),
{
    let body = c.body_wire();
    let frame = c.frame_wire();
    cbor::lemma_octet_ranges();
    cbor::lemma_be_bytes(body.len(), 4);
    assert(frame.subrange(0, 5).subrange(1, 5) =~= cbor::be_bytes(body.len(), 4));
    assert(frame.subrange(0, 5)[0] == frame[0]);
}

/// A letter, a digit, a hyphen, a dot, an underscore or a tilde.
pub open spec fn plain_mark(b: u8) -> bool {
    ||| 'a' as u8 <= b <= 'z' as u8
    ||| 'A' as u8 <= b <= 'Z' as u8
    ||| '0' as u8 <= b <= '9' as u8
    ||| b == '-' as u8 || b == '.' as u8 || b == '_' as u8 || b == '~' as u8
}

/// An identity has one to one hundred and twenty-eight plain marks, an application's label as many
/// printable ones, and a detail is no longer than five hundred and twelve octets. An operation has a
/// number other than nought.
pub proof fn law_labels_have_a_shape(
    identity: IdentityLabel,
    label: ApplicationLabel,
    detail: Detail,
    operation: OperationId,
)
    ensures
        identity.valid() <==> {
            let s = encode_utf8(identity.0@);
            &&& 0 < s.len() < 129
            &&& forall|i: int| 0 <= i < s.len() ==> plain_mark(#[trigger] s[i])
        },
        label.valid() <==> {
            let s = encode_utf8(label.0@);
            &&& 0 < s.len() < 129
            &&& forall|i: int| 0 <= i < s.len() ==> ' ' as u8 <= #[trigger] s[i] <= '~' as u8
        },
        detail.valid() <==> encode_utf8(detail.0@).len() < 513,
        operation.valid() <==> operation.0@ != Seq::new(16, |i: int| 0u8),
{
    let s = encode_utf8(identity.0@);
    assert forall|i: int| 0 <= i < s.len() implies plain_mark(#[trigger] s[i])
        == labels::identity_octet(s[i]) by {}
    if identity.valid() {
        assert forall|i: int| 0 <= i < s.len() implies plain_mark(#[trigger] s[i]) by {
            assert(labels::identity_octet(s[i]));
        }
    }
    let l = encode_utf8(label.0@);
    if label.valid() {
        assert forall|i: int| 0 <= i < l.len() implies ' ' as u8 <= #[trigger] l[i] <= '~' as u8 by {
            assert(labels::printable_octet(l[i]));
        }
    }
    if !operation.valid() {
        assert forall|i: int| 0 <= i < 16 implies operation.0@[i] == 0 by {}
        assert(operation.0@ =~= Seq::new(16, |i: int| 0u8));
    } else {
        let i = choose|i: int| 0 <= i < 16 && #[trigger] operation.0@[i] != 0;
        assert(Seq::new(16, |i: int| 0u8)[i] == 0);
    }
}

/// The evidence that a session may be retired is of its root, which closed no later than the cutoff, and
/// was taken no earlier than that.
pub proof fn law_evidence_has_a_shape(proof: Proof)
    requires
        proof.valid(),
    ensures
        proof.root.scope.0 == 0,
        proof.root.producer.0 == 0,
        proof.root.parent is None,
        proof.root.closed_at.0 <= proof.cutoff.0 <= proof.at.0 <= MAX_NUMBER,
        proof.root.valid(),
        proof.identity.valid(),
        proof.creation.0 > 0,
{
}

/// Evidence of that shape is valid.
pub proof fn law_shaped_evidence_is_valid(proof: Proof)
    requires
        proof.root.valid(),
        proof.identity.valid(),
        proof.creation.valid(),
        proof.root.scope.0 == 0,
        proof.root.closed_at.0 <= proof.cutoff.0 <= proof.at.0 <= MAX_NUMBER,
    ensures
        proof.valid(),
{
}

/// A fence decides on a cancelled or a skipped end, and names the operation that set it.
pub proof fn law_fences_have_a_shape(fence: WorkFence)
    ensures
        fence.valid() <==> (fence.outcome.0 == State::CANCELLED || fence.outcome.0
            == State::SKIPPED) && fence.operation.valid(),
{
}

/// A journal holds up to a million operations and up to a million observations.
pub proof fn law_journals_have_bounds(limits: JournalLimits)
    ensures
        limits.valid() <==> 1 <= limits.operations.0 <= 1_000_000 && 1 <= limits.observations.0
            <= 1_000_000,
{
}

/// The root has no parent and belongs to the owner; every other scope has a parent in a lower one. A
/// membership is verified only once it is sealed. A member is reported ended in one of the ends.
pub proof fn law_reports_have_a_shape(scope: ScopeObservation, member: ScopeMember)
    ensures
        scope.valid() ==> {
            &&& scope.scope.0 == 0 ==> scope.producer.0 == 0 && scope.parent is None
            &&& scope.scope.0 != 0 ==> (scope.parent matches Some(p) && p.scope.0 < scope.scope.0)
            &&& scope.membership_verified ==> scope.seal is Some
        },
        member.valid() ==> (member.terminal matches Some(end) ==> is_end(end)),
        member.work.valid() && (member.terminal matches Some(end) ==> is_end(end)) ==> member.valid(),
{
}

/// The ranges of what a connection agrees on.
pub proof fn law_connection_numbers_have_ranges(n: u64)
    ensures
        DiagnosticCode(n).valid() <==> n < 0x1_0000_0000,
        StreamId(n).valid() <==> n < 0x4000_0000_0000_0000,
        ProfileId(n).valid() <==> 0 < n < 65_535,
        ControlLimit(n).valid() <==> 4 * 1024 <= n <= 1024 * 1024,
        ConcurrencyLimit(n).valid() <==> 0 < n <= 1024,
        IdleMs(n).valid() <==> 1000 <= n <= 5 * 60 * 1000,
        LifetimeMs(n).valid() <==> 1000 <= n <= 24 * 60 * 60 * 1000,
        ResponseFlag(n).valid() <==> n == 0 || n == 1,
{
}

/// Offers and selections list up to thirty-two profiles in ascending order, require none that they do
/// not list, and list result delivery only beside durable work. A stream is idle no longer than it
/// lives. A selection lists none of the three legacy profiles.
pub proof fn law_capabilities_have_a_shape(caps: Capabilities)
    requires
        caps.fields().valid(),
    ensures
        caps.valid() <==> {
            &&& caps.supported@.len() <= 32
            &&& caps.required@.len() <= 32
            &&& forall|i: int, j: int|
                0 <= i < j < caps.supported@.len() ==> (#[trigger] caps.supported@[i]).0 < (
                #[trigger] caps.supported@[j]).0
            &&& forall|i: int, j: int|
                0 <= i < j < caps.required@.len() ==> (#[trigger] caps.required@[i]).0 < (
                #[trigger] caps.required@[j]).0
            &&& forall|i: int|
                0 <= i < caps.required@.len() ==> caps.supported@.contains(
                    #[trigger] caps.required@[i],
                )
            &&& caps.supported@.contains(ProfileId(RESULT_DELIVERY as u64))
                ==> caps.supported@.contains(ProfileId(DURABLE_WORK as u64))
            &&& caps.stream_idle_ms.0 <= caps.stream_lifetime_ms.0
            &&& caps.response.0 == 1 ==> forall|i: int|
                0 <= i < caps.supported@.len() ==> !(65_281 <= (#[trigger] caps.supported@[i]).0
                    <= 65_283)
        },
{
    assert forall|p: u64| #[trigger] negotiation::lists(caps.supported@, p)
        == caps.supported@.contains(ProfileId(p)) by {
        if negotiation::lists(caps.supported@, p) {
            let i = choose|i: int|
                0 <= i < caps.supported@.len() && (#[trigger] caps.supported@[i]).0 == p;
            assert(caps.supported@[i] == ProfileId(p));
        }
        if caps.supported@.contains(ProfileId(p)) {
            let i = choose|i: int|
                0 <= i < caps.supported@.len() && caps.supported@[i] == ProfileId(p);
            assert(caps.supported@[i].0 == p);
        }
    }
    assert(caps.supports(RESULT_DELIVERY) == negotiation::lists(
        caps.supported@,
        RESULT_DELIVERY as u64,
    ));
    assert(caps.supports(DURABLE_WORK) == negotiation::lists(
        caps.supported@,
        DURABLE_WORK as u64,
    ));
    assert forall|i: int| 0 <= i < caps.required@.len() implies negotiation::lists(
        caps.supported@,
        (#[trigger] caps.required@[i]).0,
    ) == caps.supported@.contains(caps.required@[i]) by {
        assert(ProfileId(caps.required@[i].0) == caps.required@[i]);
    }
    assert(caps.response.valid());
    if caps.valid() {
        assert forall|i: int| 0 <= i < caps.required@.len() implies caps.supported@.contains(
            #[trigger] caps.required@[i],
        ) by {
            assert(negotiation::lists(caps.supported@, caps.required@[i].0));
        }
        if caps.response.0 == 1 {
            assert forall|i: int| 0 <= i < caps.supported@.len() implies !(65_281 <= (
            #[trigger] caps.supported@[i]).0 <= 65_283) by {
                assert(!negotiation::legacy_profile(caps.supported@[i].0));
            }
        }
    }
}

} // verus!
