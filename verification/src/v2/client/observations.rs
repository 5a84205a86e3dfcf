//! Authenticated observations are supplied by the transport, never inferred
//! from local timeouts. Stored references contain full manifests, not URLs alone.

use super::super::authority::store::Fault;
use super::super::authority::table;
use super::super::commitments::{Mutation, SessionIdentity};
use super::super::error::{Error, ErrorCode, MAX_CONTROL_LIMIT, MAX_HEADER};
use super::super::numbers::{Id, State};
use super::super::records::{Manifest, OperationReceipt, WorkKey, WorkView};
use super::super::wire::{encode, Wire};
use super::durability;
use super::journal::{Journal, Notes, OperationEntry};
use super::known;
use super::receipts::{self, check, integrity, target, unless};
use super::records::ObservedWork;
use super::storage::{refuse, Intent, JournalError};
use super::upkeep;
use vstd::prelude::*;
use vstd::utf8::*;

verus! {

/// The namespace of a record about work: the table, the session and the work.
pub open spec fn work_key(identity: SessionIdentity, work: WorkKey, table: Seq<char>) -> Seq<u8> {
    encode_utf8(table) + identity.authority.wire() + identity.owner.wire()
        + identity.generation.wire() + work.wire()
}

/// The parts of a namespace fit into headers.
pub open spec fn names_session(identity: SessionIdentity) -> bool {
    &&& identity.authority.valid() && identity.authority.wire().len() <= MAX_HEADER
    &&& identity.owner.valid() && identity.owner.wire().len() <= MAX_HEADER
    &&& identity.generation.valid() && identity.generation.wire().len() <= MAX_HEADER
}

pub fn protocol<T>(r: Result<T, Error>) -> (out: Result<T, JournalError>)
    ensures
        match (r, out) {
            (Ok(a), Ok(b)) => a == b,
            (Err(a), Err(b)) => b.fault() == Fault::Refused(a.code),
            _ => false,
        },
{
    match r {
        Ok(v) => Ok(v),
        Err(e) => Err(JournalError::Protocol(e)),
    }
}

/// The table's name and the session, the front of every namespace.
pub fn session_key(identity: &SessionIdentity, table: &str) -> (r: Result<Vec<u8>, JournalError>)
    ensures
        match r {
            Ok(b) => names_session(*identity) && b@ == encode_utf8(table@)
                + identity.authority.wire() + identity.owner.wire() + identity.generation.wire(),
            Err(e) => !names_session(*identity) && e.fault() == Fault::Refused(
                ErrorCode::FrameError,
            ),
        },
{
    let mut bytes: Vec<u8> = Vec::new();
    bytes.extend_from_slice(table.as_bytes());
    let mut authority = protocol(encode(&identity.authority, MAX_HEADER))?;
    bytes.append(&mut authority);
    let mut owner = protocol(encode(&identity.owner, MAX_HEADER))?;
    bytes.append(&mut owner);
    let mut generation = protocol(encode(&identity.generation, MAX_HEADER))?;
    bytes.append(&mut generation);
    assert(bytes@ =~= encode_utf8(table@) + identity.authority.wire() + identity.owner.wire()
        + identity.generation.wire());
    Ok(bytes)
}

pub fn key_bytes(identity: &SessionIdentity, work: &WorkKey, table: &str) -> (r: Result<
    Vec<u8>,
    JournalError,
>)
    ensures
        match r {
            Ok(b) => names_session(*identity) && work.valid() && work.wire().len() <= MAX_HEADER
                && b@ == work_key(*identity, *work, table@),
            Err(e) => !(names_session(*identity) && work.valid() && work.wire().len()
                <= MAX_HEADER) && e.fault() == Fault::Refused(ErrorCode::FrameError),
        },
{
    let mut bytes = session_key(identity, table)?;
    let mut key = protocol(encode(work, MAX_HEADER))?;
    bytes.append(&mut key);
    assert(bytes@ =~= work_key(*identity, *work, table@));
    Ok(bytes)
}

/// What a manifest and a view of the same work say fits together.
pub open spec fn manifest_fits_view(m: Manifest, view: WorkView) -> bool {
    &&& view.state.0 != State::CANCELLING
    &&& view.input matches Some(input) ==> input.sha256.0@ == m.input_sha256.0@
    &&& view.attempt.0 <= m.attempt.0
    &&& view.state.0 != State::AWAITING_RETRY || view.attempt.0 < m.attempt.0
    &&& view.admitted_at matches Some(admitted) ==> m.committed_at.0 >= admitted.0 && (
    view.deadline matches Some(deadline) && m.committed_at.0 < deadline.0)
    &&& view.state.terminal() ==> view.state.0 == State::SUCCEEDED && (
    view.manifest matches Some(shown) && shown.agrees(&m))
}

pub fn manifest_matches_view(m: &Manifest, view: &WorkView) -> (r: Result<(), JournalError>)
    ensures
        match r {
            Ok(_) => manifest_fits_view(*m, *view),
            Err(e) => !manifest_fits_view(*m, *view) && e.fault() == integrity(),
        },
{
    check(view.state.0 != State::CANCELLING, "manifest contradicts observed cancellation")?;
    match &view.input {
        Some(input) => {
            check(input.sha256.same(&m.input_sha256), "manifest disagrees with observed input")?;
        },
        None => {},
    }
    check(view.attempt.0 <= m.attempt.0, "manifest predates an observed execution attempt")?;
    check(
        view.state.0 != State::AWAITING_RETRY || view.attempt.0 < m.attempt.0,
        "manifest published by attempt awaiting explicit retry",
    )?;
    match view.admitted_at {
        Some(admitted) => {
            let timely = match view.deadline {
                Some(deadline) => m.committed_at.0 < deadline.0,
                None => false,
            };
            check(
                m.committed_at.0 >= admitted.0 && timely,
                "manifest commit outside observed execution interval",
            )?;
        },
        None => {},
    }
    if view.state.is_terminal() {
        let shown = match &view.manifest {
            Some(shown) => shown.same(m),
            None => false,
        };
        check(
            view.state.0 == State::SUCCEEDED && shown,
            "manifest disagrees with immutable terminal observation",
        )?;
    }
    Ok(())
}

/// The admission of work is what it was.
pub open spec fn same_admission(before: WorkView, after: WorkView) -> bool {
    &&& before.input.agrees(&after.input)
    &&& before.admitted_at == after.admitted_at
    &&& before.deadline == after.deadline
    &&& before.child == after.child
}

/// One view of work may precede another: attempts do not fall back, ends are final, an accepted fence
/// leads to no other end, a failed attempt does not go on by itself, and the admission stays.
pub open spec fn may_precede(before: WorkView, after: WorkView) -> bool {
    &&& before.work == after.work
    &&& before.attempt.0 <= after.attempt.0
    &&& if before.state.terminal() {
        before.agrees(&after)
    } else {
        &&& before.state.0 == State::CANCELLING ==> {
            &&& after.state.0 == State::CANCELLING || after.state.0 == State::CANCELLED
                || after.state.0 == State::SKIPPED
            &&& before.attempt == after.attempt
            &&& before.admitted_at == after.admitted_at
        }
        &&& before.state.0 == State::AWAITING_RETRY && before.attempt == after.attempt ==> !(
        after.state.0 == State::ACTIVE || after.state.0 == State::WAITING_CHILDREN || after.state.0
            == State::SUCCEEDED)
        &&& before.admitted_at is Some ==> same_admission(before, after)
    }
}

/// Two observations of work can both be true.
pub open spec fn both_hold(a: ObservedWork, b: ObservedWork) -> bool {
    if a.revision == b.revision {
        a.agrees(&b)
    } else if a.revision.0 < b.revision.0 {
        may_precede(a.view, b.view)
    } else {
        may_precede(b.view, a.view)
    }
}

/// Ended work shows nothing else in any later revision.
pub proof fn law_terminal_view_is_final(before: ObservedWork, after: ObservedWork)
    requires
        before.view.state.terminal(),
        before.revision.0 < after.revision.0,
        both_hold(before, after),
    ensures
        before.view.agrees(&after.view),
        after.view.state == before.view.state,
        after.view.attempt == before.view.attempt,
{
}

fn precedes(before: &WorkView, after: &WorkView) -> (r: Result<(), JournalError>)
    ensures
        match r {
            Ok(_) => may_precede(*before, *after),
            Err(e) => !may_precede(*before, *after) && e.fault() == integrity(),
        },
{
    check(
        before.work == after.work && before.attempt.0 <= after.attempt.0,
        "work identity or attempt regressed",
    )?;
    if before.state.is_terminal() {
        return check(before.same(after), "terminal work observation changed");
    }
    if before.state.0 == State::CANCELLING {
        check(
            (after.state.0 == State::CANCELLING || after.state.0 == State::CANCELLED
                || after.state.0 == State::SKIPPED) && before.attempt == after.attempt
                && before.admitted_at.same(&after.admitted_at),
            "observed cancellation fence regressed",
        )?;
    }
    if before.state.0 == State::AWAITING_RETRY && before.attempt == after.attempt {
        check(
            !(after.state.0 == State::ACTIVE || after.state.0 == State::WAITING_CHILDREN
                || after.state.0 == State::SUCCEEDED),
            "failed attempt resumed without replacement",
        )?;
    }
    if before.admitted_at.is_some() {
        check(
            before.input.same(&after.input) && before.admitted_at.same(&after.admitted_at)
                && before.deadline.same(&after.deadline) && before.child.same(&after.child),
            "immutable admission fields changed between revisions",
        )?;
    }
    Ok(())
}

pub fn compatible(known: &ObservedWork, revision: Id, view: &WorkView) -> (r: Result<
    (),
    JournalError,
>)
    ensures
        ({
            let new = ObservedWork { revision, view: *view };
            match r {
                Ok(_) => both_hold(*known, new),
                Err(e) => !both_hold(*known, new) && e.fault() == integrity(),
            }
        }),
{
    if known.revision == revision {
        proof {
            revision.agrees_reflexive();
        }
        return check(known.view.same(view), "same work revision changed contents");
    }
    if known.revision.0 < revision.0 {
        precedes(&known.view, view)
    } else {
        precedes(view, &known.view)
    }
}

/// A success shows a manifest exactly where the session delivers results.
pub open spec fn profiled(view: WorkView, results: bool) -> bool {
    view.valid() && (view.state.0 == State::SUCCEEDED ==> (view.manifest is Some) == results)
}

fn note(revision: Id, view: &WorkView) -> (r: ObservedWork)
    ensures
        r.agrees(&(ObservedWork { revision, view: *view })),
{
    proof {
        revision.agrees_reflexive();
    }
    ObservedWork { revision, view: view.duplicate() }
}

/// An observation must fit into a control record.
fn observed_length(revision: Id, view: &WorkView) -> (r: Result<(), JournalError>)
    requires
        revision.valid(),
        view.valid(),
    ensures
        ({
            let n = (ObservedWork { revision, view: *view }).wire().len();
            match r {
                Ok(_) => n <= MAX_CONTROL_LIMIT,
                Err(e) => n > MAX_CONTROL_LIMIT && e.fault() == Fault::Refused(
                    ErrorCode::FrameError,
                ),
            }
        }),
{
    let incoming = note(revision, view);
    proof {
        ObservedWork::agrees_carries(&incoming, &(ObservedWork { revision, view: *view }));
    }
    protocol(encode(&incoming, MAX_CONTROL_LIMIT))?;
    Ok(())
}

impl Notes {
    pub open spec fn manifest_receipts(self, m: Manifest) -> spec_fn(OperationEntry) -> Option<Fault> {
        |e: OperationEntry|
            if known::about(e, m.work) {
                receipts::manifest_fault(e.intent, e.receipt->0.body, m)
            } else {
                None
            }
    }

    /// The manifest was issued by the bound session, for as long as its policy says.
    pub open spec fn issued(self, m: Manifest) -> bool {
        let identity = self.bound->0.identity;
        &&& m.authority.0@ == identity.authority.0@
        &&& m.owner.0@ == identity.owner.0@
        &&& m.generation == identity.generation
        &&& m.available_until.0 - m.committed_at.0 == self.creation.policy.output_retention_ms.0
    }

    /// Why a manifest contradicts what is known, if it does.
    #[verifier::opaque]
    pub open spec fn manifest_problem(self, m: Manifest) -> Option<Fault> {
        let o = self.observed_at(m.work);
        let answered = table::first_fault(self.operations, self.manifest_receipts(m));
        if !m.valid() {
            Some(Fault::Refused(ErrorCode::FrameError))
        } else if !(m.work.scope.0 != 0 || m.work.producer.0 == 0) {
            Some(integrity())
        } else if !self.creation.results {
            Some(Fault::Refused(ErrorCode::ExtensionUnsupported))
        } else if self.bound is None {
            Some(Fault::Refused(ErrorCode::NotReady))
        } else if !self.issued(m) {
            Some(integrity())
        } else if answered is Some {
            answered
        } else if o < self.observations.len() && !manifest_fits_view(m, self.observations[o].view) {
            Some(integrity())
        } else {
            self.scope_manifest_fault(m)
        }
    }

    pub open spec fn view_receipts(self, view: WorkView) -> spec_fn(OperationEntry) -> Option<Fault> {
        |e: OperationEntry|
            if known::about(e, view.work) {
                receipts::view_fault(e.intent, e.receipt->0.body, view)
            } else {
                None
            }
    }

    /// The intervals of a view are those of the policy.
    pub open spec fn kept_intervals(self, view: WorkView) -> bool {
        let policy = self.creation.policy;
        view.terminal_at matches Some(terminal) ==> {
            &&& view.receipt_until matches Some(until) && until.0 - terminal.0
                == policy.receipt_retention_ms.0
            &&& view.state.0 == State::SUCCEEDED ==> (view.deadline matches Some(deadline)
                && terminal.0 < deadline.0)
        }
    }

    pub open spec fn kept_execution(self, view: WorkView) -> bool {
        view.admitted_at matches Some(admitted) ==> (view.deadline matches Some(deadline) && deadline.0
            - admitted.0 <= self.creation.policy.execution_limit_ms.0)
    }

    /// Why an observation contradicts what is known, if it does.
    #[verifier::opaque]
    pub open spec fn view_problem(self, observed: ObservedWork) -> Option<Fault> {
        let view = observed.view;
        let m = self.manifest_at(view.work);
        let answered = table::first_fault(self.operations, self.view_receipts(view));
        if !observed.revision.valid() || !profiled(view, self.creation.results) {
            Some(Fault::Refused(ErrorCode::FrameError))
        } else if !(view.work.scope.0 != 0 || view.work.producer.0 == 0) {
            Some(integrity())
        } else if self.bound is None {
            Some(Fault::Refused(ErrorCode::NotReady))
        } else if !self.kept_execution(view) {
            Some(integrity())
        } else if answered is Some {
            answered
        } else if !self.kept_intervals(view) {
            Some(integrity())
        } else if view.manifest is Some && self.manifest_problem(view.manifest->0) is Some {
            self.manifest_problem(view.manifest->0)
        } else if m < self.manifests.len() && !manifest_fits_view(self.manifests[m], view) {
            Some(integrity())
        } else {
            self.scope_view_fault(view)
        }
    }

    /// Why a manifest is not kept, if it is not.
    pub open spec fn keep_fault(self, m: Manifest) -> Option<Fault> {
        let at = self.manifest_at(m.work);
        if self.manifest_problem(m) is Some {
            self.manifest_problem(m)
        } else if at < self.manifests.len() {
            unless(self.manifests[at].agrees(&m))
        } else if m.wire().len() > MAX_CONTROL_LIMIT {
            Some(Fault::Refused(ErrorCode::FrameError))
        } else if self.manifests.len() >= self.limits.observations.0 {
            Some(Fault::Refused(ErrorCode::LimitExceeded))
        } else {
            None
        }
    }

    /// The notes with the manifest kept, once.
    pub open spec fn keeps(self, m: Manifest, next: Notes) -> bool {
        if self.manifest_at(m.work) < self.manifests.len() {
            next == self
        } else {
            next == (Notes { manifests: self.manifests.push(next.manifests.last()), ..self })
                && next.manifests.last().agrees(&m)
        }
    }

    /// A newer observation than the incoming one is already known.
    pub open spec fn seen_later(self, incoming: ObservedWork) -> bool {
        let at = self.observed_at(incoming.view.work);
        at < self.observations.len() && self.observations[at].revision.0 >= incoming.revision.0
    }

    /// Why an observation is not kept, if it is not.
    pub open spec fn observe_fault(self, incoming: ObservedWork) -> Option<Fault> {
        let at = self.observed_at(incoming.view.work);
        let problem = self.view_problem(incoming);
        if problem is Some {
            problem
        } else if at < self.observations.len() && !both_hold(self.observations[at], incoming) {
            Some(integrity())
        } else if self.seen_later(incoming) {
            None
        } else if incoming.view.manifest is Some && self.keep_fault(incoming.view.manifest->0) is Some {
            self.keep_fault(incoming.view.manifest->0)
        } else if incoming.wire().len() > MAX_CONTROL_LIMIT {
            Some(Fault::Refused(ErrorCode::FrameError))
        } else if at >= self.observations.len() && self.observations.len()
            >= self.limits.observations.0 {
            Some(Fault::Refused(ErrorCode::LimitExceeded))
        } else {
            None
        }
    }

    /// The observation stands in the notes, in the place of an older one if there was one.
    pub open spec fn notes_view(self, incoming: ObservedWork, next: Notes) -> bool {
        let at = self.observed_at(incoming.view.work);
        if at < self.observations.len() {
            next.observations == self.observations.update(at, next.observations[at])
                && next.observations[at].agrees(&incoming)
        } else {
            next.observations == self.observations.push(next.observations.last())
                && next.observations.last().agrees(&incoming)
        }
    }

    pub open spec fn pairs(self, intent: Intent, receipt: OperationReceipt) -> spec_fn(
        OperationEntry,
    ) -> Option<Fault> {
        |e: OperationEntry|
            if target_is(intent, receipts::target_of(e.intent)) && e.receipt is Some {
                unless(receipts::pair_fits(e.intent, e.receipt->0, intent, receipt))
            } else {
                None
            }
    }

    /// Why a receipt contradicts what is known of its work, if it does.
    #[verifier::opaque]
    pub open spec fn receipt_problem(self, intent: Intent, receipt: OperationReceipt) -> Option<Fault> {
        let work = receipts::target_of(intent);
        let o = self.observed_at(work->0);
        let m = self.manifest_at(work->0);
        let paired = table::first_fault(self.operations, self.pairs(intent, receipt));
        let shown = receipts::view_fault(intent, receipt.body, self.observations[o].view);
        let published = receipts::manifest_fault(intent, receipt.body, self.manifests[m]);
        if intent.mutation matches Mutation::Admit(p) && !(p.work.producer.0 == 0 && p.execution_ms.0
            <= self.creation.policy.execution_limit_ms.0 && (self.creation.results || (
        p.outputs.count.0 == 0 && p.outputs.total_bytes.0 == 0))) {
            Some(integrity())
        } else if work is Some && !((work->0).scope.0 != 0 || (work->0).producer.0 == 0) {
            Some(integrity())
        } else if work is Some && paired is Some {
            paired
        } else if work is Some && o < self.observations.len() && shown is Some {
            shown
        } else if work is Some && m < self.manifests.len() && published is Some {
            published
        } else {
            self.scope_receipt_fault(intent, receipt)
        }
    }
}

/// The other work is that of the intent.
pub open spec fn target_is(intent: Intent, other: Option<WorkKey>) -> bool {
    other is Some && receipts::target_of(intent) == other
}

impl Journal {
    pub fn validate_manifest(&self, m: &Manifest) -> (r: Result<(), JournalError>)
        ensures
            match r {
                Ok(_) => self@.manifest_problem(*m) is None,
                Err(e) => self@.manifest_problem(*m) == Some(e.fault()),
            },
    {
        proof {
            reveal(Notes::manifest_problem);
        }
        protocol(m.check())?;
        check(m.work.scope.0 != 0 || m.work.producer.0 == 0, "root work producer changed")?;
        if !self.creation.results {
            return Err(refuse(ErrorCode::ExtensionUnsupported, "journal has no result profile"));
        }
        let identity = self.known_identity()?;
        check(
            m.authority.same(&identity.authority) && m.owner.same(&identity.owner) && m.generation
                == identity.generation,
            "manifest issuing identity disagrees with session",
        )?;
        check(
            m.available_until.0 - m.committed_at.0 == self.creation.policy.output_retention_ms.0,
            "manifest output interval disagrees with retained policy",
        )?;
        self.manifest_answers(m)?;
        match self.find_observed(&m.work) {
            Some(o) => {
                manifest_matches_view(m, &self.observations[o].view)?;
            },
            None => {},
        }
        self.scope_manifest(m)
    }

    fn manifest_answers(&self, m: &Manifest) -> (r: Result<(), JournalError>)
        ensures
            match r {
                Ok(_) => table::first_fault(self@.operations, self@.manifest_receipts(*m)) is None,
                Err(e) => table::first_fault(self@.operations, self@.manifest_receipts(*m)) == Some(
                    e.fault(),
                ),
            },
    {
        let ghost f = self@.manifest_receipts(*m);
        let mut i: usize = 0;
        proof {
            table::lemma_first_fault_whole(self.operations@, f);
        }
        while i < self.operations.len()
            invariant
                i <= self.operations@.len(),
                f == self@.manifest_receipts(*m),
                table::first_fault(self.operations@.take(i as int), f) is None,
            decreases self.operations@.len() - i,
        {
            proof {
                table::lemma_first_fault_step(self.operations@, f, i as int);
            }
            let concerns = match target(&self.operations[i].intent) {
                Some(work) => work == m.work,
                None => false,
            };
            if concerns {
                match &self.operations[i].receipt {
                    Some(receipt) => {
                        receipts::manifest(&self.operations[i].intent, &receipt.body, m)?;
                    },
                    None => {},
                }
            }
            i += 1;
        }
        proof {
            table::lemma_first_fault_whole(self.operations@, f);
        }
        Ok(())
    }

    fn view_answers(&self, view: &WorkView) -> (r: Result<(), JournalError>)
        ensures
            match r {
                Ok(_) => table::first_fault(self@.operations, self@.view_receipts(*view)) is None,
                Err(e) => table::first_fault(self@.operations, self@.view_receipts(*view)) == Some(
                    e.fault(),
                ),
            },
    {
        let ghost f = self@.view_receipts(*view);
        let mut i: usize = 0;
        proof {
            table::lemma_first_fault_whole(self.operations@, f);
        }
        while i < self.operations.len()
            invariant
                i <= self.operations@.len(),
                f == self@.view_receipts(*view),
                table::first_fault(self.operations@.take(i as int), f) is None,
            decreases self.operations@.len() - i,
        {
            proof {
                table::lemma_first_fault_step(self.operations@, f, i as int);
            }
            let concerns = match target(&self.operations[i].intent) {
                Some(work) => work == view.work,
                None => false,
            };
            if concerns {
                match &self.operations[i].receipt {
                    Some(receipt) => {
                        receipts::view(&self.operations[i].intent, &receipt.body, view)?;
                    },
                    None => {},
                }
            }
            i += 1;
        }
        proof {
            table::lemma_first_fault_whole(self.operations@, f);
        }
        Ok(())
    }

    fn validate_intervals(&self, view: &WorkView) -> (r: Result<(), JournalError>)
        requires
            view.valid(),
        ensures
            match r {
                Ok(_) => self@.kept_intervals(*view),
                Err(e) => !self@.kept_intervals(*view) && e.fault() == integrity(),
            },
    {
        match view.terminal_at {
            Some(terminal) => {
                let kept = match view.receipt_until {
                    Some(until) => until.0 - terminal.0
                        == self.creation.policy.receipt_retention_ms.0,
                    None => false,
                };
                check(kept, "view receipt interval disagrees with retained policy")?;
                if view.state.0 == State::SUCCEEDED {
                    let timely = match view.deadline {
                        Some(deadline) => terminal.0 < deadline.0,
                        None => false,
                    };
                    check(timely, "success committed at or after execution deadline")?;
                }
            },
            None => {},
        }
        Ok(())
    }

    pub fn validate_view(&self, observed: &ObservedWork) -> (r: Result<(), JournalError>)
        ensures
            match r {
                Ok(_) => self@.view_problem(*observed) is None,
                Err(e) => self@.view_problem(*observed) == Some(e.fault()),
            },
    {
        self.validate_work(observed.revision, &observed.view)
    }

    fn validate_work(&self, revision: Id, view: &WorkView) -> (r: Result<(), JournalError>)
        ensures
            ({
                let observed = ObservedWork { revision, view: *view };
                match r {
                    Ok(_) => self@.view_problem(observed) is None,
                    Err(e) => self@.view_problem(observed) == Some(e.fault()),
                }
            }),
    {
        proof {
            reveal(Notes::view_problem);
        }
        protocol(revision.check())?;
        protocol(view.validate_profiles(self.creation.results))?;
        check(view.work.scope.0 != 0 || view.work.producer.0 == 0, "root work producer changed")?;
        self.known_identity()?;
        match view.admitted_at {
            Some(admitted) => {
                let kept = match view.deadline {
                    Some(deadline) => deadline.0 - admitted.0
                        <= self.creation.policy.execution_limit_ms.0,
                    None => false,
                };
                check(kept, "view execution interval exceeds retained policy")?;
            },
            None => {},
        }
        self.view_answers(view)?;
        self.validate_intervals(view)?;
        match &view.manifest {
            Some(m) => {
                self.validate_manifest(m)?;
            },
            None => {},
        }
        match self.find_manifest(&view.work) {
            Some(k) => {
                manifest_matches_view(&self.manifests[k], view)?;
            },
            None => {},
        }
        self.scope_view(view)
    }

    /// Whether the manifest can be kept, and then whether it is new.
    pub fn manifest_room(&self, m: &Manifest) -> (r: Result<bool, JournalError>)
        ensures
            match r {
                Ok(new) => self@.keep_fault(*m) is None && new == (self@.manifest_at(m.work)
                    >= self@.manifests.len()),
                Err(e) => self@.keep_fault(*m) == Some(e.fault()),
            },
    {
        self.validate_manifest(m)?;
        proof {
            reveal(Notes::manifest_problem);
        }
        match self.find_manifest(&m.work) {
            Some(k) => {
                check(self.manifests[k].same(m), "immutable retained manifest changed")?;
                Ok(false)
            },
            None => {
                protocol(m.encode())?;
                if self.manifests.len() as u64 >= self.limits.observations.0 {
                    return Err(
                        refuse(ErrorCode::LimitExceeded, "client observation inventory ceiling"),
                    );
                }
                Ok(true)
            },
        }
    }

    /// Retains immutable evidence even after output expiry. This does not renew
    /// availability or authorize a read; the authority must grant each fresh read.
    pub fn remember_manifest(&mut self, m: &Manifest) -> (r: Result<(), JournalError>)
        requires
            old(self)@.well_formed(),
        ensures
            final(self)@.well_formed(),
            match r {
                Ok(_) => old(self)@.keep_fault(*m) is None && old(self)@.keeps(*m, final(self)@),
                Err(e) => old(self)@.keep_fault(*m) == Some(e.fault()) && final(self)@ == old(self)@,
            },
    {
        let new = self.manifest_room(m)?;
        if new {
            self.manifests.push(m.duplicate());
        }
        proof {
            reveal(Notes::manifest_problem);
            upkeep::law_manifest_keeps_the_audit(old(self)@, *m, self@);
            durability::law_manifest_stays_compact(old(self)@, *m, self@);
        }
        Ok(())
    }

    /// Call only after authenticating/correlating the WORK view. Returns the
    /// newest durable observation, which can be newer than an out-of-order reply.
    /// The view and any contained manifest commit atomically.
    pub fn observe_work(&mut self, revision: Id, view: &WorkView) -> (r: Result<
        ObservedWork,
        JournalError,
    >)
        requires
            old(self)@.well_formed(),
        ensures
            final(self)@.well_formed(),
            view_taken(
                old(self)@,
                (ObservedWork { revision, view: *view }),
                r,
                final(self)@,
            ),
    {
        let known = self.find_observed(&view.work);
        let new = match self.observation_room(revision, view, known)? {
            Some(new) => new,
            None => match known {
                Some(o) => {
                    return Ok(self.observations[o].duplicate());
                },
                None => false,
            },
        };
        let incoming = note(revision, view);
        let kept = note(revision, view);
        if new {
            match &view.manifest {
                Some(m) => {
                    self.manifests.push(m.duplicate());
                },
                None => {},
            }
        }
        match known {
            Some(o) => {
                self.observations.set(o, kept);
            },
            None => {
                self.observations.push(kept);
            },
        }
        proof {
            upkeep::law_observation_keeps_the_audit(
                old(self)@,
                ObservedWork { revision, view: *view },
                self@,
            );
            durability::law_observation_stays_compact(
                old(self)@,
                ObservedWork { revision, view: *view },
                self@,
            );
        }
        Ok(incoming)
    }

    /// Whether the observation can be kept: nothing where a later one is known already, and otherwise
    /// whether its manifest is new.
    fn observation_room(&self, revision: Id, view: &WorkView, known: Option<usize>) -> (r: Result<
        Option<bool>,
        JournalError,
    >)
        requires
            self@.well_formed(),
            match known {
                Some(o) => o == self@.observed_at(view.work) && o < self@.observations.len(),
                None => self@.observed_at(view.work) == self@.observations.len(),
            },
        ensures
            ({
                let t = self@;
                let incoming = ObservedWork { revision, view: *view };
                match r {
                    Err(e) => t.observe_fault(incoming) == Some(e.fault()),
                    Ok(None) => t.observe_fault(incoming) is None && t.seen_later(incoming),
                    Ok(Some(new)) => {
                        &&& t.observe_fault(incoming) is None && !t.seen_later(incoming)
                        &&& t.bound is Some
                        &&& new == (view.manifest is Some && t.manifest_at(view.manifest->0.work)
                            >= t.manifests.len())
                    },
                }
            }),
    {
        self.validate_work(revision, view)?;
        match known {
            Some(o) => {
                compatible(&self.observations[o], revision, view)?;
                if self.observations[o].revision.0 >= revision.0 {
                    return Ok(None);
                }
            },
            None => {},
        }
        let new = match &view.manifest {
            Some(m) => self.manifest_room(m)?,
            None => false,
        };
        proof {
            reveal(Notes::view_problem);
        }
        observed_length(revision, view)?;
        if known.is_none() && self.observations.len() as u64 >= self.limits.observations.0 {
            return Err(refuse(ErrorCode::LimitExceeded, "client observation inventory ceiling"));
        }
        Ok(Some(new))
    }

    pub fn observed_work(&self, work: &WorkKey) -> (r: Result<Option<ObservedWork>, JournalError>)
        ensures
            ({
                let at = self@.observed_at(*work);
                let problem = self@.view_problem(self@.observations[at]);
                match r {
                    Ok(Some(o)) => work.valid() && at < self@.observations.len() && problem is None
                        && o.agrees(&self@.observations[at]),
                    Ok(None) => work.valid() && at >= self@.observations.len(),
                    Err(e) => if !work.valid() {
                        e.fault() == Fault::Refused(ErrorCode::FrameError)
                    } else {
                        at < self@.observations.len() && problem == Some(e.fault())
                    },
                }
            }),
    {
        protocol(work.check())?;
        match self.find_observed(work) {
            Some(o) => {
                self.validate_view(&self.observations[o])?;
                Ok(Some(self.observations[o].duplicate()))
            },
            None => Ok(None),
        }
    }

    pub fn validate_known_receipt(&self, intent: &Intent, receipt: &OperationReceipt) -> (r: Result<
        (),
        JournalError,
    >)
        ensures
            match r {
                Ok(_) => self@.receipt_problem(*intent, *receipt) is None,
                Err(e) => self@.receipt_problem(*intent, *receipt) == Some(e.fault()),
            },
    {
        proof {
            reveal(Notes::receipt_problem);
        }
        match &intent.mutation {
            Mutation::Admit(p) => {
                check(
                    p.work.producer.0 == 0 && p.execution_ms.0
                        <= self.creation.policy.execution_limit_ms.0 && (self.creation.results || (
                    p.outputs.count.0 == 0 && p.outputs.total_bytes.0 == 0)),
                    "admission receipt violates retained producer, policy or profile",
                )?;
            },
            _ => {},
        }
        match target(intent) {
            Some(work) => {
                check(work.scope.0 != 0 || work.producer.0 == 0, "root work producer changed")?;
                self.receipt_pairs(intent, receipt)?;
                match self.find_observed(&work) {
                    Some(o) => {
                        receipts::view(intent, &receipt.body, &self.observations[o].view)?;
                    },
                    None => {},
                }
                match self.find_manifest(&work) {
                    Some(k) => {
                        receipts::manifest(intent, &receipt.body, &self.manifests[k])?;
                    },
                    None => {},
                }
            },
            None => {},
        }
        self.scope_receipt(intent, receipt)
    }

    fn receipt_pairs(&self, intent: &Intent, receipt: &OperationReceipt) -> (r: Result<
        (),
        JournalError,
    >)
        ensures
            match r {
                Ok(_) => table::first_fault(self@.operations, self@.pairs(*intent, *receipt)) is None,
                Err(e) => table::first_fault(self@.operations, self@.pairs(*intent, *receipt))
                    == Some(e.fault()),
            },
    {
        let ghost f = self@.pairs(*intent, *receipt);
        let mut i: usize = 0;
        proof {
            table::lemma_first_fault_whole(self.operations@, f);
        }
        while i < self.operations.len()
            invariant
                i <= self.operations@.len(),
                f == self@.pairs(*intent, *receipt),
                table::first_fault(self.operations@.take(i as int), f) is None,
            decreases self.operations@.len() - i,
        {
            proof {
                table::lemma_first_fault_step(self.operations@, f, i as int);
            }
            let concerns = match (target(&self.operations[i].intent), target(intent)) {
                (Some(a), Some(b)) => a == b,
                _ => false,
            };
            if concerns {
                match &self.operations[i].receipt {
                    Some(prior) => {
                        receipts::pair(&self.operations[i].intent, prior, intent, receipt)?;
                    },
                    None => {},
                }
            }
            i += 1;
        }
        proof {
            table::lemma_first_fault_whole(self.operations@, f);
        }
        Ok(())
    }
}

/// What a view comes to: it is kept with what it publishes, a later one was known, or it is refused and
/// nothing changes.
pub open spec fn view_taken(
    t: Notes,
    incoming: ObservedWork,
    r: Result<ObservedWork, JournalError>,
    after: Notes,
) -> bool {
    let at = t.observed_at(incoming.view.work);
    match r {
        Err(e) => t.observe_fault(incoming) == Some(e.fault()) && after == t,
        Ok(newest) => t.observe_fault(incoming) is None && if t.seen_later(incoming) {
            newest.agrees(&t.observations[at]) && after == t
        } else {
            &&& newest.agrees(&incoming)
            &&& t.notes_view(incoming, after)
            &&& match incoming.view.manifest {
                Some(m) => t.keeps(m, Notes { observations: t.observations, ..after }),
                None => after == (Notes { observations: after.observations, ..t }),
            }
        },
    }
}

} // verus!
