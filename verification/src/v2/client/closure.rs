//! Bottom-up closure evidence: a scope is covered once its full membership is verified, every member
//! has a terminal view, and every scope below is covered.

use super::super::authority::reconcile;
use super::super::authority::retirement;
use super::super::authority::store::Fault;
use super::super::authority::table;
use super::super::commitments::{self, StatusLeaf, StatusRoot};
use super::super::error::{ErrorCode, MAX_CONTROL_LIMIT, MAX_HEADER, MAX_NUMBER};
use super::super::labels::{self, Digest};
use super::super::messages::{Control, Drain};
use super::super::numbers::{Id, Number, State};
use super::super::records::{Counts, ScopeSummary, WorkView};
use super::super::wire::Wire;
use super::durability;
use super::journal::{self, Journal, Notes};
use super::observations::protocol;
use super::receipts::{check, integrity, unless};
use super::records::{ScopeMember, ScopeObservation};
use super::storage::{refuse, JournalError};
use super::upkeep;
use vstd::prelude::*;

verus! {

/// A child scope closed in time for the scope above and for the work that opened it. Work that
/// succeeded has only successes below.
pub open spec fn closed_below(
    covered: ScopeSummary,
    view: WorkView,
    summary: ScopeSummary,
) -> bool {
    &&& covered.parent == Some(view.work)
    &&& covered.producer == (view.child->0).producer
    &&& covered.closed_at.0 <= summary.closed_at.0
    &&& view.state.0 == State::SUCCEEDED ==> covered.counts.success == covered.declared && (
    view.terminal_at matches Some(at) && covered.closed_at.0 <= at.0)
}

impl Notes {
    pub open spec fn view_of(self, m: ScopeMember) -> WorkView {
        self.observations[self.observed_at(m.work)].view
    }

    /// The status root of the scope that the work opened.
    pub open spec fn child_root(self, view: WorkView) -> Option<Digest> {
        match view.child {
            Some(child) => Some(self.coverage[self.coverage_at(Number(child.scope.0))].status_root),
            None => None,
        }
    }

    pub open spec fn closing_leaf(self, m: ScopeMember) -> StatusLeaf {
        let view = self.view_of(m);
        reconcile::leaf_of(view, self.child_root(view))
    }

    /// Why a member holds up the closure of its scope, if it does.
    pub open spec fn member_open(self, scope: ScopeObservation, summary: ScopeSummary, m: ScopeMember) -> Option<
        Fault,
    > {
        let o = self.observed_at(m.work);
        let view = self.view_of(m);
        let c = self.coverage_at(Number((view.child->0).scope.0));
        if m.work.producer != scope.producer {
            Some(integrity())
        } else if self.member_fault(m) is Some {
            self.member_fault(m)
        } else if o >= self.observations.len() {
            Some(Fault::Refused(ErrorCode::NotReady))
        } else if self.view_problem(self.observations[o]) is Some {
            self.view_problem(self.observations[o])
        } else if !view.state.terminal() {
            Some(Fault::Refused(ErrorCode::NotReady))
        } else if !(view.terminal_at matches Some(at) && at.0 <= summary.closed_at.0) {
            Some(integrity())
        } else if view.child is Some && c >= self.coverage.len() {
            Some(Fault::Refused(ErrorCode::NotReady))
        } else if view.child is Some && !closed_below(self.coverage[c], view, summary) {
            Some(integrity())
        } else if view.manifest is Some && !(view.manifest->0.valid()
            && view.manifest->0.wire().len() <= MAX_CONTROL_LIMIT) {
            Some(Fault::Refused(ErrorCode::FrameError))
        } else if !self.closing_leaf(m).valid() {
            Some(Fault::Refused(ErrorCode::FrameError))
        } else {
            None
        }
    }

    pub open spec fn closing_check(self, scope: ScopeObservation, summary: ScopeSummary) -> spec_fn(
        ScopeMember,
    ) -> Option<Fault> {
        |m: ScopeMember| self.member_open(scope, summary, m)
    }

    /// How many of the members ended in each way.
    pub open spec fn tally(self, rows: Seq<ScopeMember>) -> Counts
        decreases rows.len(),
    {
        if rows.len() == 0 {
            reconcile::no_counts()
        } else {
            reconcile::counted(self.tally(rows.drop_last()), self.view_of(rows.last()).state)
        }
    }

    /// The digests of how the members ended, in their order.
    pub open spec fn closing_leaves(self, rows: Seq<ScopeMember>) -> Seq<Seq<u8>>
        decreases rows.len(),
    {
        if rows.len() == 0 {
            Seq::empty()
        } else {
            self.closing_leaves(rows.drop_last()).push(self.closing_leaf(rows.last()).leaf_digest())
        }
    }

    /// Why a summary does not close its scope, if it does not.
    #[verifier::opaque]
    pub open spec fn coverage_fault(self, summary: ScopeSummary) -> Option<Fault> {
        let s = self.scope_at(summary.scope);
        let scope = self.scopes[s];
        let rows = self.scope_members(summary.scope);
        let open = table::first_fault(rows, self.closing_check(scope, summary));
        if !summary.valid() {
            Some(Fault::Refused(ErrorCode::FrameError))
        } else if s >= self.scopes.len() {
            Some(Fault::Refused(ErrorCode::NotReady))
        } else if self.scope_fault(scope) is Some {
            self.scope_fault(scope)
        } else if !scope.membership_verified {
            Some(Fault::Refused(ErrorCode::NotReady))
        } else if !(scope.producer == summary.producer && scope.parent == summary.parent && (
        scope.seal matches Some(seal) && seal.0@ == summary.seal.0@) && scope.declared
            == summary.declared) {
            Some(integrity())
        } else if open is Some {
            open
        } else {
            unless(
                self.tally(rows) == summary.counts && commitments::merkle_root(
                    self.closing_leaves(rows),
                ) == summary.status_root.0@,
            )
        }
    }

    /// Why a stored summary does not close its scope, if it does not. Evidence that it was stored upon
    /// cannot be missing.
    pub open spec fn stored_fault(self, summary: ScopeSummary) -> Option<Fault> {
        match self.coverage_fault(summary) {
            Some(Fault::Refused(ErrorCode::NotReady)) => Some(Fault::Corrupt),
            fault => fault,
        }
    }

    /// Why a summary is not kept, if it is not.
    pub open spec fn checkpoint_fault(self, summary: ScopeSummary) -> Option<Fault> {
        let c = self.coverage_at(summary.scope);
        if self.coverage_fault(summary) is Some {
            self.coverage_fault(summary)
        } else if c < self.coverage.len() {
            unless(self.coverage[c] == summary)
        } else if self.coverage.len() + 1 > self.limits.observations.0 {
            Some(Fault::Refused(ErrorCode::LimitExceeded))
        } else {
            None
        }
    }

    /// The notes with the summary kept, once.
    pub open spec fn covered(self, summary: ScopeSummary) -> Notes {
        if self.coverage_at(summary.scope) < self.coverage.len() {
            self
        } else {
            Notes { coverage: self.coverage.push(summary), ..self }
        }
    }

    /// What is wrong with the covered scope, if anything is.
    pub open spec fn covered_fault(self, scope: Number) -> Option<Fault> {
        let c = self.coverage_at(scope);
        if !scope.valid() {
            Some(Fault::Refused(ErrorCode::FrameError))
        } else if c < self.coverage.len() {
            self.stored_fault(self.coverage[c])
        } else {
            None
        }
    }
}

/// What a request to complete the session comes to: the drain that names its root summary, or why there
/// is none yet.
pub open spec fn completion_given(t: Notes, request: Id, r: Result<Control, JournalError>) -> bool {
    let c = t.coverage_at(Number(0));
    let completion = Control::Drain(
        Drain::Complete {
            request,
            generation: t.bound->0.identity.generation,
            root_summary: t.coverage[c],
        },
    );
    let fault = if t.covered_fault(Number(0)) is Some {
        t.covered_fault(Number(0))
    } else if c >= t.coverage.len() {
        Some(Fault::Refused(ErrorCode::NotReady))
    } else if t.bound is None {
        Some(Fault::Refused(ErrorCode::NotReady))
    } else if !completion.sendable(MAX_HEADER) {
        Some(Fault::Refused(ErrorCode::FrameError))
    } else {
        None
    };
    match r {
        Ok(control) => fault is None && control == completion,
        Err(e) => fault == Some(e.fault()),
    }
}

/// A membership counts as verified only once it is complete.
pub proof fn law_verified_membership_is_complete(t: Notes, s: ScopeObservation)
    requires
        t.scope_fault(s) is None,
        s.membership_verified,
    ensures
        t.scope_members(s.scope).len() == s.declared.0,
        s.seal is Some,
        t.seal_fault(ScopeObservation { membership_verified: s.membership_verified, ..s }) is None,
{
    reveal(Notes::refreshed);
    let applied = t.with_declarations(t.operations, s)->Ok_0;
    assert(t.seal_fault(applied) == t.seal_fault(s));
}

/// Where a scope is covered, every member of its sealed membership has ended, and the summary counts
/// each of them once.
pub proof fn law_covered_scope_has_ended(t: Notes, summary: ScopeSummary, i: int)
    requires
        t.coverage_fault(summary) is None,
        0 <= i < t.scope_members(summary.scope).len(),
    ensures
        ({
            let rows = t.scope_members(summary.scope);
            let view = t.view_of(rows[i]);
            &&& t.observed_at(rows[i].work) < t.observations.len()
            &&& view.state.terminal()
            &&& view.terminal_at matches Some(at) && at.0 <= summary.closed_at.0
            &&& t.tally(rows) == summary.counts
            &&& rows.len() == summary.declared.0
            &&& view.child is Some ==> t.coverage_at(Number((view.child->0).scope.0))
                < t.coverage.len()
        }),
{
    reveal(Notes::coverage_fault);
    let s = t.scope_at(summary.scope);
    let scope = t.scopes[s];
    table::lemma_index_where(t.scopes, journal::is_scope(summary.scope));
    law_verified_membership_is_complete(t, scope);
    let rows = t.scope_members(summary.scope);
    table::lemma_first_fault_none(rows, t.closing_check(scope, summary));
    assert(t.closing_check(scope, summary)(rows[i]) is None);
}

fn copy_summary(summary: &ScopeSummary) -> (r: ScopeSummary)
    ensures
        r == *summary,
{
    let copy = summary.duplicate();
    proof {
        retirement::lemma_summary_equal(copy, *summary);
    }
    copy
}

/// The counts with one more member that ended like this.
fn bump(counts: &Counts, state: State) -> (r: Counts)
    requires
        reconcile::count_of(*counts, state) < u64::MAX,
    ensures
        r == reconcile::counted(*counts, state),
{
    if state.0 == State::SUCCEEDED {
        Counts {
            success: Number(counts.success.0 + 1),
            failure: counts.failure,
            cancelled: counts.cancelled,
            skipped: counts.skipped,
        }
    } else if state.0 == State::FAILED {
        Counts {
            success: counts.success,
            failure: Number(counts.failure.0 + 1),
            cancelled: counts.cancelled,
            skipped: counts.skipped,
        }
    } else if state.0 == State::CANCELLED {
        Counts {
            success: counts.success,
            failure: counts.failure,
            cancelled: Number(counts.cancelled.0 + 1),
            skipped: counts.skipped,
        }
    } else {
        Counts {
            success: counts.success,
            failure: counts.failure,
            cancelled: counts.cancelled,
            skipped: Number(counts.skipped.0 + 1),
        }
    }
}

impl Journal {
    pub fn find_coverage(&self, scope: Number) -> (r: Option<usize>)
        ensures
            match r {
                Some(i) => i == self@.coverage_at(scope) && i < self@.coverage.len(),
                None => self@.coverage_at(scope) == self@.coverage.len(),
            },
    {
        let ghost p = journal::is_coverage(scope);
        let mut i: usize = 0;
        while i < self.coverage.len()
            invariant
                i <= self.coverage@.len(),
                p == journal::is_coverage(scope),
                forall|j: int| 0 <= j < i ==> !p(#[trigger] self.coverage@[j]),
            decreases self.coverage@.len() - i,
        {
            if self.coverage[i].scope == scope {
                proof {
                    table::lemma_index_unique(self.coverage@, p, i as int);
                }
                return Some(i);
            }
            i += 1;
        }
        proof {
            table::lemma_index_unique(self.coverage@, p, i as int);
        }
        None
    }

    /// Holds the scope that the work opened against the closure above it.
    fn check_below(&self, view: &WorkView, summary: &ScopeSummary) -> (r: Result<
        Option<Digest>,
        JournalError,
    >)
        ensures
            ({
                let c = self@.coverage_at(Number((view.child->0).scope.0));
                match r {
                    Ok(root) => root == self@.child_root(*view) && (view.child is Some ==> c
                        < self@.coverage.len() && closed_below(
                        self@.coverage[c],
                        *view,
                        *summary,
                    )),
                    Err(e) => view.child is Some && if c >= self@.coverage.len() {
                        e.fault() == Fault::Refused(ErrorCode::NotReady)
                    } else {
                        !closed_below(self@.coverage[c], *view, *summary) && e.fault()
                            == integrity()
                    },
                }
            }),
    {
        match &view.child {
            Some(child) => {
                let c = match self.find_coverage(Number(child.scope.0)) {
                    Some(c) => c,
                    None => {
                        return Err(refuse(ErrorCode::NotReady, "descendant coverage missing"));
                    },
                };
                let covered = &self.coverage[c];
                let parent = match &covered.parent {
                    Some(parent) => *parent == view.work,
                    None => false,
                };
                check(
                    parent && covered.producer == child.producer,
                    "child coverage belongs to another parent or producer",
                )?;
                check(
                    covered.closed_at.0 <= summary.closed_at.0,
                    "scope closed before its descendant",
                )?;
                if view.state.0 == State::SUCCEEDED {
                    let timely = match view.terminal_at {
                        Some(at) => covered.closed_at.0 <= at.0,
                        None => false,
                    };
                    check(
                        covered.counts.success == covered.declared && timely,
                        "successful parent violates strict child closure",
                    )?;
                }
                Ok(Some(covered.status_root))
            },
            None => Ok(None),
        }
    }

    /// Holds a member against the closure of its scope, and gives the digest of how it ended.
    fn close_member(
        &self,
        scope: &ScopeObservation,
        summary: &ScopeSummary,
        member: &ScopeMember,
    ) -> (r: Result<(State, Digest), JournalError>)
        ensures
            match r {
                Ok((state, leaf)) => self@.member_open(*scope, *summary, *member) is None && state
                    == self@.view_of(*member).state && leaf.0@ == self@.closing_leaf(
                    *member,
                ).leaf_digest(),
                Err(e) => self@.member_open(*scope, *summary, *member) == Some(e.fault()),
            },
    {
        check(member.work.producer == scope.producer, "member identity index changed")?;
        self.validate_member(member)?;
        let o = match self.find_observed(&member.work) {
            Some(o) => o,
            None => {
                return Err(refuse(ErrorCode::NotReady, "terminal work view missing"));
            },
        };
        self.validate_view(&self.observations[o])?;
        let view = &self.observations[o].view;
        if !view.state.is_terminal() {
            return Err(refuse(ErrorCode::NotReady, "scope contains nonterminal work"));
        }
        let timely = match view.terminal_at {
            Some(at) => at.0 <= summary.closed_at.0,
            None => false,
        };
        check(timely, "closure precedes terminal member")?;
        let child_status_root = self.check_below(view, summary)?;
        let manifest_digest = match &view.manifest {
            Some(m) => {
                let digest = protocol(m.digest())?;
                proof {
                    labels::lemma_digest_of(digest);
                }
                Some(digest)
            },
            None => None,
        };
        let leaf = StatusLeaf {
            work: view.work,
            state: view.state,
            attempt: view.attempt,
            manifest_digest,
            child_status_root,
        };
        assert(leaf == self@.closing_leaf(*member));
        proof {
            if leaf.valid() {
                reconcile::lemma_leaf_fits(leaf);
            }
        }
        let digest = protocol(leaf.digest())?;
        Ok((view.state, digest))
    }

    /// Holds all members against the closure of their scope: how many ended in each way, and the root
    /// over how they ended.
    fn close_members(
        &self,
        scope: &ScopeObservation,
        summary: &ScopeSummary,
        members: &Vec<ScopeMember>,
    ) -> (r: Result<(Counts, Digest), JournalError>)
        requires
            members@.len() <= MAX_NUMBER,
        ensures
            ({
                let open = table::first_fault(members@, self@.closing_check(*scope, *summary));
                match r {
                    Ok((counts, root)) => open is None && counts == self@.tally(members@) && root.0@
                        == commitments::merkle_root(self@.closing_leaves(members@)),
                    Err(e) => open == Some(e.fault()),
                }
            }),
    {
        let ghost t = self@;
        let ghost f = t.closing_check(*scope, *summary);
        let mut counts = Counts {
            success: Number(0),
            failure: Number(0),
            cancelled: Number(0),
            skipped: Number(0),
        };
        let mut root = StatusRoot::new();
        let mut i: usize = 0;
        proof {
            table::lemma_first_fault_whole(members@, f);
            assert(members@.take(0) =~= Seq::empty());
        }
        while i < members.len()
            invariant
                i <= members@.len(),
                members@.len() <= MAX_NUMBER,
                t == self@,
                f == t.closing_check(*scope, *summary),
                table::first_fault(members@.take(i as int), f) is None,
                counts == t.tally(members@.take(i as int)),
                counts.success.0 <= i && counts.failure.0 <= i && counts.cancelled.0 <= i
                    && counts.skipped.0 <= i,
                root.well_formed(),
                root.pushed() == t.closing_leaves(members@.take(i as int)),
                root.pushed().len() == i,
            decreases members@.len() - i,
        {
            proof {
                table::lemma_first_fault_step(members@, f, i as int);
                assert(members@.take(i + 1).drop_last() =~= members@.take(i as int));
                assert(members@.take(i + 1).last() == members@[i as int]);
            }
            let (state, leaf) = self.close_member(scope, summary, &members[i])?;
            counts = bump(&counts, state);
            protocol(root.push(leaf))?;
            i += 1;
        }
        proof {
            table::lemma_first_fault_whole(members@, f);
            assert(members@.take(i as int) =~= members@);
        }
        Ok((counts, root.finish()))
    }

    pub fn validate_coverage(&self, summary: &ScopeSummary) -> (r: Result<(), JournalError>)
        requires
            self@.ordered(),
        ensures
            match r {
                Ok(_) => self@.coverage_fault(*summary) is None,
                Err(e) => self@.coverage_fault(*summary) == Some(e.fault()),
            },
    {
        proof {
            reveal(Notes::coverage_fault);
        }
        protocol(summary.check())?;
        let s = match self.find_scope(summary.scope) {
            Some(s) => s,
            None => {
                return Err(refuse(ErrorCode::NotReady, "scope membership not observed"));
            },
        };
        let scope = &self.scopes[s];
        self.check_scope_record(scope)?;
        if !scope.membership_verified {
            return Err(refuse(ErrorCode::NotReady, "full sealed membership not verified"));
        }
        let seal = match &scope.seal {
            Some(seal) => seal.same(&summary.seal),
            None => false,
        };
        check(
            scope.producer == summary.producer && scope.parent == summary.parent && seal
                && scope.declared == summary.declared,
            "checkpoint identity or membership commitment changed",
        )?;
        let members = self.members_of(summary.scope);
        proof {
            law_verified_membership_is_complete(self@, *scope);
        }
        let (counts, root) = self.close_members(scope, summary, &members)?;
        check(
            counts == summary.counts && root.same(&summary.status_root),
            "checkpoint counts or status root disagree with terminal evidence",
        )
    }

    pub fn validate_stored_coverage(&self, summary: &ScopeSummary) -> (r: Result<(), JournalError>)
        requires
            self@.ordered(),
        ensures
            match r {
                Ok(_) => self@.stored_fault(*summary) is None,
                Err(e) => self@.stored_fault(*summary) == Some(e.fault()),
            },
    {
        match self.validate_coverage(summary) {
            Ok(_) => Ok(()),
            Err(JournalError::Protocol(e)) => match e.code {
                ErrorCode::NotReady => Err(
                    JournalError::Corrupt("stored coverage lost required evidence"),
                ),
                _ => Err(JournalError::Protocol(e)),
            },
            Err(e) => Err(e),
        }
    }

    /// Persist coverage only after complete membership, every terminal WORK
    /// view and every child scope's already validated coverage agree with it.
    /// A membership page's state column cannot substitute for a full WORK view.
    pub fn record_checkpoint(&mut self, summary: &ScopeSummary) -> (r: Result<(), JournalError>)
        requires
            old(self)@.well_formed(),
        ensures
            final(self)@.well_formed(),
            match r {
                Ok(_) => old(self)@.checkpoint_fault(*summary) is None && final(self)@ == old(
                    self,
                )@.covered(*summary),
                Err(e) => old(self)@.checkpoint_fault(*summary) == Some(e.fault()) && final(self)@
                    == old(self)@,
            },
    {
        self.validate_coverage(summary)?;
        proof {
            reveal(Notes::coverage_fault);
        }
        match self.find_coverage(summary.scope) {
            Some(c) => {
                let same = self.coverage[c].same(summary);
                proof {
                    if same {
                        retirement::lemma_summary_equal(self.coverage@[c as int], *summary);
                    } else {
                        summary.agrees_reflexive();
                    }
                }
                check(same, "immutable scope closure changed")?;
            },
            None => {
                if self.coverage.len() as u64 >= self.limits.observations.0 {
                    return Err(refuse(ErrorCode::LimitExceeded, "client scope inventory ceiling"));
                }
                self.coverage.push(copy_summary(summary));
            },
        }
        proof {
            upkeep::law_checkpoint_keeps_the_audit(old(self)@, *summary);
            durability::law_checkpoint_stays_compact(old(self)@, *summary);
        }
        Ok(())
    }

    pub fn covered_scope(&self, scope: Number) -> (r: Result<Option<ScopeSummary>, JournalError>)
        requires
            self@.ordered(),
        ensures
            ({
                let c = self@.coverage_at(scope);
                match r {
                    Ok(Some(s)) => self@.covered_fault(scope) is None && c < self@.coverage.len() && s
                        == self@.coverage[c],
                    Ok(None) => self@.covered_fault(scope) is None && c >= self@.coverage.len(),
                    Err(e) => self@.covered_fault(scope) == Some(e.fault()),
                }
            }),
    {
        protocol(scope.check())?;
        match self.find_coverage(scope) {
            Some(c) => {
                self.validate_stored_coverage(&self.coverage[c])?;
                Ok(Some(copy_summary(&self.coverage[c])))
            },
            None => Ok(None),
        }
    }

    /// The transport must independently drain pending requests/transfers and
    /// authenticate/correlate the echoed response. This constructs only the
    /// exact durable root cut, not an acknowledgment of connection shutdown.
    pub fn root_completion(&self, request: Id) -> (r: Result<Control, JournalError>)
        requires
            self@.ordered(),
        ensures
            completion_given(self@, request, r),
    {
        let root = match self.covered_scope(Number(0))? {
            Some(root) => root,
            None => {
                return Err(refuse(ErrorCode::NotReady, "root coverage not recorded"));
            },
        };
        let generation = self.known_identity()?.generation;
        let control = Control::Drain(
            Drain::Complete { request, generation, root_summary: root },
        );
        protocol(control.encode(MAX_HEADER))?;
        Ok(control)
    }
}

} // verus!
