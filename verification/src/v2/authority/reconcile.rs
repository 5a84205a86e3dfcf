//! Local reconciliation: work whose outcome is decided is ended, frozen scopes are sealed, and
//! sealed scopes whose members have all ended are closed, in bounded batches.

use super::super::commitments::{ScopeSeal, SealProgress, SessionIdentity, StatusLeaf, StatusRoot};
use super::super::commitments;
use super::super::error::{ErrorCode, MAX_CONTROL_LIMIT, MAX_HEADER, MAX_NUMBER};
use super::super::labels::{self, Detail, Digest};
use super::super::numbers::{DiagnosticCode, Duration, Id, Number, Producer, State};
use super::super::records::{Counts, Diagnostic, ScopeSummary, WorkKey, WorkView};
use super::super::wire::Wire;
use super::accounts;
use super::scopes;
use super::settlement::{self, Ended};
use super::store::{
    self, add_duration, increment, protocol, AuthorityStore, ClockReading, Fault, ScopeRow,
    StoreError, Tables, WorkRow,
};
use super::table;
use crate::cbor;
use vstd::prelude::*;

verus! {

/// How far the fold over one scope has come.
pub struct Scan {
    pub identity: SessionIdentity,
    pub scope: Number,
    pub producer: Producer,
    pub parent: Option<WorkKey>,
    pub declared: Number,
    pub after: Number,
    pub count: u64,
    pub sealing: Option<SealProgress>,
    pub seal: Option<Digest>,
    pub leaves: Seq<Seq<u8>>,
    pub counts: Counts,
}

/// Where reconciliation goes on.
pub struct Cursor {
    pub binding: Option<u64>,
    pub work_before: Option<u64>,
    pub scope_before: Option<u64>,
    pub scan: Option<Scan>,
}

/// What a batch of members comes to.
pub struct Folded {
    pub scan: Scan,
    pub waiting: bool,
    pub inspected: nat,
}

/// What is to be done about a scope.
pub enum Advance {
    /// The session is not live.
    Inactive,
    /// The scope was closed meanwhile.
    Stop,
    /// A member has not ended, or its child scope has not closed.
    Waiting,
    /// There are more members.
    More(Scan),
    /// The whole membership was hashed.
    Sealed(Digest),
    /// Every member has ended.
    Closed(ScopeSummary),
}

impl Cursor {
    /// A scan that folds the ends of members goes by the seal that its scope has. So does every cursor
    /// that was handed out for the tables, whatever became of them since.
    pub open spec fn follows(self, t: Tables) -> bool {
        let scan = self.scan->0;
        let generation = scan.identity.generation;
        let k = t.scope_at(generation, scan.scope);
        self.scan is Some && scan.sealing is None ==> scan.seal is Some && generation.0
            <= t.last_generation && (t.live(generation) ==> k < t.scopes.len() && t.scopes[k].seal
            == scan.seal)
    }
}

/// What became of a scope, and of the scan over it.
pub struct ScopeOutcome {
    pub tables: Tables,
    pub scope_before: Option<u64>,
    pub scan: Option<Scan>,
    pub inspected: nat,
    pub frozen: nat,
    pub sealed: nat,
    pub closed: nat,
}

/// The end that is due for a unit of work, with its diagnostic's code and text.
pub struct Verdict {
    pub state: State,
    pub diagnostic: Option<(u64, Seq<char>)>,
}

impl Verdict {
    pub open spec fn explains(self, diagnostic: Option<Diagnostic>) -> bool {
        match self.diagnostic {
            None => diagnostic is None,
            Some(expected) => diagnostic matches Some(d) && d.code.0 == expected.0 && d.detail.0@
                == expected.1,
        }
    }
}

pub open spec fn no_counts() -> Counts {
    Counts { success: Number(0), failure: Number(0), cancelled: Number(0), skipped: Number(0) }
}

/// How many members have ended in the given state.
pub open spec fn count_of(counts: Counts, state: State) -> u64 {
    if state.0 == State::SUCCEEDED {
        counts.success.0
    } else if state.0 == State::FAILED {
        counts.failure.0
    } else if state.0 == State::CANCELLED {
        counts.cancelled.0
    } else {
        counts.skipped.0
    }
}

/// The counts with one more member that has ended in the given state.
pub open spec fn counted(counts: Counts, state: State) -> Counts {
    let more = Number((count_of(counts, state) + 1) as u64);
    if state.0 == State::SUCCEEDED {
        Counts { success: more, ..counts }
    } else if state.0 == State::FAILED {
        Counts { failure: more, ..counts }
    } else if state.0 == State::CANCELLED {
        Counts { cancelled: more, ..counts }
    } else {
        Counts { skipped: more, ..counts }
    }
}

/// The status leaf of work that has ended.
pub open spec fn leaf_of(view: WorkView, child: Option<Digest>) -> StatusLeaf {
    StatusLeaf {
        work: view.work,
        state: view.state,
        attempt: view.attempt,
        manifest_digest: match view.manifest {
            Some(m) => Some(labels::digest_of(m.manifest_digest())),
            None => None,
        },
        child_status_root: child,
    }
}

/// A scan from the first member on.
pub open spec fn first_scan(identity: SessionIdentity, row: ScopeRow) -> Scan {
    Scan {
        identity,
        scope: row.scope,
        producer: row.producer,
        parent: row.parent,
        declared: row.declared,
        after: Number(0),
        count: 0,
        sealing: if row.seal is None {
            Some(
                SealProgress {
                    session: identity,
                    scope: row.scope,
                    producer: row.producer,
                    parent: row.parent,
                    declared: row.declared,
                    ids: Seq::empty(),
                },
            )
        } else {
            None
        },
        seal: row.seal,
        leaves: Seq::empty(),
        counts: no_counts(),
    }
}

/// The summary that closes a scope after its last member.
pub open spec fn closing_summary(scan: Scan, at: Number) -> ScopeSummary {
    ScopeSummary {
        scope: scan.scope,
        producer: scan.producer,
        parent: scan.parent,
        seal: scan.seal->0,
        declared: scan.declared,
        counts: scan.counts,
        status_root: labels::digest_of(commitments::merkle_root(scan.leaves)),
        closed_at: at,
    }
}

impl Tables {
    /// The session is there and not retired.
    pub open spec fn live(self, generation: Id) -> bool {
        self.session_at(generation) < self.sessions.len() && self.retirement_at(generation)
            >= self.retirements.len()
    }

    pub open spec fn visitable(self, before: Option<u64>) -> spec_fn(WorkRow) -> bool {
        |r: WorkRow| (before matches Some(b) ==> r.row < b) && self.live(r.generation)
    }

    pub open spec fn scannable(self, before: Option<u64>) -> spec_fn(ScopeRow) -> bool {
        |r: ScopeRow| (before matches Some(b) ==> r.row < b) && self.live(r.generation)
    }

    /// What is due for a unit of work: a fence of its own, of its scope or of an ancestor ends it once
    /// its child scope has closed; a deadline that was reached fails it; so does a child scope that
    /// closed with a member that did not succeed.
    pub open spec fn due(self, row: WorkRow, now: Number) -> Result<Option<Verdict>, Fault> {
        let generation = row.generation;
        let fenced = self.open_fault(generation, row.view.work.scope);
        if row.view.state.terminal() {
            Ok(None)
        } else if fenced is Some && fenced->0 != Fault::Refused(ErrorCode::Cancelled) {
            Err(fenced->0)
        } else if row.fence is Some || fenced is Some {
            match self.child_closed(generation, row.view) {
                Err(fault) => Err(fault),
                Ok(false) => Ok(None),
                Ok(true) => Ok(
                    Some(
                        Verdict {
                            state: match row.fence {
                                Some(fence) => fence.outcome,
                                None => State(State::CANCELLED),
                            },
                            diagnostic: None,
                        },
                    ),
                ),
            }
        } else if row.view.deadline is Some && now.0 >= (row.view.deadline->0).0 {
            Ok(
                Some(
                    Verdict {
                        state: State(State::FAILED),
                        diagnostic: Some(
                            (
                                ErrorCode::DeadlineExceeded.wire_code(),
                                "execution deadline reached"@,
                            ),
                        ),
                    },
                ),
            )
        } else {
            match row.view.child {
                None => Ok(None),
                Some(child) => {
                    let k = self.scope_at(generation, Number(child.scope.0));
                    if k >= self.scopes.len() {
                        Err(Fault::Refused(ErrorCode::NotFound))
                    } else if self.scopes[k].summary matches Some(summary)
                        && summary.counts.success != summary.declared {
                        Ok(
                            Some(
                                Verdict {
                                    state: State(State::FAILED),
                                    diagnostic: Some(
                                        (
                                            0,
                                            "STRICT child scope contains nonsuccessful work"@,
                                        ),
                                    ),
                                },
                            ),
                        )
                    } else {
                        Ok(None)
                    }
                },
            }
        }
    }

    pub open spec fn receipt_retention(self, generation: Id) -> Duration {
        self.sessions[self.session_at(generation)].binding.policy.receipt_retention_ms
    }

    /// One unit of work was looked at, and ended where its end is due.
    pub open spec fn settle_step(self, j: int, now: Number, after: Tables, settled: bool) -> bool {
        let row = self.work[j];
        let retention = self.receipt_retention(row.generation);
        let diagnostic = after.work[j].view.diagnostic;
        match self.due(row, now) {
            Err(_) => false,
            Ok(None) => after == self && !settled,
            Ok(Some(verdict)) => {
                &&& settled
                &&& verdict.explains(diagnostic)
                &&& settlement::end_fault(row, verdict.state, diagnostic, now, retention) is None
                &&& after == (Tables {
                    work: self.work.update(
                        j,
                        settlement::ended_row(
                            row,
                            verdict.state,
                            diagnostic,
                            now,
                            store::later(now, retention)->0,
                        ),
                    ),
                    ..self
                })
            },
        }
    }

    /// One unit of work was looked at, and counted where it was ended.
    pub open spec fn stepped(
        self,
        j: int,
        now: Number,
        after: Tables,
        count: nat,
        settled: nat,
    ) -> bool {
        self.settle_step(j, now, after, settled == count + 1) && count <= settled <= count + 1
    }

    /// One unit of work cannot be looked at, or not be ended.
    pub open spec fn settle_fails(self, j: int, now: Number, fault: Fault) -> bool {
        let row = self.work[j];
        let retention = self.receipt_retention(row.generation);
        match self.due(row, now) {
            Err(f) => f == fault,
            Ok(None) => false,
            Ok(Some(verdict)) => exists|diagnostic: Option<Diagnostic>|
                verdict.explains(diagnostic) && #[trigger] settlement::end_fault(
                    row,
                    verdict.state,
                    diagnostic,
                    now,
                    retention,
                ) == Some(fault),
        }
    }

    /// The rows were looked at one after the other.
    pub open spec fn settle_pass(
        self,
        rows: Seq<int>,
        now: Number,
        after: Tables,
        settled: nat,
    ) -> bool
        decreases rows.len(),
    {
        if rows.len() == 0 {
            after == self && settled == 0
        } else {
            exists|mid: Tables, count: nat|
                {
                    &&& self.settle_pass(rows.drop_last(), now, mid, count)
                    &&& #[trigger] mid.stepped(rows.last(), now, after, count, settled)
                }
        }
    }

    /// Some row cannot be looked at or not be ended, after the ones before it.
    pub open spec fn settle_pass_fails(self, rows: Seq<int>, now: Number, fault: Fault) -> bool {
        exists|n: int, mid: Tables, count: nat|
            {
                &&& 0 <= n < rows.len()
                &&& #[trigger] self.settle_pass(rows.take(n), now, mid, count)
                &&& mid.settle_fails(rows[n], now, fault)
            }
    }

    /// The status leaf of a member, where it has ended and its child scope has closed.
    pub open spec fn member_leaf(self, generation: Id, view: WorkView) -> Result<
        Option<Seq<u8>>,
        Fault,
    > {
        let k = self.scope_at(generation, Number((view.child->0).scope.0));
        let root = if view.child is Some {
            Some((self.scopes[k].summary->0).status_root)
        } else {
            None
        };
        let leaf = leaf_of(view, root);
        if !view.state.terminal() {
            Ok(None)
        } else if view.child is Some && k >= self.scopes.len() {
            Err(Fault::Refused(ErrorCode::NotFound))
        } else if view.child is Some && self.scopes[k].summary is None {
            Ok(None)
        } else if view.manifest is Some && !(view.manifest->0.valid()
            && view.manifest->0.wire().len() <= MAX_CONTROL_LIMIT) {
            Err(Fault::Refused(ErrorCode::FrameError))
        } else if !leaf.valid() {
            Err(Fault::Refused(ErrorCode::FrameError))
        } else {
            Ok(Some(leaf.leaf_digest()))
        }
    }

    /// The next member of a scope: hashed into the seal, or its final status folded in. A member
    /// that has not ended, or whose child scope is open, holds the fold up.
    #[verifier::opaque]
    pub open spec fn visit(self, scan: Scan, row: WorkRow) -> Result<Option<Scan>, Fault> {
        let view = row.view;
        let entity = view.work.entity;
        let moved = Scan { after: Number(entity.0), count: (scan.count + 1) as u64, ..scan };
        match scan.sealing {
            Some(progress) => if !progress.takes(entity) {
                Err(Fault::Refused(ErrorCode::FrameError))
            } else if scan.count >= MAX_NUMBER {
                Err(Fault::Refused(ErrorCode::LimitExceeded))
            } else {
                Ok(
                    Some(
                        Scan {
                            sealing: Some(
                                SealProgress { ids: progress.ids.push(entity), ..progress },
                            ),
                            ..moved
                        },
                    ),
                )
            },
            None => match self.member_leaf(scan.identity.generation, view) {
                Err(fault) => Err(fault),
                Ok(None) => Ok(None),
                Ok(Some(leaf)) => if scan.leaves.len() >= MAX_NUMBER || count_of(
                    scan.counts,
                    view.state,
                ) >= MAX_NUMBER || scan.count >= MAX_NUMBER {
                    Err(Fault::Refused(ErrorCode::LimitExceeded))
                } else {
                    Ok(
                        Some(
                            Scan {
                                leaves: scan.leaves.push(leaf),
                                counts: counted(scan.counts, view.state),
                                ..moved
                            },
                        ),
                    )
                },
            },
        }
    }

    /// The fold over a batch of members.
    pub open spec fn fold(self, scan: Scan, rows: Seq<WorkRow>) -> Result<Folded, Fault>
        decreases rows.len(),
    {
        if rows.len() == 0 {
            Ok(Folded { scan, waiting: false, inspected: 0 })
        } else {
            match self.fold(scan, rows.drop_last()) {
                Err(fault) => Err(fault),
                Ok(f) => if f.waiting {
                    Ok(f)
                } else {
                    match self.visit(f.scan, rows.last()) {
                        Err(fault) => Err(fault),
                        Ok(None) => Ok(
                            Folded { waiting: true, inspected: f.inspected + 1, ..f },
                        ),
                        Ok(Some(next)) => Ok(
                            Folded { scan: next, waiting: false, inspected: f.inspected + 1 },
                        ),
                    }
                },
            }
        }
    }

    /// The members that the next batch looks at.
    pub open spec fn batch(self, scan: Scan, limit: nat) -> Seq<WorkRow> {
        let rows = self.page_rows(scan.identity.generation, scan.scope, scan.after);
        rows.take(scopes::least_len(rows.len(), limit) as int)
    }

    /// What the next batch of a scope comes to, and how many members were looked at.
    #[verifier::opaque]
    pub open spec fn advance(self, scan: Scan, limit: nat, now: Number) -> Result<
        (Advance, nat),
        Fault,
    > {
        let generation = scan.identity.generation;
        let k = self.scope_at(generation, scan.scope);
        let row = self.scopes[k];
        let folded = self.fold(scan, self.batch(scan, limit));
        let f = folded->Ok_0;
        let p = f.scan.sealing->0;
        let seal = labels::digest_of(
            commitments::seal_digest(p.session, p.scope, p.producer, p.parent, p.ids),
        );
        if !self.live(generation) {
            Ok((Advance::Inactive, 0))
        } else if k >= self.scopes.len() {
            Err(Fault::Refused(ErrorCode::NotFound))
        } else if row.summary is Some {
            Ok((Advance::Stop, 0))
        } else if row.declared != scan.declared || row.producer != scan.producer || row.parent
            != scan.parent {
            Err(Fault::Corrupt)
        } else if folded is Err {
            Err(folded->Err_0)
        } else if f.waiting {
            Ok((Advance::Waiting, f.inspected))
        } else if self.page_rows(generation, scan.scope, f.scan.after).len() > 0 {
            Ok((Advance::More(f.scan), f.inspected))
        } else if f.scan.count != scan.declared.0 {
            Err(Fault::Corrupt)
        } else if f.scan.sealing is Some {
            if p.ids.len() != p.declared.0 {
                Err(Fault::Refused(ErrorCode::FrameError))
            } else if row.seal matches Some(old) && old != seal {
                Err(Fault::Corrupt)
            } else {
                Ok((Advance::Sealed(seal), f.inspected))
            }
        } else if scan.scope.0 == 0 && store::later(now, self.receipt_retention(generation)) is None {
            Err(Fault::Refused(ErrorCode::LimitExceeded))
        } else if scan.seal is None {
            Err(Fault::Corrupt)
        } else if !closing_summary(f.scan, now).valid() {
            Err(Fault::Refused(ErrorCode::FrameError))
        } else {
            Ok((Advance::Closed(closing_summary(f.scan, now)), f.inspected))
        }
    }

    /// The scope that comes next, the latest first.
    pub open spec fn next_scope(self, before: Option<u64>) -> Option<int> {
        let rows = table::latest(self.scopes, self.scannable(before), 1);
        if rows.len() == 0 {
            None
        } else {
            Some(rows[0])
        }
    }

    /// The name is that of the session which the next scope belongs to.
    pub open spec fn names_next(self, before: Option<u64>, identity: SessionIdentity) -> bool {
        let k = self.next_scope(before)->0;
        let generation = self.scopes[k].generation;
        self.next_scope(before) is Some ==> {
            &&& identity.generation == generation
            &&& identity.authority.0@ == self.authority.0@
            &&& identity.owner.0@ == self.sessions[self.session_at(
                generation,
            )].binding.identity.owner.0@
        }
    }

    /// The tables with the outcome of an advance, made at the given time.
    pub open spec fn advanced(self, k: int, freeze: bool, step: Advance, now: Number) -> Tables {
        let frozen = if freeze {
            self.with_frozen(k, false)
        } else {
            self
        };
        let row = frozen.scopes[k];
        let new = match step {
            Advance::Sealed(seal) => ScopeRow { seal: Some(seal), ..row },
            Advance::Closed(summary) => ScopeRow { summary: Some(summary), ..row },
            _ => row,
        };
        let changed = freeze || step is Closed || (step is Sealed && row.seal is None);
        Tables {
            scopes: frozen.scopes.update(k, new),
            greatest: if changed {
                now.0
            } else {
                self.greatest
            },
            ..frozen
        }
    }

    /// What a pass over the scopes does: it goes on with the scan at hand, or takes the next scope.
    pub open spec fn scope_step(
        self,
        cursor: Cursor,
        identity: SessionIdentity,
        limit: nat,
        clock: ClockReading,
    ) -> Result<ScopeOutcome, Fault> {
        let idle = ScopeOutcome {
            tables: self,
            scope_before: cursor.scope_before,
            scan: None,
            inspected: 0,
            frozen: 0,
            sealed: 0,
            closed: 0,
        };
        if !self.safe(clock) {
            Err(Fault::Refused(ErrorCode::ClockUnsafe))
        } else if cursor.scan is Some {
            self.scan_step(idle, cursor.scan->0, false, limit, clock.utc_ms)
        } else {
            match self.pick(cursor.scope_before, identity) {
                Err(fault) => Err(fault),
                Ok((scope_before, freeze, picked)) => {
                    let here = ScopeOutcome { scope_before, ..idle };
                    match picked {
                        None => Ok(here),
                        Some(scan) => self.scan_step(here, scan, freeze, limit, clock.utc_ms),
                    }
                },
            }
        }
    }

    /// The next scope: where the scopes go on after it, whether it is to be frozen, and the scan over it
    /// where it has a membership that is final. A scope under a fence of an ancestor is frozen.
    pub open spec fn pick(self, before: Option<u64>, identity: SessionIdentity) -> Result<
        (Option<u64>, bool, Option<Scan>),
        Fault,
    > {
        let row = self.scopes[self.next_scope(before)->0];
        let fence = self.open_fault(row.generation, row.scope);
        let freeze = !row.cancelled && fence == Some(Fault::Refused(ErrorCode::Cancelled));
        if self.next_scope(before) is None {
            Ok((None, false, None))
        } else if row.summary is Some {
            Ok((Some(row.row), false, None))
        } else if !row.cancelled && fence is Some && !freeze {
            Err(fence->0)
        } else if row.seal is None && !row.cancelled && !freeze {
            Ok((Some(row.row), false, None))
        } else if row.seal is None && !commitments::placeable(
            identity,
            row.scope,
            row.producer,
            row.parent,
            row.declared,
        ) {
            Err(Fault::Refused(ErrorCode::FrameError))
        } else {
            Ok((Some(row.row), freeze, Some(first_scan(identity, row))))
        }
    }

    pub open spec fn scan_step(
        self,
        here: ScopeOutcome,
        scan: Scan,
        freeze: bool,
        limit: nat,
        now: Number,
    ) -> Result<ScopeOutcome, Fault> {
        let k = self.scope_at(scan.identity.generation, scan.scope);
        match self.advance(scan, limit, now) {
            Err(fault) => Err(fault),
            Ok((step, inspected)) => match step {
                Advance::Inactive => Ok(ScopeOutcome { scope_before: None, ..here }),
                Advance::Stop => Ok(here),
                _ => Ok(
                    ScopeOutcome {
                        tables: self.advanced(k, freeze, step, now),
                        scan: match step {
                            Advance::More(next) => Some(next),
                            Advance::Sealed(seal) => Some(
                                first_scan(
                                    scan.identity,
                                    ScopeRow { seal: Some(seal), ..self.scopes[k] },
                                ),
                            ),
                            _ => None,
                        },
                        inspected,
                        frozen: if freeze {
                            1
                        } else {
                            0
                        },
                        sealed: if step is Sealed && self.scopes[k].seal is None {
                            1
                        } else {
                            0
                        },
                        closed: if step is Closed {
                            1
                        } else {
                            0
                        },
                        ..here
                    },
                ),
            },
        }
    }

    /// What one call of reconciliation comes to. The work pass is committed or taken back as a whole;
    /// a failed scope pass discards only the volatile scan.
    pub open spec fn reconciled(
        self,
        cursor: Cursor,
        limit: nat,
        work_clock: ClockReading,
        scope_clock: ClockReading,
        r: Result<ReconcileProgress, StoreError>,
        after: Tables,
        next: Cursor,
    ) -> bool {
        let bound = Cursor { binding: Some(self.store_id), ..cursor };
        let now = work_clock.utc_ms;
        let rows = table::latest(self.work, self.visitable(cursor.work_before), limit);
        if limit == 0 || limit > 256 {
            after == self && next == cursor && failed_with(r, Fault::Refused(ErrorCode::LimitExceeded))
        } else if cursor.binding is Some && cursor.binding->0 != self.store_id {
            after == self && next == cursor && failed_with(r, Fault::Refused(ErrorCode::Conflict))
        } else if !self.safe(work_clock) {
            after == self && next == bound && failed_with(r, Fault::Refused(ErrorCode::ClockUnsafe))
        } else {
            ||| after == self && next == bound && r is Err && self.settle_pass_fails(
                rows,
                now,
                r->Err_0.fault(),
            )
            ||| exists|passed: Tables, settled: nat|
                {
                    &&& #[trigger] self.work_passed(rows, now, settled, passed)
                    &&& passed.scopes_reconciled(
                        Cursor {
                            work_before: if rows.len() < limit {
                                None
                            } else {
                                Some(self.work[rows.last()].row)
                            },
                            ..bound
                        },
                        limit,
                        scope_clock,
                        rows.len(),
                        settled,
                        r,
                        after,
                        next,
                    )
                }
        }
    }

    /// The tables once the work pass was committed.
    pub open spec fn work_passed(
        self,
        rows: Seq<int>,
        now: Number,
        settled: nat,
        after: Tables,
    ) -> bool {
        exists|mid: Tables|
            {
                &&& #[trigger] self.settle_pass(rows, now, mid, settled)
                &&& after == if settled > 0 {
                    Tables { greatest: now.0, ..mid }
                } else {
                    mid
                }
            }
    }

    pub open spec fn scopes_reconciled(
        self,
        cursor: Cursor,
        limit: nat,
        clock: ClockReading,
        inspected: nat,
        settled: nat,
        r: Result<ReconcileProgress, StoreError>,
        after: Tables,
        next: Cursor,
    ) -> bool {
        exists|identity: SessionIdentity|
            {
                &&& #[trigger] self.names_next(cursor.scope_before, identity)
                &&& match self.scope_step(cursor, identity, limit, clock) {
                    Err(fault) => {
                        &&& r matches Err(e) && e.fault() == fault
                        &&& after == self
                        &&& next == (Cursor { scope_before: None, scan: None, ..cursor })
                    },
                    Ok(o) => {
                        &&& r matches Ok(p) && p.inspected_work == inspected && p.settled_work
                            == settled && p.inspected_members == o.inspected && p.frozen_scopes
                            == o.frozen && p.sealed_scopes == o.sealed && p.closed_scopes == o.closed
                        &&& after == o.tables
                        &&& next == (Cursor { scope_before: o.scope_before, scan: o.scan, ..cursor })
                    },
                }
            }
    }
}

pub open spec fn failed_with(r: Result<ReconcileProgress, StoreError>, fault: Fault) -> bool {
    r is Err && r->Err_0.fault() == fault
}

/// Local scan progress only. Durable outcomes never depend on retaining this
/// cursor; restart may recompute an unfinished seal/status fold from stored rows.
pub struct ReconcileCursor {
    binding: Option<u64>,
    work_before: Option<u64>,
    scope_before: Option<u64>,
    scan: Option<ScopeScan>,
}

struct ScopeScan {
    identity: SessionIdentity,
    scope: Number,
    producer: Producer,
    parent: Option<WorkKey>,
    declared: Number,
    after: Number,
    count: u64,
    seal_hash: Option<ScopeSeal>,
    seal: Option<Digest>,
    status: StatusRoot,
    counts: Counts,
}

#[derive(Debug, Clone, Copy, PartialEq, Eq)]
pub struct ReconcileProgress {
    pub inspected_work: usize,
    pub settled_work: usize,
    pub inspected_members: usize,
    pub frozen_scopes: usize,
    pub sealed_scopes: usize,
    pub closed_scopes: usize,
}

impl ScopeScan {
    spec fn model(self) -> Scan {
        Scan {
            identity: self.identity,
            scope: self.scope,
            producer: self.producer,
            parent: self.parent,
            declared: self.declared,
            after: self.after,
            count: self.count,
            sealing: match self.seal_hash {
                Some(h) => Some(h@),
                None => None,
            },
            seal: self.seal,
            leaves: self.status.pushed(),
            counts: self.counts,
        }
    }

    spec fn well_formed(self) -> bool {
        self.status.well_formed() && (self.seal_hash matches Some(h) ==> h.well_formed())
    }

    fn new(
        identity: SessionIdentity,
        scope: Number,
        producer: Producer,
        parent: Option<WorkKey>,
        declared: Number,
        seal: Option<Digest>,
    ) -> (r: Result<Self, StoreError>)
        ensures
            ({
                let placed = commitments::placeable(identity, scope, producer, parent, declared);
                match r {
                    Ok(scan) => (seal is Some || placed) && scan.well_formed() && forall|row: ScopeRow|
                        row.scope == scope && row.producer == producer && row.parent == parent
                            && row.declared == declared && row.seal == seal ==> scan.model()
                            == #[trigger] first_scan(identity, row),
                    Err(e) => seal is None && !placed && e.fault() == Fault::Refused(
                        ErrorCode::FrameError,
                    ),
                }
            }),
    {
        let seal_hash = if seal.is_none() {
            match ScopeSeal::new(&identity, scope, producer, &parent, declared) {
                Ok(hash) => Some(hash),
                Err(e) => {
                    return Err(StoreError::Protocol(e));
                },
            }
        } else {
            None
        };
        Ok(
            ScopeScan {
                identity,
                scope,
                producer,
                parent,
                declared,
                after: Number(0),
                count: 0,
                seal_hash,
                seal,
                status: StatusRoot::new(),
                counts: Counts {
                    success: Number(0),
                    failure: Number(0),
                    cancelled: Number(0),
                    skipped: Number(0),
                },
            },
        )
    }
}

impl View for ReconcileCursor {
    type V = Cursor;

    closed spec fn view(&self) -> Cursor {
        Cursor {
            binding: self.binding,
            work_before: self.work_before,
            scope_before: self.scope_before,
            scan: match self.scan {
                Some(scan) => Some(scan.model()),
                None => None,
            },
        }
    }
}

impl ReconcileCursor {
    pub closed spec fn well_formed(self) -> bool {
        self.scan matches Some(scan) ==> scan.well_formed()
    }
}

impl Default for ReconcileCursor {
    fn default() -> (r: Self)
        ensures
            r.well_formed(),
            r@ == (Cursor { binding: None, work_before: None, scope_before: None, scan: None }),
    {
        ReconcileCursor { binding: None, work_before: None, scope_before: None, scan: None }
    }
}

/// What the next batch of a scope comes to.
enum Step {
    Inactive,
    Stop,
    Waiting,
    More(ScopeScan),
    Sealed(SessionIdentity, Digest),
    Closed(ScopeSummary),
}

impl Step {
    spec fn model(self) -> Advance {
        match self {
            Step::Inactive => Advance::Inactive,
            Step::Stop => Advance::Stop,
            Step::Waiting => Advance::Waiting,
            Step::More(scan) => Advance::More(scan.model()),
            Step::Sealed(_, seal) => Advance::Sealed(seal),
            Step::Closed(summary) => Advance::Closed(summary),
        }
    }

    spec fn well_formed(self, identity: SessionIdentity) -> bool {
        match self {
            Step::More(scan) => scan.well_formed(),
            Step::Sealed(name, _) => name == identity,
            _ => true,
        }
    }
}

/// Every valid status leaf fits in a header.
pub proof fn lemma_leaf_fits(leaf: StatusLeaf)
    requires
        leaf.valid(),
    ensures
        leaf.wire().len() <= MAX_HEADER,
{
    cbor::lemma_head(4, 5);
    cbor::lemma_head(4, 3);
    cbor::lemma_head(0, leaf.work.scope.0 as nat);
    cbor::lemma_head(0, leaf.work.producer.0 as nat);
    cbor::lemma_head(0, leaf.work.entity.0 as nat);
    cbor::lemma_head(0, leaf.state.0 as nat);
    cbor::lemma_head(0, leaf.attempt.0 as nat);
    cbor::lemma_head(2, 32);
}

/// A fold that failed or is held up stays so, whatever follows.
proof fn lemma_fold_stops(t: Tables, scan: Scan, rows: Seq<WorkRow>, n: int)
    requires
        0 <= n <= rows.len(),
        t.fold(scan, rows.take(n)) is Err || t.fold(scan, rows.take(n))->Ok_0.waiting,
    ensures
        t.fold(scan, rows) == t.fold(scan, rows.take(n)),
    decreases rows.len() - n,
{
    if n < rows.len() {
        assert(rows.take(n + 1).drop_last() =~= rows.take(n));
        lemma_fold_stops(t, scan, rows, n + 1);
    } else {
        assert(rows.take(n) =~= rows);
    }
}

/// The fold changes only how far the scan has come.
proof fn lemma_fold_keeps(t: Tables, scan: Scan, rows: Seq<WorkRow>)
    ensures
        t.fold(scan, rows) matches Ok(f) ==> {
            &&& f.scan.identity == scan.identity
            &&& f.scan.scope == scan.scope
            &&& f.scan.producer == scan.producer
            &&& f.scan.parent == scan.parent
            &&& f.scan.declared == scan.declared
            &&& f.scan.seal == scan.seal
            &&& (f.scan.sealing is None) == (scan.sealing is None)
        },
    decreases rows.len(),
{
    if rows.len() > 0 {
        lemma_fold_keeps(t, scan, rows.drop_last());
        reveal(Tables::visit);
    }
}

/// Work that is looked at leaves everything else as it is.
pub proof fn lemma_pass_keeps_scopes(t: Tables, rows: Seq<int>, now: Number, after: Tables, settled: nat)
    requires
        t.settle_pass(rows, now, after, settled),
    ensures
        after == (Tables { work: after.work, ..t }),
    decreases rows.len(),
{
    if rows.len() > 0 {
        let (mid, count) = choose|mid: Tables, count: nat|
            {
                &&& t.settle_pass(rows.drop_last(), now, mid, count)
                &&& #[trigger] mid.stepped(rows.last(), now, after, count, settled)
            };
        lemma_pass_keeps_scopes(t, rows.drop_last(), now, mid, count);
    }
}

/// The scan that goes on follows the tables that the advance leads to.
proof fn lemma_scan_follows(
    t: Tables,
    k: int,
    freeze: bool,
    step: Advance,
    now: Number,
    scan: Scan,
    next: Cursor,
)
    requires
        k == t.scope_at(scan.identity.generation, scan.scope),
        k < t.scopes.len(),
        scan.identity.generation.0 <= t.last_generation,
        scan.sealing is None ==> scan.seal is Some && t.scopes[k].seal == scan.seal,
        match step {
            Advance::More(more) => next.scan == Some(more) && more.identity == scan.identity
                && more.scope == scan.scope && more.seal == scan.seal && (more.sealing is None) == (
            scan.sealing is None),
            Advance::Sealed(seal) => next.scan == Some(
                first_scan(scan.identity, ScopeRow { seal: Some(seal), ..t.scopes[k] }),
            ),
            _ => next.scan is None,
        },
    ensures
        next.follows(t.advanced(k, freeze, step, now)),
{
    let after = t.advanced(k, freeze, step, now);
    let p = super::store::is_scope(scan.identity.generation, scan.scope);
    table::lemma_index_where(t.scopes, p);
    assert forall|i: int| 0 <= i < t.scopes.len() implies p(#[trigger] t.scopes[i]) == p(
        after.scopes[i],
    ) by {}
    table::lemma_index_alike(t.scopes, p, after.scopes);
}

/// One more row was looked at.
proof fn lemma_pass_extends(
    t: Tables,
    rows: Seq<int>,
    j: int,
    now: Number,
    mid: Tables,
    count: nat,
    after: Tables,
    settled: bool,
)
    requires
        t.settle_pass(rows, now, mid, count),
        mid.settle_step(j, now, after, settled),
    ensures
        t.settle_pass(
            rows.push(j),
            now,
            after,
            if settled {
                count + 1
            } else {
                count
            },
        ),
{
    assert(rows.push(j).drop_last() =~= rows);
    assert(rows.push(j).last() == j);
    assert(mid.stepped(
        j,
        now,
        after,
        count,
        if settled {
            count + 1
        } else {
            count
        },
    ));
}

/// A row after those that were looked at cannot be looked at or not be ended.
proof fn lemma_pass_fails(
    t: Tables,
    rows: Seq<int>,
    n: int,
    now: Number,
    mid: Tables,
    count: nat,
    fault: Fault,
)
    requires
        0 <= n < rows.len(),
        t.settle_pass(rows.take(n), now, mid, count),
        mid.settle_fails(rows[n], now, fault),
    ensures
        t.settle_pass_fails(rows, now, fault),
{
}

/// Batches compose: members folded in two batches come to what one batch over all of them does,
/// unless the first failed or was held up.
pub proof fn law_batches_compose(t: Tables, scan: Scan, a: Seq<WorkRow>, b: Seq<WorkRow>)
    requires
        t.fold(scan, a) matches Ok(f) && !f.waiting,
    ensures
        t.fold(scan, a + b) == match t.fold(t.fold(scan, a)->Ok_0.scan, b) {
            Err(fault) => Err::<Folded, Fault>(fault),
            Ok(f) => Ok(
                Folded { inspected: t.fold(scan, a)->Ok_0.inspected + f.inspected, ..f },
            ),
        },
    decreases b.len(),
{
    if b.len() == 0 {
        assert(a + b =~= a);
    } else {
        law_batches_compose(t, scan, a, b.drop_last());
        assert((a + b).drop_last() =~= a + b.drop_last());
        assert((a + b).last() == b.last());
    }
}

/// A scope that closes has counted every member once: the counts add up to the declared number.
pub proof fn law_closure_counts_members(t: Tables, scan: Scan, limit: nat, now: Number)
    requires
        t.advance(scan, limit, now) matches Ok(r) && r.0 is Closed,
    ensures
        ({
            let summary = t.advance(scan, limit, now)->Ok_0.0->Closed_0;
            &&& summary.counts.sum() == summary.declared.0
            &&& summary.closed_at == now
            &&& summary.valid()
        }),
{
    reveal(Tables::advance);
}

/// The counts with one more member that has ended in the given state.
fn add_count(counts: Counts, state: State) -> (r: Result<Counts, StoreError>)
    ensures
        match r {
            Ok(c) => count_of(counts, state) < MAX_NUMBER && c == counted(counts, state),
            Err(e) => count_of(counts, state) >= MAX_NUMBER && e.fault() == Fault::Refused(
                ErrorCode::LimitExceeded,
            ),
        },
{
    let mut c = counts;
    if state.0 == State::SUCCEEDED {
        c.success = Number(increment(c.success.0)?);
    } else if state.0 == State::FAILED {
        c.failure = Number(increment(c.failure.0)?);
    } else if state.0 == State::CANCELLED {
        c.cancelled = Number(increment(c.cancelled.0)?);
    } else {
        c.skipped = Number(increment(c.skipped.0)?);
    }
    Ok(c)
}

impl AuthorityStore {
    /// Whether the session is there and not retired.
    pub fn is_live(&self, generation: Id) -> (r: bool)
        ensures
            r == self@.live(generation),
    {
        self.find_session(generation).is_some() && self.find_retirement(generation).is_none()
    }

    /// Looks at one unit of work, and ends it where its end is due.
    fn settle(&mut self, j: usize, now: Number) -> (r: Result<Option<Ended>, StoreError>)
        requires
            j < old(self)@.work.len(),
            old(self)@.live(old(self)@.work[j as int].generation),
        ensures
            match r {
                Err(e) => *final(self) == *old(self) && old(self)@.settle_fails(
                    j as int,
                    now,
                    e.fault(),
                ),
                Ok(None) => *final(self) == *old(self) && old(self)@.settle_step(
                    j as int,
                    now,
                    old(self)@,
                    false,
                ),
                Ok(Some(ended)) => old(self)@.settle_step(j as int, now, final(self)@, true)
                    && ended.well_formed() && ended.place() == j && ended@ == old(
                    self,
                )@.work[j as int] && ended.fits(final(self)@.work[j as int]),
            },
    {
        let ghost t = self@;
        let ghost row = t.work[j as int];
        let generation = self.work[j].generation;
        if self.work[j].view.state.is_terminal() {
            return Ok(None);
        }
        let fenced = self.fenced(generation, self.work[j].view.work.scope)?;
        let mut diagnostic: Option<Diagnostic> = None;
        let state = if self.work[j].fence.is_some() || fenced {
            if !self.is_child_closed(generation, &self.work[j].view)? {
                return Ok(None);
            }
            match self.work[j].fence {
                Some(fence) => fence.outcome,
                None => State(State::CANCELLED),
            }
        } else if match self.work[j].view.deadline {
            Some(deadline) => now.0 >= deadline.0,
            None => false,
        } {
            diagnostic = Some(
                Diagnostic {
                    code: DiagnosticCode(ErrorCode::DeadlineExceeded.code()),
                    detail: Detail("execution deadline reached".to_string()),
                },
            );
            State(State::FAILED)
        } else {
            match self.work[j].view.child {
                None => {
                    return Ok(None);
                },
                Some(child) => {
                    let k = self.load_scope(generation, Number(child.scope.0))?;
                    let failed = match &self.scopes[k].summary {
                        Some(summary) => summary.counts.success != summary.declared,
                        None => false,
                    };
                    if !failed {
                        return Ok(None);
                    }
                    diagnostic = Some(
                        Diagnostic {
                            code: DiagnosticCode(0),
                            detail: Detail(
                                "STRICT child scope contains nonsuccessful work".to_string(),
                            ),
                        },
                    );
                    State(State::FAILED)
                },
            }
        };
        let ghost verdict = t.due(row, now)->Ok_0->0;
        assert(t.due(row, now) == Ok::<Option<Verdict>, Fault>(Some(verdict)));
        assert(verdict.state == state && verdict.explains(diagnostic));
        let i = match self.find_session(generation) {
            Some(i) => i,
            None => {
                return Err(StoreError::Corrupt("work session missing"));
            },
        };
        let retention = self.sessions[i].binding.policy.receipt_retention_ms;
        let until = self.check_end(j, state, &diagnostic, now, retention)?;
        let ended = self.end_work(j, state, diagnostic, now, until);
        proof {
            assert(self@.work[j as int] == settlement::ended_row(
                row,
                state,
                diagnostic,
                now,
                until,
            ));
        }
        Ok(Some(ended))
    }

    /// Takes the ends of the work pass back.
    fn take_back(&mut self, log: Vec<Ended>, Ghost(t): Ghost<Tables>)
        requires
            old(self)@ == (Tables { work: old(self)@.work, ..t }),
            undoes(log@, old(self)@.work, t.work),
        ensures
            final(self)@ == t,
    {
        let mut log = log;
        while log.len() > 0
            invariant
                self@ == (Tables { work: self@.work, ..t }),
                undoes(log@, self@.work, t.work),
            decreases log@.len(),
        {
            let ghost before = log@;
            let ghost work = self@.work;
            match log.pop() {
                Some(ended) => {
                    assert(ended == before.last());
                    self.restore_work(ended);
                    proof {
                        assert(log@ =~= before.drop_last());
                        assert forall|j: int| 0 <= j < t.work.len() implies self@.work[j]
                            == t.work[j] || logged(log@, j) by {
                            if j != ended.place() && logged(before, j) {
                                let i = choose|i: int|
                                    0 <= i < before.len() && (#[trigger] before[i]).place() == j;
                                assert(log@[i] == before[i]);
                            }
                        }
                        assert forall|i: int| 0 <= i < log@.len() implies undo_ready(
                            #[trigger] log@[i],
                            self@.work,
                            t.work,
                        ) by {
                            assert(log@[i] == before[i]);
                            assert(undo_ready(before[i], work, t.work));
                            assert(before[i].place() != before[before.len() - 1].place());
                        }
                    }
                },
                None => {},
            }
        }
        assert(self@.work =~= t.work) by {
            assert forall|j: int| 0 <= j < t.work.len() implies self@.work[j] == t.work[j] by {
                assert(!logged(log@, j));
            }
        }
    }

    /// The work pass: at most `limit` units of work are looked at, the latest first.
    fn reconcile_work(&mut self, before: Option<u64>, limit: usize, clock: ClockReading) -> (r:
        Result<(usize, usize, Option<u64>), StoreError>)
        requires
            old(self)@.well_formed(),
            0 < limit <= 256,
            old(self)@.safe(clock),
        ensures
            final(self)@.well_formed(),
            ({
                let t = old(self)@;
                let now = clock.utc_ms;
                let rows = table::latest(t.work, t.visitable(before), limit as nat);
                match r {
                    Err(e) => final(self)@ == t && t.settle_pass_fails(rows, now, e.fault()),
                    Ok((inspected, settled, next)) => {
                        &&& inspected == rows.len()
                        &&& next == (if rows.len() < limit {
                            None
                        } else {
                            Some(t.work[rows.last()].row)
                        })
                        &&& t.work_passed(rows, now, settled as nat, final(self)@)
                    },
                }
            }),
    {
        let now = clock.utc_ms;
        let ghost t = self@;
        let ghost p = t.visitable(before);
        let ghost rows = table::latest(t.work, p, limit as nat);
        let ghost mut done: Seq<int> = Seq::empty();
        let mut log: Vec<Ended> = Vec::new();
        let mut inspected: usize = 0;
        let mut settled: usize = 0;
        let mut last: Option<u64> = before;
        let mut i: usize = self.work.len();
        assert(t.work.take(i as int) =~= t.work);
        assert(done + rows =~= rows);
        while i > 0 && inspected < limit
            invariant
                i <= t.work.len(),
                t == old(self)@,
                now == clock.utc_ms,
                t.well_formed(),
                self@ == (Tables { work: self@.work, ..t }),
                undoes(log@, self@.work, t.work),
                forall|n: int| 0 <= n < log@.len() ==> (#[trigger] log@[n]).place() >= i,
                p == t.visitable(before),
                inspected <= limit <= 256,
                settled <= inspected,
                inspected == done.len(),
                rows == table::latest(t.work, p, limit as nat),
                rows == done + table::latest(t.work.take(i as int), p, (limit - inspected) as nat),
                t.settle_pass(done, now, self@, settled as nat),
                inspected > 0 ==> last == Some(t.work[done.last()].row) && 0 <= done.last()
                    < t.work.len(),
                keeps_rows(self@.work, t.work),
                forall|n: int|
                    0 <= n < t.work.len() ==> #[trigger] self@.work[n] == t.work[n] || t.profiled(
                        self@.work[n],
                    ),
            decreases i,
        {
            i -= 1;
            let ghost mid = self@;
            let ghost left = table::latest(t.work.take(i + 1), p, (limit - inspected) as nat);
            proof {
                assert(t.work.take(i + 1).drop_last() =~= t.work.take(i as int));
                assert(t.work.take(i + 1).last() == t.work[i as int]);
                assert(self@.work[i as int] == t.work[i as int]) by {
                    assert(!logged(log@, i as int));
                }
            }
            let generation = self.work[i].generation;
            let in_range = match before {
                Some(b) => self.work[i].row < b,
                None => true,
            };
            if in_range && self.is_live(generation) {
                proof {
                    assert(p(t.work[i as int]));
                    assert(left =~= seq![i as int] + table::latest(
                        t.work.take(i as int),
                        p,
                        (limit - inspected - 1) as nat,
                    ));
                    assert(done.push(i as int).drop_last() =~= done);
                    assert(rows =~= done.push(i as int) + table::latest(
                        t.work.take(i as int),
                        p,
                        (limit - inspected - 1) as nat,
                    ));
                }
                last = Some(self.work[i].row);
                inspected += 1;
                match self.settle(i, now) {
                    Err(e) => {
                        proof {
                            assert(rows.take(done.len() as int) =~= done);
                            lemma_pass_fails(
                                t,
                                rows,
                                done.len() as int,
                                now,
                                mid,
                                settled as nat,
                                e.fault(),
                            );
                        }
                        self.take_back(log, Ghost(t));
                        return Err(e);
                    },
                    Ok(None) => {
                        proof {
                            lemma_pass_extends(
                                t,
                                done,
                                i as int,
                                now,
                                mid,
                                settled as nat,
                                mid,
                                false,
                            );
                            done = done.push(i as int);
                        }
                    },
                    Ok(Some(ended)) => {
                        let ghost old_log = log@;
                        let ghost before_work = mid.work;
                        log.push(ended);
                        settled += 1;
                        proof {
                            lemma_end_keeps_profile(t, mid, i as int, now, self@);
                            assert(self@.work =~= before_work.update(
                                i as int,
                                self@.work[i as int],
                            ));
                            assert(log@ =~= old_log.push(ended));
                            lemma_log_grows(old_log, ended, before_work, self@.work, t.work, i as int);
                            lemma_pass_extends(
                                t,
                                done,
                                i as int,
                                now,
                                mid,
                                (settled - 1) as nat,
                                self@,
                                true,
                            );
                            done = done.push(i as int);
                        }
                    },
                }
            } else {
                assert(!p(t.work[i as int]));
            }
        }
        proof {
            assert(table::latest(t.work.take(i as int), p, (limit - inspected) as nat) =~= Seq::<
                int,
            >::empty());
            assert(rows =~= done);
            table::lemma_latest_len(t.work, p, limit as nat);
        }
        let ghost mid = self@;
        if settled != 0 {
            self.greatest = now.0;
        }
        let next = if inspected < limit {
            None
        } else {
            last
        };
        proof {
            settlement::lemma_fence_keeps_order(t, self@);
            assert(inspected == rows.len());
            assert(next == (if rows.len() < limit {
                None
            } else {
                Some(t.work[rows.last()].row)
            }));
            assert(t.settle_pass(rows, now, mid, settled as nat));
            assert(t.work_passed(rows, now, settled as nat, self@));
        }
        Ok((inspected, settled, next))
    }

    /// Whether a scope has a member behind the given entity.
    fn has_member_after(&self, generation: Id, scope: Number, after: Number) -> (r: bool)
        ensures
            r == (self@.page_rows(generation, scope, after).len() > 0),
    {
        let ghost p = scopes::in_page(generation, scope, after);
        let mut i: usize = 0;
        while i < self.work.len()
            invariant
                i <= self.work@.len(),
                p == scopes::in_page(generation, scope, after),
                table::rows_where(self.work@.take(i as int), p).len() == 0,
            decreases self.work@.len() - i,
        {
            proof {
                let row = self.work@[i as int];
                assert(self.work@.take(i + 1) =~= self.work@.take(i as int).push(row));
                table::lemma_rows_where_push(self.work@.take(i as int), p, row);
            }
            if self.work[i].generation == generation && self.work[i].view.work.scope == scope
                && self.work[i].view.work.entity.0 > after.0 {
                proof {
                    table::lemma_rows_where_prefix(self.work@, p, i + 1);
                }
                return true;
            }
            i += 1;
        }
        assert(self.work@.take(i as int) =~= self.work@);
        false
    }

    /// The status leaf of a member, where it has ended and its child scope has closed.
    fn leaf_of_member(&self, generation: Id, j: usize) -> (r: Result<Option<Digest>, StoreError>)
        requires
            j < self@.work.len(),
        ensures
            ({
                let expected = self@.member_leaf(generation, self@.work[j as int].view);
                match r {
                    Err(e) => expected == Err::<Option<Seq<u8>>, Fault>(e.fault()),
                    Ok(None) => expected == Ok::<Option<Seq<u8>>, Fault>(None),
                    Ok(Some(leaf)) => expected == Ok::<Option<Seq<u8>>, Fault>(Some(leaf.0@)),
                }
            }),
    {
        let view = &self.work[j].view;
        if !view.state.is_terminal() {
            return Ok(None);
        }
        let child_status_root = match &view.child {
            Some(child) => {
                let k = self.load_scope(generation, Number(child.scope.0))?;
                match &self.scopes[k].summary {
                    Some(summary) => Some(summary.status_root),
                    None => {
                        return Ok(None);
                    },
                }
            },
            None => None,
        };
        let manifest_digest = match &view.manifest {
            Some(manifest) => match manifest.digest() {
                Ok(digest) => {
                    proof {
                        labels::lemma_digest_of(digest);
                    }
                    Some(digest)
                },
                Err(e) => {
                    return Err(StoreError::Protocol(e));
                },
            },
            None => None,
        };
        let leaf = StatusLeaf {
            work: view.work,
            state: view.state,
            attempt: view.attempt,
            manifest_digest,
            child_status_root,
        };
        assert(leaf == leaf_of(*view, child_status_root));
        match leaf.digest() {
            Ok(digest) => Ok(Some(digest)),
            Err(e) => {
                proof {
                    if leaf.valid() {
                        lemma_leaf_fits(leaf);
                    }
                }
                Err(StoreError::Protocol(e))
            },
        }
    }

    /// Looks at the next member of a scope. False where it holds the fold up.
    fn visit_member(&self, scan: &mut ScopeScan, j: usize) -> (r: Result<bool, StoreError>)
        requires
            old(scan).well_formed(),
            j < self@.work.len(),
        ensures
            final(scan).well_formed(),
            match r {
                Err(e) => self@.visit(old(scan).model(), self@.work[j as int]) == Err::<
                    Option<Scan>,
                    Fault,
                >(e.fault()),
                Ok(false) => final(scan).model() == old(scan).model() && self@.visit(
                    old(scan).model(),
                    self@.work[j as int],
                ) == Ok::<Option<Scan>, Fault>(None),
                Ok(true) => self@.visit(old(scan).model(), self@.work[j as int]) == Ok::<
                    Option<Scan>,
                    Fault,
                >(Some(final(scan).model())),
            },
    {
        reveal(Tables::visit);
        let entity = self.work[j].view.work.entity;
        let mut sealing: Option<ScopeSeal> = None;
        std::mem::swap(&mut sealing, &mut scan.seal_hash);
        match sealing {
            Some(mut hash) => {
                match hash.push(entity) {
                    Ok(_) => {},
                    Err(e) => {
                        return Err(StoreError::Protocol(e));
                    },
                }
                scan.seal_hash = Some(hash);
            },
            None => {
                let leaf = match self.leaf_of_member(scan.identity.generation, j)? {
                    Some(leaf) => leaf,
                    None => {
                        return Ok(false);
                    },
                };
                match scan.status.push(leaf) {
                    Ok(_) => {},
                    Err(e) => {
                        return Err(StoreError::Protocol(e));
                    },
                }
                scan.counts = add_count(scan.counts, self.work[j].view.state)?;
            },
        }
        scan.after = Number(entity.0);
        scan.count = increment(scan.count)?;
        proof {
            let before = old(scan).model();
            let view = self@.work[j as int].view;
            if before.sealing is None {
                let leaf = self@.member_leaf(before.identity.generation, view)->Ok_0->0;
                assert(scan.model().leaves == before.leaves.push(leaf));
                assert(scan.model().counts == counted(before.counts, view.state));
            }
        }
        Ok(true)
    }

    /// Folds the next batch of members in. The result says whether a member holds the fold up, and
    /// how many were looked at.
    fn fold_batch(&self, scan: &mut ScopeScan, limit: usize) -> (r: Result<
        (bool, usize),
        StoreError,
    >)
        requires
            old(scan).well_formed(),
            0 < limit <= 256,
        ensures
            final(scan).well_formed(),
            ({
                let start = old(scan).model();
                let folded = self@.fold(start, self@.batch(start, limit as nat));
                match r {
                    Err(e) => folded == Err::<Folded, Fault>(e.fault()),
                    Ok((waiting, inspected)) => folded == Ok::<Folded, Fault>(
                        Folded {
                            scan: final(scan).model(),
                            waiting,
                            inspected: inspected as nat,
                        },
                    ),
                }
            }),
    {
        let ghost start = scan.model();
        let ghost t = self@;
        let generation = scan.identity.generation;
        let after = scan.after;
        let scope = scan.scope;
        let ghost p = scopes::in_page(generation, scope, after);
        let ghost all = t.page_rows(generation, scope, after);
        let ghost batch = t.batch(start, limit as nat);
        let mut inspected: usize = 0;
        let mut i: usize = 0;
        assert(table::rows_where(t.work.take(0), p) =~= Seq::empty());
        while i < self.work.len() && inspected < limit
            invariant
                i <= self.work@.len(),
                t == self@,
                scan.well_formed(),
                limit <= 256,
                p == scopes::in_page(generation, scope, after),
                generation == start.identity.generation,
                scope == start.scope,
                after == start.after,
                start == old(scan).model(),
                all == t.page_rows(generation, scope, after),
                batch == t.batch(start, limit as nat),
                ({
                    let seen = table::rows_where(t.work.take(i as int), p);
                    &&& inspected == seen.len()
                    &&& inspected <= limit
                    &&& t.fold(start, seen) == Ok::<Folded, Fault>(
                        Folded {
                            scan: scan.model(),
                            waiting: false,
                            inspected: inspected as nat,
                        },
                    )
                }),
            decreases self.work@.len() - i,
        {
            let ghost seen = table::rows_where(t.work.take(i as int), p);
            let ghost row = t.work[i as int];
            proof {
                assert(t.work.take(i + 1) =~= t.work.take(i as int).push(row));
                table::lemma_rows_where_push(t.work.take(i as int), p, row);
                table::lemma_rows_where_prefix(t.work, p, i + 1);
            }
            if self.work[i].generation == generation && self.work[i].view.work.scope == scope
                && self.work[i].view.work.entity.0 > after.0 {
                let ghost now_seen = seen.push(row);
                let ghost n = now_seen.len() as int;
                proof {
                    assert(now_seen.drop_last() =~= seen);
                    assert(now_seen.last() == row);
                    assert(n <= batch.len());
                    assert(batch.take(n) =~= all.take(n));
                    assert(batch.take(n) == now_seen);
                }
                inspected += 1;
                match self.visit_member(scan, i) {
                    Err(e) => {
                        proof {
                            assert(t.fold(start, now_seen) is Err);
                            lemma_fold_stops(t, start, batch, n);
                        }
                        return Err(e);
                    },
                    Ok(waits) => {
                        if !waits {
                            proof {
                                assert(t.fold(start, now_seen)->Ok_0.waiting);
                                lemma_fold_stops(t, start, batch, n);
                            }
                            return Ok((true, inspected));
                        }
                    },
                }
            }
            i += 1;
        }
        proof {
            let seen = table::rows_where(t.work.take(i as int), p);
            table::lemma_rows_where_prefix(t.work, p, i as int);
            if i == t.work.len() {
                assert(t.work.take(i as int) =~= t.work);
            }
            assert(batch =~= seen);
        }
        Ok((false, inspected))
    }

    /// Looks at the next batch of members of a scope.
    fn advance_scan(&self, scan: ScopeScan, limit: usize, now: Number) -> (r: Result<
        (Step, usize),
        StoreError,
    >)
        requires
            scan.well_formed(),
            0 < limit <= 256,
        ensures
            match r {
                Err(e) => self@.advance(scan.model(), limit as nat, now) == Err::<
                    (Advance, nat),
                    Fault,
                >(e.fault()),
                Ok((step, inspected)) => self@.advance(scan.model(), limit as nat, now) == Ok::<
                    (Advance, nat),
                    Fault,
                >((step.model(), inspected as nat)) && step.well_formed(scan.identity) && (
                step matches Step::Closed(s) ==> s.valid() && s.scope == scan.scope && scan.model().sealing is None
                    && scan.model().seal == Some(s.seal)) && (step matches Step::More(next)
                    ==> next.model().identity == scan.model().identity && next.model().scope
                    == scan.scope && next.model().seal == scan.model().seal && (
                next.model().sealing is None) == (scan.model().sealing is None)),
            },
    {
        reveal(Tables::advance);
        let ghost start = scan.model();
        let mut scan = scan;
        let generation = scan.identity.generation;
        let scope = scan.scope;
        if !self.is_live(generation) {
            return Ok((Step::Inactive, 0));
        }
        let k = self.load_scope(generation, scope)?;
        if self.scopes[k].summary.is_some() {
            return Ok((Step::Stop, 0));
        }
        if self.scopes[k].declared != scan.declared || self.scopes[k].producer != scan.producer
            || self.scopes[k].parent != scan.parent {
            return Err(StoreError::Corrupt("frozen closure membership changed"));
        }
        let (waiting, inspected) = self.fold_batch(&mut scan, limit)?;
        proof {
            lemma_fold_keeps(self@, start, self@.batch(start, limit as nat));
        }
        if waiting {
            return Ok((Step::Waiting, inspected));
        }
        if self.has_member_after(generation, scope, scan.after) {
            return Ok((Step::More(scan), inspected));
        }
        if scan.count != scan.declared.0 {
            return Err(StoreError::Corrupt("scope count differs from stored membership"));
        }
        match &scan.seal_hash {
            Some(hash) => {
                let seal = match hash.finish() {
                    Ok(seal) => seal,
                    Err(e) => {
                        return Err(StoreError::Protocol(e));
                    },
                };
                proof {
                    labels::lemma_digest_of(seal);
                }
                match &self.scopes[k].seal {
                    Some(old_seal) => {
                        if !old_seal.same(&seal) {
                            return Err(StoreError::Corrupt("scope seal changed"));
                        }
                        proof {
                            labels::lemma_digest_of(*old_seal);
                        }
                    },
                    None => {},
                }
                Ok((Step::Sealed(scan.identity, seal), inspected))
            },
            None => {
                let i = match self.find_session(generation) {
                    Some(i) => i,
                    None => {
                        return Err(StoreError::Corrupt("scope session absent"));
                    },
                };
                if scope.0 == 0 {
                    add_duration(now, self.sessions[i].binding.policy.receipt_retention_ms)?;
                }
                let seal = match scan.seal {
                    Some(seal) => seal,
                    None => {
                        return Err(StoreError::Corrupt("closure seal absent"));
                    },
                };
                let ghost done = scan.model();
                let root = scan.status.finish();
                proof {
                    labels::lemma_digest_of(root);
                }
                let summary = ScopeSummary {
                    scope,
                    producer: scan.producer,
                    parent: scan.parent,
                    seal,
                    declared: scan.declared,
                    counts: scan.counts,
                    status_root: root,
                    closed_at: now,
                };
                assert(summary == closing_summary(done, now));
                match summary.check() {
                    Ok(_) => {},
                    Err(e) => {
                        return Err(StoreError::Protocol(e));
                    },
                }
                Ok((Step::Closed(summary), inspected))
            },
        }
    }

    /// The scope that comes next, the latest first.
    fn find_next_scope(&self, before: Option<u64>) -> (r: Option<usize>)
        ensures
            match r {
                Some(k) => self@.next_scope(before) == Some(k as int) && k < self@.scopes.len()
                    && self@.live(self@.scopes[k as int].generation),
                None => self@.next_scope(before) is None,
            },
    {
        let ghost p = self@.scannable(before);
        let mut i: usize = self.scopes.len();
        assert(self.scopes@.take(i as int) =~= self.scopes@);
        while i > 0
            invariant
                i <= self.scopes@.len(),
                p == self@.scannable(before),
                table::latest(self.scopes@, p, 1) == table::latest(
                    self.scopes@.take(i as int),
                    p,
                    1,
                ),
            decreases i,
        {
            i -= 1;
            proof {
                assert(self.scopes@.take(i + 1).drop_last() =~= self.scopes@.take(i as int));
                assert(self.scopes@.take(i + 1).last() == self.scopes@[i as int]);
            }
            let in_range = match before {
                Some(b) => self.scopes[i].row < b,
                None => true,
            };
            if in_range && self.is_live(self.scopes[i].generation) {
                assert(p(self.scopes@[i as int]));
                assert(table::latest(self.scopes@.take(i + 1), p, 1)[0] == i);
                return Some(i);
            }
            assert(!p(self.scopes@[i as int]));
        }
        assert(table::latest(self.scopes@.take(0), p, 1).len() == 0);
        None
    }

    /// The next scope, and the scan over it where its membership is final. The ghost name is the one
    /// that the scan holds.
    fn pick_scope(&self, before: Option<u64>) -> (r: Result<
        (Option<u64>, bool, Option<ScopeScan>, Ghost<SessionIdentity>),
        StoreError,
    >)
        ensures
            match r {
                Err(e) => exists|name: SessionIdentity| #[trigger]
                    self@.names_next(before, name) && self@.pick(before, name) == Err::<
                        (Option<u64>, bool, Option<Scan>),
                        Fault,
                    >(e.fault()),
                Ok((next, freeze, picked, name)) => {
                    &&& self@.names_next(before, name@)
                    &&& picked matches Some(scan) ==> scan.well_formed()
                    &&& self@.pick(before, name@) == Ok::<(Option<u64>, bool, Option<Scan>), Fault>(
                        (
                            next,
                            freeze,
                            match picked {
                                Some(scan) => Some(scan.model()),
                                None => None,
                            },
                        ),
                    )
                },
            },
    {
        let ghost t = self@;
        let ghost mut name: SessionIdentity = t.sessions[0].binding.identity;
        proof {
            let generation = t.scopes[t.next_scope(before)->0].generation;
            name = SessionIdentity {
                authority: t.authority,
                owner: t.sessions[t.session_at(generation)].binding.identity.owner,
                generation,
            };
            assert(t.names_next(before, name));
        }
        let k = match self.find_next_scope(before) {
            Some(k) => k,
            None => {
                return Ok((None, false, None, Ghost(name)));
            },
        };
        let row = self.scopes[k].row;
        let generation = self.scopes[k].generation;
        let scope = self.scopes[k].scope;
        if self.scopes[k].summary.is_some() {
            return Ok((Some(row), false, None, Ghost(name)));
        }
        let mut freeze = false;
        if !self.scopes[k].cancelled {
            freeze = self.fenced(generation, scope)?;
        }
        if self.scopes[k].seal.is_none() && !self.scopes[k].cancelled && !freeze {
            return Ok((Some(row), false, None, Ghost(name)));
        }
        let i = match self.find_session(generation) {
            Some(i) => i,
            None => {
                return Err(StoreError::Corrupt("scope session absent"));
            },
        };
        let identity = SessionIdentity {
            authority: self.authority.duplicate(),
            owner: self.sessions[i].binding.identity.owner.duplicate(),
            generation,
        };
        proof {
            name = identity;
            assert(t.names_next(before, name));
        }
        let scan = ScopeScan::new(
            identity,
            scope,
            self.scopes[k].producer,
            self.scopes[k].parent,
            self.scopes[k].declared,
            self.scopes[k].seal,
        )?;
        assert(scan.model() == first_scan(name, t.scopes[k as int]));
        Ok((Some(row), freeze, Some(scan), Ghost(name)))
    }

    /// Writes the outcome of an advance down, and hands back the scan that goes on.
    fn apply_step(
        &mut self,
        k: usize,
        freeze: bool,
        step: Step,
        now: Number,
        Ghost(identity): Ghost<SessionIdentity>,
    ) -> (r: Option<ScopeScan>)
        requires
            old(self)@.well_formed(),
            k < old(self)@.scopes.len(),
            step.well_formed(identity),
            step matches Step::Closed(s) ==> s.valid() && s.scope == old(
                self,
            )@.scopes[k as int].scope,
            now.0 >= old(self)@.greatest,
        ensures
            final(self)@.arranged(),
            ({
                let row = old(self)@.scopes[k as int];
                (step.model() matches Advance::Closed(s) ==> row.seal == Some(s.seal)) && (
                step.model() matches Advance::Sealed(seal) ==> row.summary is None)
                    ==> final(self)@.well_formed()
            }),
            final(self)@ == old(self)@.advanced(k as int, freeze, step.model(), now),
            r matches Some(scan) ==> scan.well_formed(),
            ({
                let model = match r {
                    Some(scan) => Some(scan.model()),
                    None => None,
                };
                model == match step.model() {
                    Advance::More(next) => Some(next),
                    Advance::Sealed(seal) => Some(
                        first_scan(
                            identity,
                            ScopeRow { seal: Some(seal), ..old(self)@.scopes[k as int] },
                        ),
                    ),
                    _ => None,
                }
            }),
    {
        let ghost t = self@;
        let ghost done = step.model();
        let ghost row = t.scopes[k as int];
        let mut next: Option<ScopeScan> = None;
        let mut changed = freeze;
        if freeze {
            self.scope_fence(k, false);
        }
        match step {
            Step::More(scan) => {
                next = Some(scan);
            },
            Step::Sealed(name, seal) => {
                if self.scopes[k].seal.is_none() {
                    changed = true;
                }
                self.scopes[k].seal = Some(seal);
                let scan = ScopeScan::new(
                    name,
                    self.scopes[k].scope,
                    self.scopes[k].producer,
                    self.scopes[k].parent,
                    self.scopes[k].declared,
                    Some(seal),
                );
                match scan {
                    Ok(scan) => {
                        assert(scan.model() == first_scan(
                            identity,
                            ScopeRow { seal: Some(seal), ..row },
                        ));
                        next = Some(scan);
                    },
                    Err(_) => {},
                }
            },
            Step::Closed(summary) => {
                self.scopes[k].summary = Some(summary);
                changed = true;
            },
            _ => {},
        }
        if changed {
            self.greatest = now.0;
        }
        proof {
            assert(self.scopes@ =~= t.advanced(k as int, freeze, done, now).scopes);
            settlement::lemma_fence_keeps_order(t, self@);
        }
        next
    }

    /// The scope pass. On a failure nothing is changed.
    fn reconcile_scope(
        &mut self,
        cursor: &mut ReconcileCursor,
        limit: usize,
        progress: &mut ReconcileProgress,
        clock: ClockReading,
    ) -> (r: Result<(), StoreError>)
        requires
            old(self)@.well_formed(),
            old(cursor).well_formed(),
            0 < limit <= 256,
            old(progress).inspected_members == 0,
            old(progress).frozen_scopes == 0,
            old(progress).sealed_scopes == 0,
            old(progress).closed_scopes == 0,
        ensures
            final(self)@.arranged(),
            old(cursor)@.follows(old(self)@) ==> final(self)@.well_formed() && final(cursor)@.follows(
                final(self)@,
            ),
            final(cursor).well_formed(),
            final(cursor)@.binding == old(cursor)@.binding,
            final(cursor)@.work_before == old(cursor)@.work_before,
            exists|identity: SessionIdentity|
                {
                    let t = old(self)@;
                    let p = *final(progress);
                    &&& #[trigger] old(self)@.names_next(old(cursor)@.scope_before, identity)
                    &&& match t.scope_step(old(cursor)@, identity, limit as nat, clock) {
                        Err(fault) => r matches Err(e) && e.fault() == fault && final(self)@ == t,
                        Ok(o) => {
                            &&& r is Ok
                            &&& p == (ReconcileProgress {
                                inspected_members: p.inspected_members,
                                frozen_scopes: p.frozen_scopes,
                                sealed_scopes: p.sealed_scopes,
                                closed_scopes: p.closed_scopes,
                                ..*old(progress)
                            })
                            &&& p.inspected_members == o.inspected && p.frozen_scopes == o.frozen
                                && p.sealed_scopes == o.sealed && p.closed_scopes == o.closed
                            &&& final(self)@ == o.tables
                            &&& final(cursor)@.scope_before == o.scope_before
                            &&& final(cursor)@.scan == o.scan
                        },
                    }
                },
    {
        let ghost t = self@;
        let ghost c = cursor@;
        let ghost mut name: SessionIdentity = t.sessions[0].binding.identity;
        let mut taken: Option<ScopeScan> = None;
        std::mem::swap(&mut taken, &mut cursor.scan);
        proof {
            let k = t.next_scope(c.scope_before)->0;
            let generation = t.scopes[k].generation;
            name = SessionIdentity {
                authority: t.authority,
                owner: t.sessions[t.session_at(generation)].binding.identity.owner,
                generation,
            };
            assert(t.names_next(c.scope_before, name));
        }
        let now = self.check_clock(clock)?;
        let (scan, freeze) = match taken {
            Some(scan) => (scan, false),
            None => {
                let (scope_before, freeze, picked, Ghost(named)) = self.pick_scope(
                    cursor.scope_before,
                )?;
                proof {
                    name = named;
                    assert(t.names_next(c.scope_before, name));
                }
                cursor.scope_before = scope_before;
                match picked {
                    Some(scan) => (scan, freeze),
                    None => {
                        return Ok(());
                    },
                }
            },
        };
        let ghost start = scan.model();
        let generation = scan.identity.generation;
        let scope = scan.scope;
        let (step, inspected) = self.advance_scan(scan, limit, now)?;
        let k = match step {
            Step::Inactive => {
                cursor.scope_before = None;
                return Ok(());
            },
            Step::Stop => {
                return Ok(());
            },
            _ => match self.find_scope(generation, scope) {
                Some(k) => k,
                None => {
                    proof {
                        reveal(Tables::advance);
                    }
                    return Err(protocol(ErrorCode::NotFound, "scope not declared"));
                },
            },
        };
        progress.inspected_members = inspected;
        if freeze {
            progress.frozen_scopes = 1;
        }
        match &step {
            Step::Sealed(..) => {
                if self.scopes[k].seal.is_none() {
                    progress.sealed_scopes = 1;
                }
            },
            Step::Closed(_) => {
                progress.closed_scopes = 1;
            },
            _ => {},
        }
        let ghost done = step.model();
        proof {
            reveal(Tables::advance);
            if c.scan is None {
                let n = t.next_scope(c.scope_before)->0;
                table::lemma_latest_len(t.scopes, t.scannable(c.scope_before), 1);
                assert(start == first_scan(name, t.scopes[n]));
                assert(t.scopes[n].generation == t.scopes[k as int].generation
                    && t.scopes[n].scope == t.scopes[k as int].scope);
                assert(n == k);
            }
        }
        cursor.scan = self.apply_step(k, freeze, step, now, Ghost(start.identity));
        proof {
            if c.follows(t) {
                lemma_scan_follows(t, k as int, freeze, done, now, start, cursor@);
            }
        }
        Ok(())
    }

    /// Local reconciliation, independent of caller authorization (including after
    /// revocation). Each call visits at most `limit` work records and `limit`
    /// members of one scope. The clock is read once for the work and once for the scope.
    pub fn reconcile(
        &mut self,
        cursor: &mut ReconcileCursor,
        limit: usize,
        work_clock: ClockReading,
        scope_clock: ClockReading,
    ) -> (r: Result<ReconcileProgress, StoreError>)
        requires
            old(self)@.well_formed(),
            old(cursor).well_formed(),
        ensures
            final(self)@.arranged(),
            old(cursor)@.follows(old(self)@) ==> final(self)@.well_formed() && final(cursor)@.follows(
                final(self)@,
            ),
            final(cursor).well_formed(),
            old(self)@.reconciled(
                old(cursor)@,
                limit as nat,
                work_clock,
                scope_clock,
                r,
                final(self)@,
                final(cursor)@,
            ),
    {
        if limit == 0 || limit > 256 {
            return Err(protocol(ErrorCode::LimitExceeded, "invalid reconciliation batch"));
        }
        match cursor.binding {
            Some(binding) => {
                if binding != self.store_id {
                    return Err(
                        protocol(
                            ErrorCode::Conflict,
                            "reconciliation cursor belongs to another authority",
                        ),
                    );
                }
            },
            None => {},
        }
        cursor.binding = Some(self.store_id);
        self.check_clock(work_clock)?;
        let (inspected_work, settled_work, work_before) = self.reconcile_work(
            cursor.work_before,
            limit,
            work_clock,
        )?;
        cursor.work_before = work_before;
        let mut progress = ReconcileProgress {
            inspected_work,
            settled_work,
            inspected_members: 0,
            frozen_scopes: 0,
            sealed_scopes: 0,
            closed_scopes: 0,
        };
        let ghost committed = self@;
        let ghost here = cursor@;
        proof {
            let t = old(self)@;
            let rows = table::latest(t.work, t.visitable(old(cursor)@.work_before), limit as nat);
            let mid = choose|mid: Tables|
                {
                    &&& #[trigger] t.settle_pass(rows, work_clock.utc_ms, mid, settled_work as nat)
                    &&& committed == if settled_work > 0 {
                        Tables { greatest: work_clock.utc_ms.0, ..mid }
                    } else {
                        mid
                    }
                };
            lemma_pass_keeps_scopes(t, rows, work_clock.utc_ms, mid, settled_work as nat);
        }
        // A failed scope pass discards only volatile hashing progress. Its fence,
        // membership and terminal prefix remain durable and may be reread safely.
        match self.reconcile_scope(cursor, limit, &mut progress, scope_clock) {
            Err(e) => {
                cursor.scan = None;
                cursor.scope_before = None;
                assert(committed.scopes_reconciled(
                    here,
                    limit as nat,
                    scope_clock,
                    inspected_work as nat,
                    settled_work as nat,
                    Err(e),
                    self@,
                    cursor@,
                ));
                Err(e)
            },
            Ok(_) => {
                assert(committed.scopes_reconciled(
                    here,
                    limit as nat,
                    scope_clock,
                    inspected_work as nat,
                    settled_work as nat,
                    Ok(progress),
                    self@,
                    cursor@,
                ));
                Ok(progress)
            },
        }
    }
}

/// The end of the work at index `j` was written down.
spec fn logged(log: Seq<Ended>, j: int) -> bool {
    exists|i: int| 0 <= i < log.len() && (#[trigger] log[i]).place() == j
}

spec fn undo_ready(ended: Ended, work: Seq<WorkRow>, before: Seq<WorkRow>) -> bool {
    &&& ended.well_formed()
    &&& 0 <= ended.place() < work.len()
    &&& ended@ == before[ended.place()]
    &&& ended.fits(work[ended.place()])
}

/// Taking every logged end back gives the earlier rows.
spec fn undoes(log: Seq<Ended>, work: Seq<WorkRow>, before: Seq<WorkRow>) -> bool {
    &&& work.len() == before.len()
    &&& forall|j: int| 0 <= j < before.len() ==> (#[trigger] work[j]) == before[j] || logged(log, j)
    &&& forall|i: int| 0 <= i < log.len() ==> undo_ready(#[trigger] log[i], work, before)
    &&& forall|i: int, j: int|
        0 <= i < j < log.len() ==> (#[trigger] log[i]).place() != (#[trigger] log[j]).place()
}

/// Every row is still that of the same work.
/// Work that was ended because its end was due keeps to the profile of its session.
proof fn lemma_end_keeps_profile(t: Tables, mid: Tables, j: int, now: Number, after: Tables)
    requires
        t.well_formed(),
        0 <= j < t.work.len(),
        mid == (Tables { work: mid.work, ..t }),
        mid.work.len() == t.work.len(),
        mid.work[j] == t.work[j],
        mid.settle_step(j, now, after, true),
    ensures
        t.profiled(after.work[j]),
{
    accounts::lemma_profiled(t, j);
}

spec fn keeps_rows(work: Seq<WorkRow>, before: Seq<WorkRow>) -> bool {
    &&& work.len() == before.len()
    &&& forall|j: int|
        0 <= j < before.len() ==> (#[trigger] work[j]).row == before[j].row && work[j].generation
            == before[j].generation && work[j].view.work == before[j].view.work
}

proof fn lemma_log_grows(
    log: Seq<Ended>,
    ended: Ended,
    work: Seq<WorkRow>,
    next: Seq<WorkRow>,
    before: Seq<WorkRow>,
    i: int,
)
    requires
        undoes(log, work, before),
        0 <= i < before.len(),
        ended.well_formed(),
        ended.place() == i,
        ended@ == before[i],
        ended.fits(next[i]),
        next == work.update(i, next[i]),
        forall|n: int| 0 <= n < log.len() ==> (#[trigger] log[n]).place() > i,
    ensures
        undoes(log.push(ended), next, before),
{
    let more = log.push(ended);
    assert forall|j: int| 0 <= j < before.len() implies (#[trigger] next[j]) == before[j] || logged(
        more,
        j,
    ) by {
        if j == i {
            assert(more[log.len() as int].place() == i);
        } else if logged(log, j) {
            let n = choose|n: int| 0 <= n < log.len() && (#[trigger] log[n]).place() == j;
            assert(more[n].place() == j);
        } else {
            assert(work[j] == before[j]);
        }
    }
    assert forall|n: int| 0 <= n < more.len() implies undo_ready(
        #[trigger] more[n],
        next,
        before,
    ) by {
        if n < log.len() {
            assert(undo_ready(log[n], work, before));
        }
    }
}

/// Reconciliation ends work and never changes work that has ended: however many units a pass looks
/// at, each ended one keeps its outcome, its times and its diagnostic.
pub proof fn law_reconciliation_keeps_ended_work(
    t: Tables,
    rows: Seq<int>,
    now: Number,
    after: Tables,
    settled: nat,
    j: int,
)
    requires
        t.settle_pass(rows, now, after, settled),
        forall|i: int| 0 <= i < rows.len() ==> 0 <= #[trigger] rows[i] < t.work.len(),
        0 <= j < t.work.len(),
    ensures
        after.work.len() == t.work.len(),
        t.work[j].view.state.terminal() ==> after.work[j] == t.work[j],
    decreases rows.len(),
{
    if rows.len() > 0 {
        let (mid, count) = choose|mid: Tables, count: nat|
            {
                &&& t.settle_pass(rows.drop_last(), now, mid, count)
                &&& #[trigger] mid.stepped(rows.last(), now, after, count, settled)
            };
        assert forall|i: int| 0 <= i < rows.drop_last().len() implies 0
            <= #[trigger] rows.drop_last()[i] < t.work.len() by {
            assert(rows.drop_last()[i] == rows[i]);
        }
        law_reconciliation_keeps_ended_work(t, rows.drop_last(), now, mid, count, j);
    }
}

} // verus!
