//! Declaration of scope membership, and what may be read of scopes and work.

use super::super::commitments::{
    self, empty_status_root, scope_seal, Mutation, SessionIdentity,
};
use super::super::error::{ErrorCode, MAX_NUMBER};
use super::super::labels::{Digest, OperationId};
use super::super::messages::{self, Control, Scope};
use super::super::numbers::{BatchCount, Id, Number, PageLimit, Producer, State};
use super::super::records::{
    Counts, OperationReceipt, Outcome, ScopeEntry, ScopeSummary, WorkKey, WorkView,
};
use super::super::wire::Wire;
use super::accounts;
use super::store::{
    self, add_duration, authorize, protocol, Access, AuthorityStore, ClockReading, Fault,
    Grants, OperationRow, Permission, ScopeRow, SessionRow, StoreError, Tables, WorkRow,
};
use super::table;
use crate::cbor;
use vstd::prelude::*;

verus! {

/// Work that was declared and nothing more.
pub open spec fn declared_view(scope: Number, producer: Producer, entity: Id) -> WorkView {
    WorkView {
        work: WorkKey { scope, producer, entity },
        state: State(State::DECLARED),
        attempt: Number(0),
        input: None,
        admitted_at: None,
        deadline: None,
        terminal_at: None,
        receipt_until: None,
        output_until: None,
        child: None,
        manifest: None,
        diagnostic: None,
    }
}

/// The rows that a declaration adds, numbered behind `last`.
pub open spec fn declared_rows(
    last: u64,
    generation: Id,
    scope: Number,
    producer: Producer,
    ids: Seq<Id>,
) -> Seq<WorkRow> {
    Seq::new(
        ids.len(),
        |i: int|
            WorkRow {
                row: (last + 1 + i) as u64,
                generation,
                revision: Id(1),
                view: declared_view(scope, producer, ids[i]),
                fence: None,
                job: None,
            },
    )
}

/// The summary of a scope that was sealed with no members.
pub open spec fn empty_summary(row: ScopeRow, at: Number, s: ScopeSummary) -> bool {
    &&& s.scope == row.scope
    &&& s.producer == row.producer
    &&& s.parent == row.parent
    &&& row.seal matches Some(seal) && s.seal.0@ == seal.0@
    &&& s.declared == Number(0)
    &&& s.counts == (Counts {
        success: Number(0),
        failure: Number(0),
        cancelled: Number(0),
        skipped: Number(0),
    })
    &&& s.status_root.0@ == commitments::empty_root()
    &&& s.closed_at == at
}

/// The arguments of a declaration.
pub struct Declaration {
    pub identity: SessionIdentity,
    pub operation: OperationId,
    pub scope: Number,
    pub entity_ids: Vec<Id>,
    pub sealed: bool,
}

impl Declaration {
    pub open spec fn mutation(self) -> Mutation {
        Mutation::Declare { scope: self.scope, entity_ids: self.entity_ids, seal: self.sealed }
    }

    pub open spec fn digest(self) -> Seq<u8> {
        self.mutation().operation_digest(self.identity, Producer(0), self.operation)
    }
}

impl Tables {
    pub open spec fn last_work_row(self) -> u64 {
        if self.work.len() > 0 {
            self.work.last().row
        } else {
            0
        }
    }

    /// The retained answer to an operation of the owner, or that its parameters changed.
    pub open spec fn replay(self, generation: Id, id: Seq<u8>, digest: Seq<u8>) -> Option<
        Result<int, Fault>,
    > {
        let i = self.operation_at(generation, Producer(0), id);
        if i >= self.operations.len() {
            None
        } else if self.operations[i].receipt.request_digest.0@ == digest {
            Some(Ok(i))
        } else {
            Some(Err(Fault::Refused(ErrorCode::Conflict)))
        }
    }

    /// Why a declaration is not even looked up, if it is not.
    pub open spec fn declare_entry_fault(self, d: Declaration, grants: Grants) -> Option<Fault> {
        if d.entity_ids@.len() > 256 || !d.mutation().committable(
            d.identity,
            Producer(0),
            d.operation,
        ) {
            Some(Fault::Refused(ErrorCode::FrameError))
        } else {
            self.session_fault(d.identity, grants, Permission::Declare)
        }
    }

    /// Why a declaration that was not retained before is refused, if it is.
    pub open spec fn declare_fault(self, d: Declaration, access: Access, clock: ClockReading) -> Option<
        Fault,
    > {
        let generation = d.identity.generation;
        let k = self.scope_at(generation, d.scope);
        let row = self.scopes[k];
        let session = self.sessions[self.session_at(generation)];
        let count = d.entity_ids@.len();
        let declared = row.declared.0 + count;
        if k >= self.scopes.len() {
            Some(Fault::Refused(ErrorCode::NotFound))
        } else if row.producer != Producer(0) {
            Some(Fault::Refused(ErrorCode::Unauthorized))
        } else if self.open_fault(generation, d.scope) is Some {
            self.open_fault(generation, d.scope)
        } else if row.seal is Some || (count > 0 && d.entity_ids@[0].0 <= row.last_entity) {
            Some(Fault::Refused(ErrorCode::Conflict))
        } else if session.entities + count > session.binding.limits.entities.0 || session.operations
            >= session.binding.limits.operations.0 {
            Some(Fault::Refused(ErrorCode::LimitExceeded))
        } else if !self.safe(clock) {
            Some(Fault::Refused(ErrorCode::ClockUnsafe))
        } else if declared > MAX_NUMBER || self.last_work_row() + count > MAX_NUMBER {
            Some(Fault::Refused(ErrorCode::LimitExceeded))
        } else if d.sealed && !commitments::sealable(
            d.identity,
            d.scope,
            row.producer,
            row.parent,
            Number(declared as u64),
            self.member_ids(generation, d.scope) + d.entity_ids@,
        ) {
            Some(Fault::Refused(ErrorCode::FrameError))
        } else if d.sealed && declared == 0 && d.scope.0 == 0 && store::later(
            clock.utc_ms,
            session.binding.policy.receipt_retention_ms,
        ) is None {
            Some(Fault::Refused(ErrorCode::LimitExceeded))
        } else if !access.after.declare {
            Some(Fault::Refused(ErrorCode::Unauthorized))
        } else {
            None
        }
    }

    /// The tables after a declaration was committed, together with its receipt.
    pub open spec fn declared(
        self,
        d: Declaration,
        clock: ClockReading,
        after: Tables,
        receipt: OperationReceipt,
    ) -> bool {
        let generation = d.identity.generation;
        let k = self.scope_at(generation, d.scope);
        let i = self.session_at(generation);
        let row = self.scopes[k];
        let new = after.scopes[k];
        let count = d.entity_ids@.len();
        let members = self.member_ids(generation, d.scope) + d.entity_ids@;
        let kept = after.operations.last();
        &&& new == (ScopeRow {
            last_entity: if count > 0 {
                d.entity_ids@.last().0
            } else {
                row.last_entity
            },
            declared: Number((row.declared.0 + count) as u64),
            seal: new.seal,
            summary: new.summary,
            ..row
        })
        &&& if d.sealed {
            &&& new.seal matches Some(seal) && seal.0@ == commitments::seal_digest(
                d.identity,
                d.scope,
                row.producer,
                row.parent,
                members,
            )
            &&& if row.declared.0 + count == 0 {
                new.summary matches Some(s) && empty_summary(new, clock.utc_ms, s)
            } else {
                new.summary == row.summary
            }
        } else {
            new.seal == row.seal && new.summary == row.summary
        }
        &&& receipt.operation == d.operation
        &&& receipt.request_digest.0@ == d.digest()
        &&& receipt.body matches Outcome::Declared { scope, producer, accepted_count, declared, seal }
            && scope == d.scope && producer == row.producer && accepted_count.0 == count
            && declared == new.declared && seal == new.seal
        &&& kept.generation == generation
        &&& kept.originator == Producer(0)
        &&& kept.receipt.agrees(&receipt)
        &&& after == (Tables {
            greatest: clock.utc_ms.0,
            sessions: self.sessions.update(
                i,
                (SessionRow {
                    entities: (self.sessions[i].entities + count) as u64,
                    operations: (self.sessions[i].operations + 1) as u64,
                    ..self.sessions[i]
                }),
            ),
            scopes: self.scopes.update(k, new),
            work: self.work + declared_rows(
                self.last_work_row(),
                generation,
                d.scope,
                row.producer,
                d.entity_ids@,
            ),
            operations: self.operations.push(kept),
            ..self
        })
    }

    /// Why the receipt of an operation is not handed out, if it is not.
    pub open spec fn operation_fault(
        self,
        identity: SessionIdentity,
        id: OperationId,
        grants: Grants,
    ) -> Option<Fault> {
        let i = self.operation_at(identity.generation, Producer(0), id.0@);
        if !id.valid() {
            Some(Fault::Refused(ErrorCode::FrameError))
        } else if self.session_fault(identity, grants, Permission::Inspect) is Some {
            self.session_fault(identity, grants, Permission::Inspect)
        } else if i >= self.operations.len() {
            Some(Fault::Refused(ErrorCode::NotFound))
        } else {
            None
        }
    }

    /// Why work is not shown to one who knows it up to a revision, if it is not.
    pub open spec fn watch_fault(
        self,
        identity: SessionIdentity,
        key: WorkKey,
        after: Number,
        grants: Grants,
    ) -> Option<Fault> {
        let found = self.work_of(identity.generation, key);
        let row = self.work[found->Ok_0];
        let results = self.sessions[self.session_at(identity.generation)].binding.results;
        if !key.valid() || !after.valid() {
            Some(Fault::Refused(ErrorCode::FrameError))
        } else if self.session_fault(identity, grants, Permission::Inspect) is Some {
            self.session_fault(identity, grants, Permission::Inspect)
        } else if found is Err {
            Some(found->Err_0)
        } else if !(row.view.valid() && (row.view.state.0 == State::SUCCEEDED ==> (
        row.view.manifest is Some) == results)) {
            Some(Fault::Refused(ErrorCode::FrameError))
        } else if after.0 > row.revision.0 {
            Some(Fault::Refused(ErrorCode::Conflict))
        } else {
            None
        }
    }

    /// Why no page of a scope is shown, if none is.
    pub open spec fn page_fault(
        self,
        identity: SessionIdentity,
        scope: Number,
        after: Number,
        limit: PageLimit,
        grants: Grants,
    ) -> Option<Fault> {
        let k = self.scope_at(identity.generation, scope);
        let rows = self.page_rows(identity.generation, scope, after);
        if !(scope.valid() && after.valid() && limit.valid()) {
            Some(Fault::Refused(ErrorCode::FrameError))
        } else if self.session_fault(identity, grants, Permission::Inspect) is Some {
            self.session_fault(identity, grants, Permission::Inspect)
        } else if k >= self.scopes.len() {
            Some(Fault::Refused(ErrorCode::NotFound))
        } else if exists|i: int|
            0 <= i < least_len(rows.len(), limit.0 as nat) && (
            #[trigger] rows[i]).view.work.producer != self.scopes[k].producer {
            Some(Fault::Corrupt)
        } else {
            None
        }
    }

    /// The page that shows the members of a scope behind an entity.
    pub open spec fn page_shown(
        self,
        generation: Id,
        request: Id,
        scope: Number,
        after: Number,
        limit: PageLimit,
        page: Control,
    ) -> bool {
        let row = self.scopes[self.scope_at(generation, scope)];
        let rows = self.page_rows(generation, scope, after);
        let shown = least_len(rows.len(), limit.0 as nat);
        page matches Control::Scope(
            Scope::PageResponse {
                request: q,
                scope: s,
                producer,
                parent,
                sealed,
                seal,
                declared,
                entries,
                more,
            },
        ) && q == request && s == scope && producer == row.producer && parent == row.parent && sealed
            == (row.seal is Some) && seal == row.seal && declared == row.declared && entries@.len()
            == shown && (forall|i: int|
            0 <= i < shown ==> (#[trigger] entries@[i]) == (ScopeEntry {
                entity: rows[i].view.work.entity,
                state: rows[i].view.state,
            })) && more == (rows.len() > shown)
    }

    /// Why a scope is not answered for under a seal, if it is not.
    pub open spec fn checkpoint_fault(
        self,
        identity: SessionIdentity,
        scope: Number,
        expected: Digest,
        grants: Grants,
    ) -> Option<Fault> {
        let k = self.scope_at(identity.generation, scope);
        let row = self.scopes[k];
        if !scope.valid() {
            Some(Fault::Refused(ErrorCode::FrameError))
        } else if self.session_fault(identity, grants, Permission::Inspect) is Some {
            self.session_fault(identity, grants, Permission::Inspect)
        } else if k >= self.scopes.len() {
            Some(Fault::Refused(ErrorCode::NotFound))
        } else if row.seal is None {
            Some(Fault::Refused(ErrorCode::NotReady))
        } else if (row.seal->0).0@ != expected.0@ {
            Some(Fault::Refused(ErrorCode::IntegrityError))
        } else {
            None
        }
    }

    /// Members of a scope behind an entity.
    pub open spec fn page_rows(self, generation: Id, scope: Number, after: Number) -> Seq<WorkRow> {
        table::rows_where(self.work, in_page(generation, scope, after))
    }
}

/// What a declaration comes to: a refusal that changes nothing, the retained receipt of the same
/// declaration, or the members declared with their receipt.
pub open spec fn declaration_decided(
    t: Tables,
    d: Declaration,
    access: Access,
    clock: ClockReading,
    r: Result<OperationReceipt, StoreError>,
    after: Tables,
) -> bool {
    let entry = t.declare_entry_fault(d, access.before);
    let replay = t.replay(d.identity.generation, d.operation.0@, d.digest());
    match r {
        Ok(receipt) => entry is None && match replay {
            Some(Ok(i)) => after == t && receipt.agrees(&t.operations[i].receipt),
            Some(Err(_)) => false,
            None => t.declare_fault(d, access, clock) is None && t.declared(
                d,
                clock,
                after,
                receipt,
            ),
        },
        Err(e) => after == t && Some(e.fault()) == match entry {
            Some(fault) => Some(fault),
            None => match replay {
                Some(Ok(_)) => None,
                Some(Err(fault)) => Some(fault),
                None => t.declare_fault(d, access, clock),
            },
        },
    }
}

pub open spec fn in_page(generation: Id, scope: Number, after: Number) -> spec_fn(WorkRow) -> bool {
    |r: WorkRow|
        r.generation == generation && r.view.work.scope == scope && r.view.work.entity.0 > after.0
}

pub open spec fn least_len(a: nat, b: nat) -> nat {
    if a <= b {
        a
    } else {
        b
    }
}

/// The receipt of every declaration can be sent in a control frame, whatever limit was negotiated.
pub proof fn law_declaration_receipt_fits(receipt: OperationReceipt, limit: usize)
    requires
        receipt.valid(),
        receipt.body is Declared,
        messages::limit_in_range(limit),
    ensures
        Control::Scope(Scope::Declared { request: Id(MAX_NUMBER), receipt }).sendable(limit),
{
    match receipt.body {
        Outcome::Declared { scope, producer, accepted_count, declared, seal } => {
            cbor::lemma_head(0, MAX_NUMBER as nat);
            cbor::lemma_head(0, 1);
            cbor::lemma_head(0, scope.0 as nat);
            cbor::lemma_head(0, producer.0 as nat);
            cbor::lemma_head(0, accepted_count.0 as nat);
            cbor::lemma_head(0, declared.0 as nat);
            cbor::lemma_head(2, 16);
            cbor::lemma_head(2, 32);
            cbor::lemma_head(4, 3);
            cbor::lemma_head(4, 6);
        },
        _ => {},
    }
}

proof fn lemma_members_extend(t: Tables, generation: Id, scope: Number, rows: Seq<WorkRow>)
    requires
        forall|i: int|
            0 <= i < rows.len() ==> (#[trigger] rows[i]).generation == generation
                && rows[i].view.work.scope == scope,
    ensures
        table::rows_where(t.work + rows, store::in_scope(generation, scope)) == t.members(
            generation,
            scope,
        ) + rows,
    decreases rows.len(),
{
    let p = store::in_scope(generation, scope);
    if rows.len() == 0 {
        assert(t.work + rows =~= t.work);
        assert(t.members(generation, scope) + rows =~= t.members(generation, scope));
    } else {
        let front = rows.drop_last();
        lemma_members_extend(t, generation, scope, front);
        assert(t.work + rows =~= (t.work + front).push(rows.last()));
        table::lemma_rows_where_push(t.work + front, p, rows.last());
        assert(t.members(generation, scope) + rows =~= (t.members(generation, scope) + front).push(
            rows.last(),
        ));
    }
}

impl AuthorityStore {
    /// The entities of a scope in the order in which they were declared.
    pub fn member_entities(&self, generation: Id, scope: Number) -> (r: Vec<Id>)
        ensures
            r@ == self@.member_ids(generation, scope),
    {
        let mut ids: Vec<Id> = Vec::new();
        let mut i: usize = 0;
        let ghost p = store::in_scope(generation, scope);
        assert(ids@ =~= table::rows_where(self.work@.take(0), p).map_values(
            |r: WorkRow| r.view.work.entity,
        ));
        while i < self.work.len()
            invariant
                i <= self.work@.len(),
                p == store::in_scope(generation, scope),
                ids@ == table::rows_where(self.work@.take(i as int), p).map_values(
                    |r: WorkRow| r.view.work.entity,
                ),
            decreases self.work@.len() - i,
        {
            proof {
                let row = self.work@[i as int];
                assert(self.work@.take(i + 1) =~= self.work@.take(i as int).push(row));
                table::lemma_rows_where_push(self.work@.take(i as int), p, row);
            }
            if self.work[i].generation == generation && self.work[i].view.work.scope == scope {
                ids.push(self.work[i].view.work.entity);
            }
            i += 1;
            assert(ids@ =~= table::rows_where(self.work@.take(i as int), p).map_values(
                |r: WorkRow| r.view.work.entity,
            ));
        }
        assert(self.work@.take(i as int) =~= self.work@);
        ids
    }

    /// Normal caller declaration. Membership that the authority's own application generates is not
    /// declared through this interface. An identical replay returns the retained receipt, also
    /// under an unsafe clock.
    pub fn declare(
        &mut self,
        identity: &SessionIdentity,
        id: OperationId,
        scope: Number,
        entity_ids: &Vec<Id>,
        sealed: bool,
        access: &Access,
        clock: ClockReading,
    ) -> (r: Result<OperationReceipt, StoreError>)
        requires
            old(self)@.well_formed(),
        ensures
            final(self)@.well_formed(),
            declaration_decided(
                old(self)@,
                (Declaration {
                    identity: *identity,
                    operation: id,
                    scope,
                    entity_ids: *entity_ids,
                    sealed,
                }),
                *access,
                clock,
                r,
                final(self)@,
            ),
    {
        let ghost t = self@;
        let ghost d = Declaration {
            identity: *identity,
            operation: id,
            scope,
            entity_ids: *entity_ids,
            sealed,
        };
        if entity_ids.len() > 256 {
            return Err(protocol(ErrorCode::FrameError, "declaration batch exceeds 256 IDs"));
        }
        let copy = entity_ids.duplicate();
        assert(copy@ =~= entity_ids@);
        let mutation = Mutation::Declare { scope, entity_ids: copy, seal: sealed };
        proof {
            assert(mutation.preimage(*identity, Producer(0), id) == d.mutation().preimage(
                *identity,
                Producer(0),
                id,
            ));
        }
        let digest = match mutation.digest(identity, Producer(0), id) {
            Ok(digest) => digest,
            Err(e) => {
                return Err(StoreError::Protocol(e));
            },
        };
        let i = self.authorize_session(identity, &access.before, Permission::Declare)?;
        match self.find_operation(identity.generation, Producer(0), id) {
            Some(o) => {
                if !self.operations[o].receipt.request_digest.same(&digest) {
                    return Err(protocol(ErrorCode::Conflict, "operation parameters changed"));
                }
                return Ok(self.operations[o].receipt.duplicate());
            },
            None => {},
        }
        let generation = identity.generation;
        let k = self.load_scope(generation, scope)?;
        let producer = self.scopes[k].producer;
        let parent = self.scopes[k].parent;
        if producer.0 != 0 {
            return Err(
                protocol(
                    ErrorCode::Unauthorized,
                    "external producer cannot declare authority work",
                ),
            );
        }
        self.unfenced(generation, scope)?;
        let count: u64 = entity_ids.len() as u64;
        if self.scopes[k].seal.is_some() || (count > 0 && entity_ids[0].0
            <= self.scopes[k].last_entity) {
            return Err(
                protocol(
                    ErrorCode::Conflict,
                    "membership is sealed or IDs did not increase",
                ),
            );
        }
        let limits = self.sessions[i].binding.limits;
        let entities = self.sessions[i].entities;
        if entities > u64::MAX - count || entities + count > limits.entities.0 {
            return Err(
                protocol(ErrorCode::LimitExceeded, "session membership capacity exhausted"),
            );
        }
        let operations = self.sessions[i].operations;
        if operations >= limits.operations.0 {
            return Err(
                protocol(ErrorCode::LimitExceeded, "session operation capacity exhausted"),
            );
        }
        let now = self.check_clock(clock)?;
        let before: u64 = self.scopes[k].declared.0;
        if before > MAX_NUMBER || before + count > MAX_NUMBER {
            return Err(protocol(ErrorCode::LimitExceeded, "scope count exhausted"));
        }
        let declared = Number(before + count);
        let last_row: u64 = if self.work.len() > 0 {
            self.work[self.work.len() - 1].row
        } else {
            0
        };
        if last_row + count > MAX_NUMBER {
            return Err(protocol(ErrorCode::LimitExceeded, "work rows exhausted"));
        }
        let mut row = ScopeRow {
            row: self.scopes[k].row,
            generation,
            scope,
            producer,
            parent,
            last_entity: if count > 0 {
                entity_ids[entity_ids.len() - 1].0
            } else {
                self.scopes[k].last_entity
            },
            declared,
            seal: None,
            cancelled: self.scopes[k].cancelled,
            revoked: self.scopes[k].revoked,
            summary: None,
        };
        if sealed {
            let mut members = self.member_entities(generation, scope);
            let ghost known = members@;
            let mut n: usize = 0;
            assert(members@ =~= known + entity_ids@.take(0));
            while n < entity_ids.len()
                invariant
                    n <= entity_ids@.len(),
                    members@ == known + entity_ids@.take(n as int),
                decreases entity_ids@.len() - n,
            {
                members.push(entity_ids[n]);
                n += 1;
                assert(members@ =~= known + entity_ids@.take(n as int));
            }
            assert(entity_ids@.take(n as int) =~= entity_ids@);
            let seal = match scope_seal(identity, scope, producer, &parent, declared, &members) {
                Ok(seal) => seal,
                Err(e) => {
                    return Err(StoreError::Protocol(e));
                },
            };
            row.seal = Some(seal);
            if declared.0 == 0 {
                if scope.0 == 0 {
                    // Closing the root promises its creation receipt for this entire interval,
                    // even where no work was admitted.
                    add_duration(now, self.sessions[i].binding.policy.receipt_retention_ms)?;
                }
                row.summary = Some(
                    ScopeSummary {
                        scope,
                        producer,
                        parent,
                        seal,
                        declared: Number(0),
                        counts: Counts {
                            success: Number(0),
                            failure: Number(0),
                            cancelled: Number(0),
                            skipped: Number(0),
                        },
                        status_root: empty_status_root(),
                        closed_at: now,
                    },
                );
            }
        }
        authorize(&access.after, Permission::Declare)?;
        let receipt = OperationReceipt {
            operation: id,
            request_digest: digest,
            body: Outcome::Declared {
                scope,
                producer,
                accepted_count: BatchCount(count),
                declared,
                seal: row.seal,
            },
        };
        if !(sealed && declared.0 == 0) {
            let mut summary: Option<ScopeSummary> = None;
            std::mem::swap(&mut summary, &mut self.scopes[k].summary);
            row.summary = summary;
        }
        self.commit_declaration(i, k, row, entity_ids, last_row, now, &receipt);
        proof {
            assert(self@.scopes =~= t.scopes.update(k as int, self@.scopes[k as int]));
            assert(self@.sessions =~= t.sessions.update(i as int, self@.sessions[i as int]));
            lemma_declaration_is_counted(t, self@, k as int, d);
            lemma_declaration_keeps_order(t, self@, k as int, entity_ids@, generation, scope);
            assert(self@.operations =~= t.operations.push(self@.operations.last()));
            assert(t.declared(d, clock, self@, receipt));
        }
        Ok(receipt)
    }

    /// Writes the rows of an accepted declaration.
    fn commit_declaration(
        &mut self,
        i: usize,
        k: usize,
        row: ScopeRow,
        entity_ids: &Vec<Id>,
        last_row: u64,
        now: Number,
        receipt: &OperationReceipt,
    )
        requires
            i < old(self)@.sessions.len(),
            k < old(self)@.scopes.len(),
            old(self)@.sessions[i as int].entities + entity_ids@.len() <= u64::MAX,
            old(self)@.sessions[i as int].operations < u64::MAX,
            last_row + entity_ids@.len() <= MAX_NUMBER,
        ensures
            ({
                let t = old(self)@;
                let kept = final(self)@.operations.last();
                &&& kept.generation == row.generation
                &&& kept.originator == Producer(0)
                &&& kept.receipt.agrees(receipt)
                &&& final(self)@ == (Tables {
                    greatest: now.0,
                    sessions: t.sessions.update(
                        i as int,
                        (SessionRow {
                            entities: (t.sessions[i as int].entities + entity_ids@.len()) as u64,
                            operations: (t.sessions[i as int].operations + 1) as u64,
                            ..t.sessions[i as int]
                        }),
                    ),
                    scopes: t.scopes.update(k as int, row),
                    work: t.work + declared_rows(
                        last_row,
                        row.generation,
                        row.scope,
                        row.producer,
                        entity_ids@,
                    ),
                    operations: t.operations.push(kept),
                    ..t
                })
            }),
    {
        let ghost t = self@;
        let generation = row.generation;
        let scope = row.scope;
        let producer = row.producer;
        let ghost rows = declared_rows(last_row, generation, scope, producer, entity_ids@);
        let mut n: usize = 0;
        assert(self.work@ =~= t.work + rows.take(0));
        while n < entity_ids.len()
            invariant
                n <= entity_ids@.len(),
                rows == declared_rows(last_row, generation, scope, producer, entity_ids@),
                last_row + entity_ids@.len() <= MAX_NUMBER,
                self@ == (Tables { work: t.work + rows.take(n as int), ..t }),
            decreases entity_ids@.len() - n,
        {
            let view = WorkView {
                work: WorkKey { scope, producer, entity: entity_ids[n] },
                state: State(State::DECLARED),
                attempt: Number(0),
                input: None,
                admitted_at: None,
                deadline: None,
                terminal_at: None,
                receipt_until: None,
                output_until: None,
                child: None,
                manifest: None,
                diagnostic: None,
            };
            self.work.push(
                WorkRow {
                    row: last_row + 1 + n as u64,
                    generation,
                    revision: Id(1),
                    view,
                    fence: None,
                    job: None,
                },
            );
            n += 1;
            assert(self.work@ =~= t.work + rows.take(n as int));
        }
        assert(rows.take(n as int) =~= rows);
        self.scopes[k] = row;
        self.sessions[i].entities = self.sessions[i].entities + entity_ids.len() as u64;
        self.sessions[i].operations = self.sessions[i].operations + 1;
        self.operations.push(
            OperationRow { generation, originator: Producer(0), receipt: receipt.duplicate() },
        );
        self.greatest = now.0;
        proof {
            assert(self.work@ =~= t.work + rows);
            assert(self.scopes@ =~= t.scopes.update(k as int, row));
            assert(self.sessions@ =~= t.sessions.update(
                i as int,
                (SessionRow {
                    entities: (t.sessions[i as int].entities + entity_ids@.len()) as u64,
                    operations: (t.sessions[i as int].operations + 1) as u64,
                    ..t.sessions[i as int]
                }),
            ));
            assert(self.operations@ =~= t.operations.push(self.operations@.last()));
        }
    }

    /// The retained receipt of an operation of the owner.
    pub fn operation(&self, identity: &SessionIdentity, id: OperationId, grants: &Grants) -> (r: Result<
        OperationReceipt,
        StoreError,
    >)
        ensures
            ({
                let t = self@;
                let i = t.operation_at(identity.generation, Producer(0), id.0@);
                let fault = t.operation_fault(*identity, id, *grants);
                match r {
                    Ok(receipt) => fault is None && receipt.agrees(&t.operations[i].receipt),
                    Err(e) => fault == Some(e.fault()),
                }
            }),
    {
        match id.check() {
            Ok(_) => {},
            Err(e) => {
                return Err(StoreError::Protocol(e));
            },
        }
        self.authorize_session(identity, grants, Permission::Inspect)?;
        match self.find_operation(identity.generation, Producer(0), id) {
            Some(i) => Ok(self.operations[i].receipt.duplicate()),
            None => Err(protocol(ErrorCode::NotFound, "operation not retained")),
        }
    }

    /// Consistent snapshot used by the transport's bounded revision waiter.
    /// Equal revision is not a timeout error; the waiter chooses when to reply.
    pub fn work_view(
        &self,
        identity: &SessionIdentity,
        key: &WorkKey,
        after: Number,
        grants: &Grants,
    ) -> (r: Result<(Id, WorkView), StoreError>)
        ensures
            ({
                let t = self@;
                let found = t.work_of(identity.generation, *key);
                let row = t.work[found->Ok_0];
                let fault = t.watch_fault(*identity, *key, after, *grants);
                match r {
                    Ok(v) => fault is None && v.0 == row.revision && v.1.agrees(&row.view),
                    Err(e) => fault == Some(e.fault()),
                }
            }),
    {
        if key.check().is_err() || after.check().is_err() {
            return Err(protocol(ErrorCode::FrameError, "invalid work key or revision"));
        }
        let s = self.authorize_session(identity, grants, Permission::Inspect)?;
        let i = self.find_work(identity.generation, key)?;
        match self.work[i].view.validate_profiles(self.sessions[s].binding.results) {
            Ok(_) => {},
            Err(e) => {
                return Err(StoreError::Protocol(e));
            },
        }
        if after.0 > self.work[i].revision.0 {
            return Err(protocol(ErrorCode::Conflict, "watch revision is ahead of work"));
        }
        Ok((self.work[i].revision, self.work[i].view.duplicate()))
    }

    /// One page of a scope's members behind `after`, in the order of their entities.
    pub fn scope_page(
        &self,
        identity: &SessionIdentity,
        request: Id,
        scope: Number,
        after: Number,
        limit: PageLimit,
        grants: &Grants,
    ) -> (r: Result<Control, StoreError>)
        ensures
            ({
                let t = self@;
                let generation = identity.generation;
                let fault = if !request.valid() {
                    Some(Fault::Refused(ErrorCode::FrameError))
                } else {
                    t.page_fault(*identity, scope, after, limit, *grants)
                };
                match r {
                    Ok(c) => fault is None && t.page_shown(
                        generation,
                        request,
                        scope,
                        after,
                        limit,
                        c,
                    ),
                    Err(e) => fault == Some(e.fault()),
                }
            }),
    {
        if request.check().is_err() || scope.check().is_err() || after.check().is_err()
            || limit.check().is_err() {
            return Err(protocol(ErrorCode::FrameError, "invalid page request"));
        }
        self.authorize_session(identity, grants, Permission::Inspect)?;
        let generation = identity.generation;
        let k = self.load_scope(generation, scope)?;
        let producer = self.scopes[k].producer;
        let mut entries: Vec<ScopeEntry> = Vec::with_capacity(limit.0 as usize);
        let mut more = false;
        let mut corrupt = false;
        let mut i: usize = 0;
        let ghost p = in_page(generation, scope, after);
        while i < self.work.len()
            invariant
                i <= self.work@.len(),
                p == in_page(generation, scope, after),
                limit.0 <= 256,
                ({
                    let seen = table::rows_where(self.work@.take(i as int), p);
                    &&& entries@.len() == least_len(seen.len(), limit.0 as nat)
                    &&& more == (seen.len() > limit.0)
                    &&& forall|j: int|
                        0 <= j < entries@.len() ==> (#[trigger] entries@[j]) == (ScopeEntry {
                            entity: seen[j].view.work.entity,
                            state: seen[j].view.state,
                        })
                    &&& corrupt == exists|j: int|
                        0 <= j < entries@.len() && (#[trigger] seen[j]).view.work.producer
                            != producer
                }),
            decreases self.work@.len() - i,
        {
            let ghost seen = table::rows_where(self.work@.take(i as int), p);
            let ghost row = self.work@[i as int];
            proof {
                assert(self.work@.take(i + 1) =~= self.work@.take(i as int).push(row));
                table::lemma_rows_where_push(self.work@.take(i as int), p, row);
            }
            if self.work[i].generation == generation && self.work[i].view.work.scope == scope
                && self.work[i].view.work.entity.0 > after.0 {
                let ghost now = seen.push(row);
                assert(forall|j: int| 0 <= j < seen.len() ==> now[j] == #[trigger] seen[j]);
                if entries.len() as u64 == limit.0 {
                    more = true;
                } else {
                    assert(seen.len() == entries@.len());
                    assert(now[seen.len() as int] == row);
                    if self.work[i].view.work.producer != producer {
                        corrupt = true;
                    }
                    entries.push(
                        ScopeEntry {
                            entity: self.work[i].view.work.entity,
                            state: self.work[i].view.state,
                        },
                    );
                }
            }
            i += 1;
        }
        assert(self.work@.take(i as int) =~= self.work@);
        if corrupt {
            return Err(StoreError::Corrupt("page index and view disagree"));
        }
        Ok(
            Control::Scope(
                Scope::PageResponse {
                    request,
                    scope,
                    producer,
                    parent: self.scopes[k].parent,
                    sealed: self.scopes[k].seal.is_some(),
                    seal: self.scopes[k].seal,
                    declared: self.scopes[k].declared,
                    entries,
                    more,
                },
            ),
        )
    }

    /// No summary means that the expected sealed scope still has obligations. Only the
    /// connection-local waiter can turn expiration of its wait into a timeout.
    pub fn checkpoint(
        &self,
        identity: &SessionIdentity,
        scope: Number,
        expected: Digest,
        grants: &Grants,
    ) -> (r: Result<Option<ScopeSummary>, StoreError>)
        ensures
            ({
                let t = self@;
                let k = t.scope_at(identity.generation, scope);
                let row = t.scopes[k];
                let fault = t.checkpoint_fault(*identity, scope, expected, *grants);
                match r {
                    Ok(s) => fault is None && s.agrees(&row.summary),
                    Err(e) => fault == Some(e.fault()),
                }
            }),
    {
        if scope.check().is_err() {
            return Err(protocol(ErrorCode::FrameError, "scope out of range"));
        }
        self.authorize_session(identity, grants, Permission::Inspect)?;
        let k = self.load_scope(identity.generation, scope)?;
        match &self.scopes[k].seal {
            None => Err(protocol(ErrorCode::NotReady, "scope is not sealed")),
            Some(seal) => {
                if !seal.same(&expected) {
                    return Err(protocol(ErrorCode::IntegrityError, "scope seal mismatch"));
                }
                Ok(self.scopes[k].summary.duplicate())
            },
        }
    }
}

/// A declaration extends the membership of its scope by the declared entities and nothing else, so
/// that the seal of a scope depends on its membership and not on how it was cut into batches.
pub proof fn law_declaration_extends_membership(
    t: Tables,
    d: Declaration,
    clock: ClockReading,
    after: Tables,
    receipt: OperationReceipt,
)
    requires
        t.declared(d, clock, after, receipt),
    ensures
        after.member_ids(d.identity.generation, d.scope) == t.member_ids(
            d.identity.generation,
            d.scope,
        ) + d.entity_ids@,
{
    let generation = d.identity.generation;
    let producer = t.scopes[t.scope_at(generation, d.scope)].producer;
    let rows = declared_rows(t.last_work_row(), generation, d.scope, producer, d.entity_ids@);
    lemma_members_extend(t, generation, d.scope, rows);
    assert(after.member_ids(generation, d.scope) =~= t.member_ids(generation, d.scope)
        + d.entity_ids@);
}

/// The members that a declaration adds are counted, and no promise was made of them yet.
proof fn lemma_declaration_is_counted(t: Tables, after: Tables, k: int, d: Declaration)
    requires
        t.well_formed(),
        0 <= k < t.scopes.len(),
        k == t.scope_at(d.identity.generation, d.scope),
        t.scopes[k].generation == d.identity.generation,
        t.scopes[k].scope == d.scope,
        t.scopes[k].producer == Producer(0),
        after.scopes[k].producer == Producer(0),
        d.scope.valid(),
        forall|i: int| 0 <= i < d.entity_ids@.len() ==> (#[trigger] d.entity_ids@[i]).valid(),
        accounts::same_sessions(t, after),
        after.last_generation == t.last_generation,
        after.greatest >= t.greatest,
        after.scopes == t.scopes.update(k, after.scopes[k]),
        after.scopes[k].generation == t.scopes[k].generation,
        after.scopes[k].scope == d.scope,
        after.scopes[k].declared.0 == t.scopes[k].declared.0 + d.entity_ids@.len(),
        after.scopes[k].summary == t.scopes[k].summary || (after.scopes[k].summary matches Some(s)
            && s.scope == d.scope && s.valid()),
        after.work == t.work + declared_rows(
            t.last_work_row(),
            d.identity.generation,
            d.scope,
            Producer(0),
            d.entity_ids@,
        ),
    ensures
        after.accounted(),
{
    let rows = declared_rows(
        t.last_work_row(),
        d.identity.generation,
        d.scope,
        Producer(0),
        d.entity_ids@,
    );
    assert forall|i: int| 0 <= i < rows.len() implies (#[trigger] rows[i]).generation
        == t.scopes[k].generation && rows[i].view.work.scope == t.scopes[k].scope && t.profiled(
        rows[i],
    ) by {
        assert(d.entity_ids@[i].valid());
        assert(rows[i].view == declared_view(d.scope, Producer(0), d.entity_ids@[i]));
        assert(rows[i].view.valid());
    }
    accounts::lemma_members_join(t, after, k, rows);
}

/// New members are numbered behind all others and lie above everything declared before, so the
/// tables stay in order.
proof fn lemma_declaration_keeps_order(
    t: Tables,
    after: Tables,
    k: int,
    ids: Seq<Id>,
    generation: Id,
    scope: Number,
)
    requires
        t.well_formed(),
        0 <= k < t.scopes.len(),
        t.scopes[k].generation == generation,
        t.scopes[k].scope == scope,
        messages::increasing(ids),
        ids.len() > 0 ==> ids[0].0 > t.scopes[k].last_entity,
        t.last_work_row() + ids.len() <= MAX_NUMBER,
        after.scopes == t.scopes.update(k, after.scopes[k]),
        after.scopes[k].generation == generation,
        after.scopes[k].scope == scope,
        after.scopes[k].row == t.scopes[k].row,
        after.scopes[k].last_entity == if ids.len() > 0 {
            ids.last().0
        } else {
            t.scopes[k].last_entity
        },
        after.last_generation == t.last_generation,
        after.work == t.work + declared_rows(
            t.last_work_row(),
            generation,
            scope,
            t.scopes[k].producer,
            ids,
        ),
        after.accounted(),
        store::closed_sealed(after.scopes[k]),
    ensures
        after.well_formed(),
{
    let rows = declared_rows(t.last_work_row(), generation, scope, t.scopes[k].producer, ids);
    let n = t.work.len();
    assert forall|i: int| 0 <= i < ids.len() implies (#[trigger] ids[i]).0 > t.scopes[k].last_entity && ids[i].0
        <= ids.last().0 by {
        if i > 0 {
            assert(ids[0].0 < ids[i].0);
        }
        if i < ids.len() - 1 {
            assert(ids[i].0 < ids[ids.len() - 1].0);
        }
    }
    assert forall|i: int| 0 <= i < n implies (#[trigger] t.work[i]).row <= t.last_work_row() by {
        if i < n - 1 {
            assert(t.work[i].row < t.work[n - 1].row);
        }
    }
    assert forall|i: int| 0 <= i < after.work.len() implies #[trigger] after.work[i] == (if i < n {
        t.work[i]
    } else {
        rows[i - n]
    }) by {}
    assert forall|i: int, j: int| 0 <= i < j < after.work.len() implies (
    #[trigger] after.work[i]).row < (#[trigger] after.work[j]).row by {
        if i < n {
            assert(t.work[i].row <= t.last_work_row());
        }
    }
    assert forall|i: int, j: int|
        0 <= i < j < after.work.len() && (#[trigger] after.work[i]).generation == (
        #[trigger] after.work[j]).generation && after.work[i].view.work.scope
            == after.work[j].view.work.scope implies after.work[i].view.work.entity.0
        < after.work[j].view.work.entity.0 by {
        if j >= n {
            assert(after.work[j].view.work.entity == ids[j - n]);
            if i >= n {
                assert(after.work[i].view.work.entity == ids[i - n]);
                assert(ids[i - n].0 < ids[j - n].0);
            } else {
                assert(t.work[i].view.work.entity.0 <= t.scopes[k].last_entity);
                assert(ids[j - n].0 > t.scopes[k].last_entity);
            }
        }
    }
    assert forall|i: int, m: int|
        0 <= i < after.work.len() && 0 <= m < after.scopes.len() && (
        #[trigger] after.work[i]).generation == (#[trigger] after.scopes[m]).generation
            && after.work[i].view.work.scope == after.scopes[m].scope
            implies after.work[i].view.work.entity.0 <= after.scopes[m].last_entity by {
        if m != k {
            assert(after.scopes[m] == t.scopes[m]);
            if i >= n {
                assert(t.scopes[m].generation == t.scopes[k].generation);
            }
        } else {
            if i < n {
                assert(t.work[i].view.work.entity.0 <= t.scopes[k].last_entity);
                if ids.len() > 0 {
                    assert(ids[0].0 <= ids.last().0);
                }
            } else {
                assert(after.work[i].view.work.entity == ids[i - n]);
            }
        }
    }
    assert forall|i: int| 0 <= i < after.work.len() implies (#[trigger] after.work[i]).generation.0
        <= after.last_generation by {
        if i >= n {
            assert(t.scopes[k].generation.0 <= t.last_generation);
        }
    }
    assert forall|i: int| 0 <= i < after.scopes.len() implies store::closed_sealed(
        #[trigger] after.scopes[i],
    ) by {
        if i != k {
            assert(after.scopes[i] == t.scopes[i]);
        }
    }
    assert forall|i: int| 0 <= i < after.scopes.len() implies (
    #[trigger] after.scopes[i]).generation.0 <= after.last_generation by {
        assert(t.scopes[i].generation.0 <= t.last_generation);
    }
    assert forall|i: int, j: int| 0 <= i < j < after.scopes.len() implies (
    #[trigger] after.scopes[i]).row < (#[trigger] after.scopes[j]).row by {
        assert(t.scopes[i].row < t.scopes[j].row);
    }
    assert forall|i: int, j: int|
        0 <= i < j < after.scopes.len() && (#[trigger] after.scopes[i]).generation == (
        #[trigger] after.scopes[j]).generation implies after.scopes[i].scope
        != after.scopes[j].scope by {
        assert(t.scopes[i].generation == t.scopes[j].generation);
    }
}

/// A declaration that is asked for again after it was committed is answered with its receipt and
/// declares nothing more. The same number with other parameters is refused.
pub proof fn law_declaration_is_replayed(
    t: Tables,
    d: Declaration,
    clock: ClockReading,
    after: Tables,
    receipt: OperationReceipt,
    other: Seq<u8>,
)
    requires
        t.replay(d.identity.generation, d.operation.0@, d.digest()) is None,
        t.declared(d, clock, after, receipt),
        other != d.digest(),
    ensures
        after.replay(d.identity.generation, d.operation.0@, d.digest()) == Some(
            Ok::<int, Fault>(t.operations.len() as int),
        ),
        after.operations[t.operations.len() as int].receipt.agrees(&receipt),
        after.replay(d.identity.generation, d.operation.0@, other) == Some(
            Err::<int, Fault>(Fault::Refused(ErrorCode::Conflict)),
        ),
{
    assert(after.operations.drop_last() =~= t.operations);
    lemma_kept_is_found(t, after, d.identity.generation, d.operation.0@);
}

/// An operation that was retained last, and whose number was free before, is found by its number.
pub proof fn lemma_kept_is_found(t: Tables, after: Tables, generation: Id, id: Seq<u8>)
    requires
        t.operation_at(generation, Producer(0), id) >= t.operations.len(),
        after.operations.len() == t.operations.len() + 1,
        after.operations.drop_last() == t.operations,
        store::is_operation(generation, Producer(0), id)(after.operations.last()),
    ensures
        after.operation_at(generation, Producer(0), id) == t.operations.len(),
{
    let p = store::is_operation(generation, Producer(0), id);
    table::lemma_index_where(t.operations, p);
    assert forall|j: int| 0 <= j < t.operations.len() implies !p(#[trigger] after.operations[j]) by {
        assert(after.operations[j] == after.operations.drop_last()[j]);
        assert(!p(t.operations[j]));
    }
    table::lemma_index_unique(after.operations, p, t.operations.len() as int);
}

} // verus!
