//! Rows of the authority, and how they are found.

use super::super::commitments::SessionIdentity;
use super::super::error::{Error, ErrorCode, MAX_NUMBER};
use super::super::labels::{Digest, IdentityLabel, OperationId};
use super::super::messages::{Control, Session};
use super::super::numbers::{ControlLimit, Duration, Id, Number, Producer, State};
use super::super::records::{Limits, OperationReceipt, Policy, ScopeSummary, WorkKey, WorkView};
use super::super::wire::Wire;
use super::evidence::{Proof, WorkFence};
use super::table;
use vstd::prelude::*;

verus! {

/// Why a transition did not happen.
#[derive(Debug, Clone, Copy, PartialEq, Eq)]
pub enum StoreError {
    /// The request is refused with a code that the peer acts on.
    Protocol(Error),
    /// The retained rows contradict one another.
    Corrupt(&'static str),
}

/// The outcome of a refused transition, without its diagnostic text.
pub enum Fault {
    Refused(ErrorCode),
    Corrupt,
}

impl StoreError {
    pub open spec fn fault(self) -> Fault {
        match self {
            StoreError::Protocol(e) => Fault::Refused(e.code),
            StoreError::Corrupt(_) => Fault::Corrupt,
        }
    }
}

pub fn protocol(code: ErrorCode, detail: &'static str) -> (r: StoreError)
    ensures
        r.fault() == Fault::Refused(code),
{
    StoreError::Protocol(Error::new(code, detail))
}

/// One reading of the authority's clock.
#[derive(Debug, Clone, Copy, PartialEq, Eq)]
pub struct ClockReading {
    pub utc_ms: Number,
    pub trusted: bool,
}

/// What an owner may do.
#[derive(Debug, Clone, Copy, PartialEq, Eq, Structural)]
pub enum Permission {
    Create,
    Inspect,
    Declare,
    Cancel,
    Skip,
    Revoke,
    ReadResult,
}

/// The answers of the authorization provider for one owner at one moment.
#[derive(Debug, Clone, Copy, PartialEq, Eq)]
pub struct Grants {
    pub create: bool,
    pub inspect: bool,
    pub declare: bool,
    pub cancel: bool,
    pub skip: bool,
    pub revoke: bool,
    pub read_result: bool,
}

impl Grants {
    pub open spec fn allows(self, permission: Permission) -> bool {
        match permission {
            Permission::Create => self.create,
            Permission::Inspect => self.inspect,
            Permission::Declare => self.declare,
            Permission::Cancel => self.cancel,
            Permission::Skip => self.skip,
            Permission::Revoke => self.revoke,
            Permission::ReadResult => self.read_result,
        }
    }

    pub fn permits(&self, permission: Permission) -> (r: bool)
        ensures
            r == self.allows(permission),
    {
        match permission {
            Permission::Create => self.create,
            Permission::Inspect => self.inspect,
            Permission::Declare => self.declare,
            Permission::Cancel => self.cancel,
            Permission::Skip => self.skip,
            Permission::Revoke => self.revoke,
            Permission::ReadResult => self.read_result,
        }
    }

    /// Everything allowed, or nothing.
    pub fn uniform(allowed: bool) -> (r: Self)
        ensures
            forall|p: Permission| #[trigger] r.allows(p) == allowed,
    {
        Grants {
            create: allowed,
            inspect: allowed,
            declare: allowed,
            cancel: allowed,
            skip: allowed,
            revoke: allowed,
            read_result: allowed,
        }
    }
}

/// The provider's answers before anything is looked up, and again before the change is committed.
#[derive(Debug, Clone, Copy, PartialEq, Eq)]
pub struct Access {
    pub before: Grants,
    pub after: Grants,
}

fn denied() -> (r: StoreError)
    ensures
        r.fault() == Fault::Refused(ErrorCode::Unauthorized),
{
    protocol(ErrorCode::Unauthorized, "authority access denied")
}

pub fn authorize(grants: &Grants, permission: Permission) -> (r: Result<(), StoreError>)
    ensures
        match r {
            Ok(_) => grants.allows(permission),
            Err(e) => !grants.allows(permission) && e.fault() == Fault::Refused(
                ErrorCode::Unauthorized,
            ),
        },
{
    if grants.permits(permission) {
        Ok(())
    } else {
        Err(denied())
    }
}

/// The bounds that an authority keeps to.
#[derive(Debug, Clone, Copy, PartialEq, Eq)]
pub struct StorePolicy {
    pub owners: Id,
    pub sessions: Id,
    pub sessions_per_owner: Id,
    pub session_limits: Limits,
}

/// What a session was created with.
#[derive(Debug, Clone, PartialEq, Eq)]
pub struct Binding {
    pub identity: SessionIdentity,
    pub creation_sequence: Id,
    pub policy: Policy,
    pub limits: Limits,
    pub results: bool,
    pub control_limit: ControlLimit,
    pub object_limit: Number,
}

impl Binding {
    pub open spec fn agrees(self, other: Binding) -> bool {
        &&& self.identity.agrees(other.identity)
        &&& self.creation_sequence == other.creation_sequence
        &&& self.policy == other.policy
        &&& self.limits == other.limits
        &&& self.results == other.results
        &&& self.control_limit == other.control_limit
        &&& self.object_limit == other.object_limit
    }

    pub fn duplicate(&self) -> (r: Self)
        ensures
            r.agrees(*self),
            self.agrees(r),
    {
        Binding {
            identity: self.identity.duplicate(),
            creation_sequence: self.creation_sequence,
            policy: self.policy,
            limits: self.limits,
            results: self.results,
            control_limit: self.control_limit,
            object_limit: self.object_limit,
        }
    }

    /// The message that announces the binding.
    pub open spec fn announcement(self, request: Id, c: Control) -> bool {
        c matches Control::Session(
            Session::Binding { request: q, authority, owner, generation, creation_sequence, policy, limits },
        ) && q == request && authority.0@ == self.identity.authority.0@ && owner.0@
            == self.identity.owner.0@ && generation == self.identity.generation
            && creation_sequence == self.creation_sequence && policy == self.policy && limits
            == self.limits
    }

    pub fn response(&self, request: Id) -> (r: Control)
        ensures
            self.announcement(request, r),
    {
        Control::Session(
            Session::Binding {
                request,
                authority: self.identity.authority.duplicate(),
                owner: self.identity.owner.duplicate(),
                generation: self.identity.generation,
                creation_sequence: self.creation_sequence,
                policy: self.policy,
                limits: self.limits,
            },
        )
    }
}

#[derive(Debug, Clone)]
pub struct OwnerRow {
    pub owner: IdentityLabel,
    pub last_creation: u64,
}

#[derive(Debug, Clone)]
pub struct SessionRow {
    pub binding: Binding,
    pub entities: u64,
    pub operations: u64,
    pub required_control: u64,
    pub required_object: u64,
    pub retiring: bool,
}

#[derive(Debug, Clone)]
pub struct ScopeRow {
    pub row: u64,
    pub generation: Id,
    pub scope: Number,
    pub producer: Producer,
    pub parent: Option<WorkKey>,
    pub last_entity: u64,
    pub declared: Number,
    pub seal: Option<Digest>,
    pub cancelled: bool,
    pub revoked: bool,
    pub summary: Option<ScopeSummary>,
}

/// A committed intent to give resources back.
#[derive(Debug, Clone, Copy, PartialEq, Eq, Structural)]
pub struct Release {
    pub input: bool,
    pub outputs: bool,
    pub at: Number,
}

/// What an admission holds of the executor and of the payload store.
#[derive(Debug, Clone, Copy, PartialEq, Eq)]
pub struct Job {
    pub stage: Number,
    pub lease_until: Option<Number>,
    pub executor_live: bool,
    pub input_live: bool,
    pub outputs_live: bool,
    pub release: Option<Release>,
}

#[derive(Debug, Clone)]
pub struct WorkRow {
    pub row: u64,
    pub generation: Id,
    pub revision: Id,
    pub view: WorkView,
    pub fence: Option<WorkFence>,
    pub job: Option<Job>,
}

#[derive(Debug, Clone)]
pub struct OperationRow {
    pub generation: Id,
    pub originator: Producer,
    pub receipt: OperationReceipt,
}

#[derive(Debug, Clone)]
pub struct RetirementRow {
    pub generation: Id,
    pub evidence: Proof,
}

/// Everything that an authority retains.
pub struct AuthorityStore {
    pub authority: IdentityLabel,
    /// Tells one authority's store from another's.
    pub store_id: u64,
    pub policy: StorePolicy,
    pub last_generation: u64,
    /// The greatest time that any committed change was made at.
    pub greatest: u64,
    pub owners: Vec<OwnerRow>,
    pub sessions: Vec<SessionRow>,
    pub scopes: Vec<ScopeRow>,
    pub work: Vec<WorkRow>,
    pub operations: Vec<OperationRow>,
    pub retirements: Vec<RetirementRow>,
}

/// The tables as sequences.
pub struct Tables {
    pub authority: IdentityLabel,
    pub store_id: u64,
    pub policy: StorePolicy,
    pub last_generation: u64,
    pub greatest: u64,
    pub owners: Seq<OwnerRow>,
    pub sessions: Seq<SessionRow>,
    pub scopes: Seq<ScopeRow>,
    pub work: Seq<WorkRow>,
    pub operations: Seq<OperationRow>,
    pub retirements: Seq<RetirementRow>,
}

impl View for AuthorityStore {
    type V = Tables;

    open spec fn view(&self) -> Tables {
        Tables {
            authority: self.authority,
            store_id: self.store_id,
            policy: self.policy,
            last_generation: self.last_generation,
            greatest: self.greatest,
            owners: self.owners@,
            sessions: self.sessions@,
            scopes: self.scopes@,
            work: self.work@,
            operations: self.operations@,
            retirements: self.retirements@,
        }
    }
}

/// The work that a row describes belongs to the scope.
pub open spec fn in_scope(generation: Id, scope: Number) -> spec_fn(WorkRow) -> bool {
    |r: WorkRow| r.generation == generation && r.view.work.scope == scope
}

pub open spec fn is_work(generation: Id, scope: Number, entity: Id) -> spec_fn(WorkRow) -> bool {
    |r: WorkRow|
        r.generation == generation && r.view.work.scope == scope && r.view.work.entity == entity
}

pub open spec fn is_scope(generation: Id, scope: Number) -> spec_fn(ScopeRow) -> bool {
    |r: ScopeRow| r.generation == generation && r.scope == scope
}

pub open spec fn is_session(generation: Id) -> spec_fn(SessionRow) -> bool {
    |r: SessionRow| r.binding.identity.generation == generation
}

pub open spec fn is_operation(generation: Id, originator: Producer, id: Seq<u8>) -> spec_fn(
    OperationRow,
) -> bool {
    |r: OperationRow|
        r.generation == generation && r.originator == originator && r.receipt.operation.0@ == id
}

pub open spec fn is_owner(owner: Seq<char>) -> spec_fn(OwnerRow) -> bool {
    |r: OwnerRow| r.owner.0@ == owner
}

pub open spec fn is_retirement(generation: Id) -> spec_fn(RetirementRow) -> bool {
    |r: RetirementRow| r.generation == generation
}

/// A later time, where it can be represented.
pub open spec fn later(at: Number, span: Duration) -> Option<Number> {
    if at.0 + span.0 <= MAX_NUMBER {
        Some(Number((at.0 + span.0) as u64))
    } else {
        None
    }
}

pub fn add_duration(at: Number, span: Duration) -> (r: Result<Number, StoreError>)
    ensures
        match r {
            Ok(n) => later(at, span) == Some(n),
            Err(e) => later(at, span) is None && e.fault() == Fault::Refused(
                ErrorCode::LimitExceeded,
            ),
        },
{
    match at.0.checked_add(span.0) {
        Some(n) => if n <= MAX_NUMBER {
            Ok(Number(n))
        } else {
            Err(protocol(ErrorCode::LimitExceeded, "time is not representable"))
        },
        None => Err(protocol(ErrorCode::LimitExceeded, "time is not representable")),
    }
}

pub fn increment(n: u64) -> (r: Result<u64, StoreError>)
    ensures
        match r {
            Ok(m) => m == n + 1 && m <= MAX_NUMBER,
            Err(e) => n >= MAX_NUMBER && e.fault() == Fault::Refused(ErrorCode::LimitExceeded),
        },
{
    if n >= MAX_NUMBER {
        Err(protocol(ErrorCode::LimitExceeded, "counter exhausted"))
    } else {
        Ok(n + 1)
    }
}

impl Tables {
    pub open spec fn session_at(self, generation: Id) -> int {
        table::index_where(self.sessions, is_session(generation))
    }

    pub open spec fn scope_at(self, generation: Id, scope: Number) -> int {
        table::index_where(self.scopes, is_scope(generation, scope))
    }

    pub open spec fn work_at(self, generation: Id, scope: Number, entity: Id) -> int {
        table::index_where(self.work, is_work(generation, scope, entity))
    }

    pub open spec fn operation_at(self, generation: Id, originator: Producer, id: Seq<u8>) -> int {
        table::index_where(self.operations, is_operation(generation, originator, id))
    }

    pub open spec fn owner_at(self, owner: Seq<char>) -> int {
        table::index_where(self.owners, is_owner(owner))
    }

    pub open spec fn retirement_at(self, generation: Id) -> int {
        table::index_where(self.retirements, is_retirement(generation))
    }

    /// The last creation number that the owner used.
    pub open spec fn last_creation(self, owner: Seq<char>) -> u64 {
        let i = self.owner_at(owner);
        if i < self.owners.len() {
            self.owners[i].last_creation
        } else {
            0
        }
    }

    /// A clock reading may be acted on: it is trusted, representable, and not behind any committed
    /// change.
    pub open spec fn safe(self, clock: ClockReading) -> bool {
        clock.trusted && clock.utc_ms.0 <= MAX_NUMBER && clock.utc_ms.0 >= self.greatest
    }

    /// The session was revoked by an operator.
    pub open spec fn revoked(self, generation: Id) -> bool {
        let i = self.scope_at(generation, Number(0));
        i < self.scopes.len() && self.scopes[i].revoked
    }

    /// Why an owner may not act in a session, if they may not.
    pub open spec fn session_fault(self, identity: SessionIdentity, grants: Grants, permission: Permission) -> Option<
        Fault,
    > {
        let i = self.session_at(identity.generation);
        if !grants.allows(permission) {
            Some(Fault::Refused(ErrorCode::Unauthorized))
        } else if !identity.valid() {
            Some(Fault::Refused(ErrorCode::FrameError))
        } else if !(identity.authority.0@ == self.authority.0@ && i < self.sessions.len()
            && self.sessions[i].binding.identity.owner.0@ == identity.owner.0@)
            || self.revoked(identity.generation) {
            Some(Fault::Refused(ErrorCode::Unauthorized))
        } else if self.sessions[i].retiring {
            Some(Fault::Refused(ErrorCode::Expired))
        } else {
            None
        }
    }

    /// The work of a key, or why it is not there. Work of the same number under another producer
    /// conflicts.
    pub open spec fn work_of(self, generation: Id, key: WorkKey) -> Result<int, Fault> {
        let i = self.work_at(generation, key.scope, key.entity);
        if i >= self.work.len() {
            Err(Fault::Refused(ErrorCode::NotFound))
        } else if self.work[i].view.work.producer != key.producer {
            Err(Fault::Refused(ErrorCode::Conflict))
        } else {
            Ok(i)
        }
    }

    /// Whether work may still be changed under a scope: neither the scope nor an ancestor is
    /// fenced. Child scope numbers strictly exceed those of their parents, so the ancestry ends.
    pub open spec fn open_fault(self, generation: Id, scope: Number) -> Option<Fault>
        decreases scope.0,
    {
        let i = self.scope_at(generation, scope);
        if i >= self.scopes.len() {
            Some(Fault::Refused(ErrorCode::NotFound))
        } else if self.scopes[i].cancelled {
            Some(Fault::Refused(ErrorCode::Cancelled))
        } else {
            match self.scopes[i].parent {
                None => None,
                Some(parent) => if parent.scope.0 >= scope.0 {
                    Some(Fault::Corrupt)
                } else {
                    match self.work_of(generation, parent) {
                        Err(fault) => Some(fault),
                        Ok(j) => if fence_state(self.work[j].view.state) {
                            Some(Fault::Refused(ErrorCode::Cancelled))
                        } else {
                            self.open_fault(generation, parent.scope)
                        },
                    }
                },
            }
        }
    }

    /// The members of a scope in the order in which they were declared.
    pub open spec fn members(self, generation: Id, scope: Number) -> Seq<WorkRow> {
        table::rows_where(self.work, in_scope(generation, scope))
    }

    pub open spec fn member_ids(self, generation: Id, scope: Number) -> Seq<Id> {
        self.members(generation, scope).map_values(|r: WorkRow| r.view.work.entity)
    }

    /// The tables are arranged, and every scope that is closed is sealed by what its summary says.
    pub open spec fn well_formed(self) -> bool {
        &&& self.arranged()
        &&& forall|k: int| 0 <= k < self.scopes.len() ==> closed_sealed(#[trigger] self.scopes[k])
    }

    /// Rows stand in the order of their numbers, members of a scope in the order of their entities,
    /// none is above the scope's high-water mark, no scope is there twice, no generation is above the
    /// last one given out, and the accounts hold.
    pub open spec fn arranged(self) -> bool {
        &&& forall|i: int, j: int|
            0 <= i < j < self.work.len() ==> (#[trigger] self.work[i]).row < (
            #[trigger] self.work[j]).row
        &&& forall|i: int, j: int|
            0 <= i < j < self.scopes.len() ==> (#[trigger] self.scopes[i]).row < (
            #[trigger] self.scopes[j]).row
        &&& forall|i: int, j: int|
            0 <= i < j < self.work.len() && (#[trigger] self.work[i]).generation == (
            #[trigger] self.work[j]).generation && self.work[i].view.work.scope
                == self.work[j].view.work.scope ==> self.work[i].view.work.entity.0
                < self.work[j].view.work.entity.0
        &&& forall|i: int, k: int|
            0 <= i < self.work.len() && 0 <= k < self.scopes.len() && (
            #[trigger] self.work[i]).generation == (#[trigger] self.scopes[k]).generation
                && self.work[i].view.work.scope == self.scopes[k].scope
                ==> self.work[i].view.work.entity.0 <= self.scopes[k].last_entity
        &&& forall|i: int, j: int|
            0 <= i < j < self.scopes.len() && (#[trigger] self.scopes[i]).generation == (
            #[trigger] self.scopes[j]).generation ==> self.scopes[i].scope != self.scopes[j].scope
        &&& forall|i: int|
            0 <= i < self.scopes.len() ==> (#[trigger] self.scopes[i]).generation.0
                <= self.last_generation
        &&& forall|i: int|
            0 <= i < self.work.len() ==> (#[trigger] self.work[i]).generation.0
                <= self.last_generation
        &&& self.work.len() > 0 ==> self.work.last().row <= MAX_NUMBER
        &&& self.scopes.len() > 0 ==> self.scopes.last().row <= MAX_NUMBER
        &&& self.accounted()
    }

    /// The session is there, and its retirement was not committed.
    pub open spec fn active(self, generation: Id) -> bool {
        let i = self.session_at(generation);
        i < self.sessions.len() && !self.sessions[i].retiring
    }

    /// The scope has declared as many members as it has, and the summary that closed it is a valid one
    /// of that scope: it counts as many members as it says were declared. The rows of a session that retires go one by one.
    pub open spec fn counted(self, row: ScopeRow) -> bool {
        &&& self.active(row.generation) ==> row.declared.0 == self.members(
            row.generation,
            row.scope,
        ).len()
        &&& row.summary matches Some(s) ==> s.scope == row.scope && s.valid()
    }

    /// The session has a name and a creation number that were given out.
    pub open spec fn named(self, row: SessionRow) -> bool {
        &&& row.binding.identity.valid()
        &&& row.binding.identity.generation.0 <= self.last_generation
        &&& row.binding.creation_sequence.valid()
        &&& row.binding.creation_sequence.0 <= self.last_creation(row.binding.identity.owner.0@)
        &&& row.binding.policy.receipt_retention_ms.valid()
    }

    /// The work has the producer of its scope, and the scope that was opened for it is there.
    pub open spec fn housed(self, row: WorkRow) -> bool {
        let k = self.scope_at(row.generation, row.view.work.scope);
        &&& k < self.scopes.len() ==> self.scopes[k].producer == row.view.work.producer
        &&& row.view.child matches Some(child) ==> self.scope_at(
            row.generation,
            Number(child.scope.0),
        ) < self.scopes.len()
    }

    /// The view obeys every rule of the protocol and of the profile of its session, a fence decides
    /// on an end that is no success, what was admitted has a job and was admitted in the past, and the
    /// scopes that the work names are there.
    pub open spec fn profiled(self, row: WorkRow) -> bool {
        let i = self.session_at(row.generation);
        &&& row.view.valid()
        &&& self.housed(row)
        &&& row.fence matches Some(f) ==> f.outcome.0 == State::CANCELLED || f.outcome.0
            == State::SKIPPED
        &&& row.view.admitted_at matches Some(at) ==> at.0 <= self.greatest && row.job is Some
        &&& i < self.sessions.len() && row.view.state.0 == State::SUCCEEDED ==> (
        row.view.manifest is Some) == self.sessions[i].binding.results
    }

    /// Sessions stand in the order of their generations and each has a name that was given out, scopes count their members, and views keep to the profile of their session.
    #[verifier::opaque]
    pub open spec fn accounted(self) -> bool {
        &&& forall|i: int, j: int|
            0 <= i < j < self.sessions.len() ==> (
            #[trigger] self.sessions[i]).binding.identity.generation.0 < (
            #[trigger] self.sessions[j]).binding.identity.generation.0
        &&& forall|i: int|
            0 <= i < self.sessions.len() ==> self.named(#[trigger] self.sessions[i])
        &&& forall|k: int| 0 <= k < self.scopes.len() ==> self.counted(#[trigger] self.scopes[k])
        &&& forall|j: int| 0 <= j < self.work.len() ==> self.profiled(#[trigger] self.work[j])
    }
}

/// A scope that is closed is sealed, and the summary says by what.
pub open spec fn closed_sealed(row: ScopeRow) -> bool {
    row.summary matches Some(s) ==> row.seal is Some && (row.seal->0).0@ == s.seal.0@
}

/// States in which a fence has already decided the outcome.
pub open spec fn fence_state(state: State) -> bool {
    state.0 == State::CANCELLING || state.0 == State::CANCELLED || state.0 == State::SKIPPED
}

impl AuthorityStore {
    /// An authority that has retained nothing yet.
    pub fn initialize(authority: IdentityLabel, store_id: u64, policy: StorePolicy) -> (r: Self)
        ensures
            r@.well_formed(),
            r@ == (Tables {
                authority,
                store_id,
                policy,
                last_generation: 0,
                greatest: 0,
                owners: Seq::empty(),
                sessions: Seq::empty(),
                scopes: Seq::empty(),
                work: Seq::empty(),
                operations: Seq::empty(),
                retirements: Seq::empty(),
            }),
    {
        let r = AuthorityStore {
            authority,
            store_id,
            policy,
            last_generation: 0,
            greatest: 0,
            owners: Vec::new(),
            sessions: Vec::new(),
            scopes: Vec::new(),
            work: Vec::new(),
            operations: Vec::new(),
            retirements: Vec::new(),
        };
        assert(r@.owners =~= Seq::empty());
        assert(r@.sessions =~= Seq::empty());
        assert(r@.scopes =~= Seq::empty());
        assert(r@.work =~= Seq::empty());
        assert(r@.operations =~= Seq::empty());
        assert(r@.retirements =~= Seq::empty());
        reveal(Tables::accounted);
        r
    }

    pub fn find_session(&self, generation: Id) -> (r: Option<usize>)
        ensures
            match r {
                Some(i) => i == self@.session_at(generation) && i < self@.sessions.len(),
                None => self@.session_at(generation) == self@.sessions.len(),
            },
            self@.session_at(generation) <= self@.sessions.len(),
    {
        let mut i: usize = 0;
        let ghost p = is_session(generation);
        while i < self.sessions.len()
            invariant
                i <= self.sessions@.len(),
                p == is_session(generation),
                forall|j: int| 0 <= j < i ==> !p(#[trigger] self.sessions@[j]),
            decreases self.sessions@.len() - i,
        {
            if self.sessions[i].binding.identity.generation == generation {
                proof {
                    table::lemma_index_unique(self.sessions@, p, i as int);
                }
                return Some(i);
            }
            i += 1;
        }
        proof {
            table::lemma_index_unique(self.sessions@, p, i as int);
        }
        None
    }

    pub fn find_scope(&self, generation: Id, scope: Number) -> (r: Option<usize>)
        ensures
            match r {
                Some(i) => i == self@.scope_at(generation, scope) && i < self@.scopes.len()
                    && self@.scopes[i as int].generation == generation && self@.scopes[i as int].scope
                    == scope,
                None => self@.scope_at(generation, scope) == self@.scopes.len(),
            },
    {
        let mut i: usize = 0;
        let ghost p = is_scope(generation, scope);
        while i < self.scopes.len()
            invariant
                i <= self.scopes@.len(),
                p == is_scope(generation, scope),
                forall|j: int| 0 <= j < i ==> !p(#[trigger] self.scopes@[j]),
            decreases self.scopes@.len() - i,
        {
            if self.scopes[i].generation == generation && self.scopes[i].scope == scope {
                proof {
                    table::lemma_index_unique(self.scopes@, p, i as int);
                }
                return Some(i);
            }
            i += 1;
        }
        proof {
            table::lemma_index_unique(self.scopes@, p, i as int);
        }
        None
    }

    /// The retained scope of a number.
    pub fn load_scope(&self, generation: Id, scope: Number) -> (r: Result<usize, StoreError>)
        ensures
            match r {
                Ok(i) => i == self@.scope_at(generation, scope) && i < self@.scopes.len()
                    && self@.scopes[i as int].generation == generation && self@.scopes[i as int].scope
                    == scope,
                Err(e) => self@.scope_at(generation, scope) >= self@.scopes.len() && e.fault()
                    == Fault::Refused(ErrorCode::NotFound),
            },
    {
        match self.find_scope(generation, scope) {
            Some(i) => Ok(i),
            None => Err(protocol(ErrorCode::NotFound, "scope not declared")),
        }
    }

    pub fn find_owner(&self, owner: &IdentityLabel) -> (r: Option<usize>)
        ensures
            match r {
                Some(i) => i == self@.owner_at(owner.0@) && i < self@.owners.len(),
                None => self@.owner_at(owner.0@) == self@.owners.len(),
            },
    {
        let mut i: usize = 0;
        let ghost p = is_owner(owner.0@);
        while i < self.owners.len()
            invariant
                i <= self.owners@.len(),
                p == is_owner(owner.0@),
                forall|j: int| 0 <= j < i ==> !p(#[trigger] self.owners@[j]),
            decreases self.owners@.len() - i,
        {
            if self.owners[i].owner.same(owner) {
                proof {
                    table::lemma_index_unique(self.owners@, p, i as int);
                }
                return Some(i);
            }
            i += 1;
        }
        proof {
            table::lemma_index_unique(self.owners@, p, i as int);
        }
        None
    }

    pub fn find_retirement(&self, generation: Id) -> (r: Option<usize>)
        ensures
            match r {
                Some(i) => i == self@.retirement_at(generation) && i < self@.retirements.len(),
                None => self@.retirement_at(generation) == self@.retirements.len(),
            },
    {
        let mut i: usize = 0;
        let ghost p = is_retirement(generation);
        while i < self.retirements.len()
            invariant
                i <= self.retirements@.len(),
                p == is_retirement(generation),
                forall|j: int| 0 <= j < i ==> !p(#[trigger] self.retirements@[j]),
            decreases self.retirements@.len() - i,
        {
            if self.retirements[i].generation == generation {
                proof {
                    table::lemma_index_unique(self.retirements@, p, i as int);
                }
                return Some(i);
            }
            i += 1;
        }
        proof {
            table::lemma_index_unique(self.retirements@, p, i as int);
        }
        None
    }

    pub fn find_operation(&self, generation: Id, originator: Producer, id: OperationId) -> (r: Option<
        usize,
    >)
        ensures
            match r {
                Some(i) => i == self@.operation_at(generation, originator, id.0@) && i
                    < self@.operations.len(),
                None => self@.operation_at(generation, originator, id.0@)
                    == self@.operations.len(),
            },
    {
        let mut i: usize = 0;
        let ghost p = is_operation(generation, originator, id.0@);
        while i < self.operations.len()
            invariant
                i <= self.operations@.len(),
                p == is_operation(generation, originator, id.0@),
                forall|j: int| 0 <= j < i ==> !p(#[trigger] self.operations@[j]),
            decreases self.operations@.len() - i,
        {
            if self.operations[i].generation == generation && self.operations[i].originator
                == originator && self.operations[i].receipt.operation.same(&id) {
                proof {
                    table::lemma_index_unique(self.operations@, p, i as int);
                }
                return Some(i);
            }
            i += 1;
        }
        proof {
            table::lemma_index_unique(self.operations@, p, i as int);
        }
        None
    }

    /// The retained work of a key.
    pub fn find_work(&self, generation: Id, key: &WorkKey) -> (r: Result<usize, StoreError>)
        ensures
            match r {
                Ok(i) => self@.work_of(generation, *key) == Ok::<int, Fault>(i as int) && i
                    < self@.work.len() && self@.work[i as int].generation == generation
                    && self@.work[i as int].view.work == *key,
                Err(e) => self@.work_of(generation, *key) == Err::<int, Fault>(e.fault()),
            },
    {
        let mut i: usize = 0;
        let ghost p = is_work(generation, key.scope, key.entity);
        while i < self.work.len()
            invariant
                i <= self.work@.len(),
                p == is_work(generation, key.scope, key.entity),
                forall|j: int| 0 <= j < i ==> !p(#[trigger] self.work@[j]),
            decreases self.work@.len() - i,
        {
            if self.work[i].generation == generation && self.work[i].view.work.scope == key.scope
                && self.work[i].view.work.entity == key.entity {
                proof {
                    table::lemma_index_unique(self.work@, p, i as int);
                }
                if self.work[i].view.work.producer != key.producer {
                    return Err(protocol(ErrorCode::Conflict, "work producer mismatch"));
                }
                return Ok(i);
            }
            i += 1;
        }
        proof {
            table::lemma_index_unique(self.work@, p, i as int);
        }
        Err(protocol(ErrorCode::NotFound, "work not declared"))
    }

    /// Refuses where a fence of the scope or of an ancestor was accepted. One scope is inspected
    /// at a time; corrupt ancestry cannot cycle.
    pub fn unfenced(&self, generation: Id, scope: Number) -> (r: Result<(), StoreError>)
        ensures
            match r {
                Ok(_) => self@.open_fault(generation, scope) is None,
                Err(e) => self@.open_fault(generation, scope) == Some(e.fault()),
            },
    {
        let mut current = scope;
        loop
            invariant
                self@.open_fault(generation, current) == self@.open_fault(generation, scope),
            decreases current.0,
        {
            let i = self.load_scope(generation, current)?;
            if self.scopes[i].cancelled {
                return Err(protocol(ErrorCode::Cancelled, "scope cancellation fence accepted"));
            }
            let parent = match self.scopes[i].parent {
                Some(parent) => parent,
                None => {
                    return Ok(());
                },
            };
            if parent.scope.0 >= current.0 {
                return Err(StoreError::Corrupt("invalid scope ancestry"));
            }
            let j = match self.find_work(generation, &parent) {
                Ok(j) => j,
                Err(e) => {
                    return Err(e);
                },
            };
            let state = self.work[j].view.state;
            if state.0 == State::CANCELLING || state.0 == State::CANCELLED || state.0
                == State::SKIPPED {
                return Err(
                    protocol(ErrorCode::Cancelled, "ancestor cancellation fence accepted"),
                );
            }
            current = parent.scope;
        }
    }

    /// Whether a fence of the scope or of an ancestor was accepted.
    pub fn fenced(&self, generation: Id, scope: Number) -> (r: Result<bool, StoreError>)
        ensures
            match r {
                Ok(false) => self@.open_fault(generation, scope) is None,
                Ok(true) => self@.open_fault(generation, scope) == Some(
                    Fault::Refused(ErrorCode::Cancelled),
                ),
                Err(e) => self@.open_fault(generation, scope) == Some(e.fault()) && e.fault()
                    != Fault::Refused(ErrorCode::Cancelled),
            },
    {
        match self.unfenced(generation, scope) {
            Ok(_) => Ok(false),
            Err(e) => match e {
                StoreError::Protocol(error) => if error.code == ErrorCode::Cancelled {
                    Ok(true)
                } else {
                    Err(e)
                },
                StoreError::Corrupt(_) => Err(e),
            },
        }
    }

    fn is_revoked(&self, generation: Id) -> (r: bool)
        ensures
            r == self@.revoked(generation),
    {
        match self.find_scope(generation, Number(0)) {
            Some(i) => self.scopes[i].revoked,
            None => false,
        }
    }

    /// Finds the session that the owner may act in. Authorization precedes every lookup.
    pub fn authorize_session(
        &self,
        identity: &SessionIdentity,
        grants: &Grants,
        permission: Permission,
    ) -> (r: Result<usize, StoreError>)
        ensures
            match r {
                Ok(i) => self@.session_fault(*identity, *grants, permission) is None && i
                    == self@.session_at(identity.generation) && i < self@.sessions.len(),
                Err(e) => self@.session_fault(*identity, *grants, permission) == Some(e.fault()),
            },
    {
        authorize(grants, permission)?;
        let named = identity.authority.check().is_ok() && identity.owner.check().is_ok()
            && identity.generation.check().is_ok();
        if !named {
            return Err(protocol(ErrorCode::FrameError, "invalid session identity"));
        }
        if !identity.authority.same(&self.authority) {
            return Err(denied());
        }
        let i = match self.find_session(identity.generation) {
            Some(i) => i,
            None => {
                return Err(denied());
            },
        };
        if !self.sessions[i].binding.identity.owner.same(&identity.owner) || self.is_revoked(
            identity.generation,
        ) {
            return Err(denied());
        }
        if self.sessions[i].retiring {
            return Err(protocol(ErrorCode::Expired, "session retirement committed"));
        }
        Ok(i)
    }

    /// The time of a change: refused where the clock is untrusted or behind.
    pub fn check_clock(&self, clock: ClockReading) -> (r: Result<Number, StoreError>)
        ensures
            match r {
                Ok(now) => self@.safe(clock) && now == clock.utc_ms,
                Err(e) => !self@.safe(clock) && e.fault() == Fault::Refused(
                    ErrorCode::ClockUnsafe,
                ),
            },
    {
        if clock.trusted && clock.utc_ms.0 <= MAX_NUMBER && clock.utc_ms.0 >= self.greatest {
            Ok(clock.utc_ms)
        } else {
            Err(protocol(ErrorCode::ClockUnsafe, "authority clock is unsafe"))
        }
    }
}

} // verus!
