use pipestream::v2::authority::evidence::{Issuer, Proof};
use pipestream::v2::authority::reconcile::{ReconcileCursor, ReconcileProgress};
use pipestream::v2::authority::results::{
    ReadCursor, ReadMaintenance, ReadStatus, ResultService, Storage,
};
use pipestream::v2::authority::retention::{RetentionCursor, RetentionProgress};
use pipestream::v2::authority::retirement::{PayloadStatus, RetirementCursor, RetirementProgress};
use pipestream::v2::authority::store::{
    increment, Access, AuthorityStore, Binding, ClockReading, Grants, Job, OwnerRow, Release, ScopeRow,
    StoreError, StorePolicy,
};
use pipestream::v2::commitments::{
    empty_status_root, scope_seal, ScopeSeal, SessionIdentity, StatusLeaf, StatusRoot,
};
use pipestream::v2::error::{ErrorCode, DURABLE_WORK, MAX_NUMBER, RESULT_DELIVERY};
use pipestream::v2::labels::{ApplicationLabel, Detail, Digest, IdentityLabel, OperationId};
use pipestream::v2::messages::{Control, ResultMessage, Scope};
use pipestream::v2::negotiation::Capabilities;
use pipestream::v2::numbers::{
    ConcurrencyLimit, ControlLimit, DiagnosticCode, Disposition, Duration, Id, IdleMs, LifetimeMs,
    Literal, Number, OutputIndex, PageLimit, Producer, ProfileId, ResponseFlag, State,
};
use pipestream::v2::records::{
    ChildScope, Counts, Diagnostic, Input, Limits, Manifest, OperationReceipt, Outcome, Output,
    Policy, ScopeEntry, ScopeSummary, WorkKey, WorkView,
};
use pipestream::v2::uri::ResultLocator;
use pipestream::v2::wire;
use std::cell::{Cell, RefCell, RefMut};
use std::collections::hash_map::RandomState;
use std::hash::{BuildHasher, Hasher};
use std::rc::Rc;

type Result<T> = std::result::Result<T, StoreError>;

struct TestClock {
    now: Cell<u64>,
    trusted: Cell<bool>,
}

/// What the authorization provider answers. Where it withdraws, it denies at the second question.
struct Auth {
    caller: Cell<bool>,
    skip: Cell<bool>,
    revoke: Cell<bool>,
    withdraw: Cell<bool>,
}

impl Auth {
    fn grants(&self, owner: &IdentityLabel) -> Grants {
        let known = matches!(owner.0.as_str(), "alice" | "bob");
        let mut grants = Grants::uniform(known && self.caller.get());
        grants.skip = grants.skip && self.skip.get();
        grants.revoke = known && self.revoke.get();
        grants
    }
    fn access(&self, owner: &IdentityLabel) -> Access {
        let before = self.grants(owner);
        let after = if self.withdraw.get() { Grants::uniform(false) } else { before };
        Access { before, after }
    }
}

fn policy() -> StorePolicy {
    StorePolicy {
        owners: Id(2),
        sessions: Id(10),
        sessions_per_owner: Id(5),
        session_limits: Limits {
            scopes: Id(100),
            entities: Id(1000),
            operations: Id(100),
            retained_input_bytes: Number(1 << 20),
            retained_output_bytes: Number(1 << 20),
            active_jobs: Id(100),
        },
    }
}

fn retention() -> Policy {
    Policy {
        execution_limit_ms: Duration(10000),
        output_retention_ms: Duration(20000),
        receipt_retention_ms: Duration(30000),
    }
}

fn caps() -> Capabilities {
    Capabilities {
        response: ResponseFlag(1),
        supported: vec![
            ProfileId(DURABLE_WORK.into()),
            ProfileId(RESULT_DELIVERY.into()),
        ],
        required: vec![],
        control_limit: ControlLimit(8192),
        stream_limit: ConcurrencyLimit(8),
        pending_limit: ConcurrencyLimit(8),
        object_limit: Number(1 << 20),
        stream_idle_ms: IdleMs(1000),
        stream_lifetime_ms: LifetimeMs(10000),
    }
}

fn owner(name: &str) -> IdentityLabel {
    IdentityLabel(name.to_owned())
}

fn root_op(value: u8) -> OperationId {
    OperationId([value; 16])
}

fn root_key(entity: u64) -> WorkKey {
    key(0, entity)
}

fn op(value: u64) -> OperationId {
    let mut bytes = [0; 16];
    bytes[..8].copy_from_slice(&value.to_be_bytes());
    OperationId(bytes)
}

fn key(scope: u64, entity: u64) -> WorkKey {
    WorkKey { scope: Number(scope), producer: Producer(0), entity: Id(entity) }
}

fn refuse<T>(result: Result<T>, code: ErrorCode) {
    match result {
        Err(StoreError::Protocol(error)) => assert_eq!(error.code, code),
        Err(error) => panic!("expected {code:?}, got {error:?}"),
        Ok(_) => panic!("expected {code:?}"),
    }
}

/// The authority with its clock and its authorization provider.
#[derive(Clone)]
struct Store {
    inner: Rc<RefCell<AuthorityStore>>,
    clock: Rc<TestClock>,
    auth: Rc<Auth>,
}

impl Store {
    fn tables(&self) -> RefMut<'_, AuthorityStore> {
        self.inner.borrow_mut()
    }
    fn clock(&self) -> ClockReading {
        ClockReading { utc_ms: Number(self.clock.now.get()), trusted: self.clock.trusted.get() }
    }
    fn next_creation(&self, owner: &IdentityLabel) -> Result<Id> {
        self.tables().next_creation(owner, &self.auth.grants(owner))
    }
    fn create_session(&self, owner: &IdentityLabel, sequence: Id, policy: &Policy, caps: &Capabilities) -> Result<Binding> {
        let access = self.auth.access(owner);
        self.tables().create_session(owner, sequence, policy, caps, &access, self.clock())
    }
    fn attach_session(&self, owner: &IdentityLabel, expected: &SessionIdentity, caps: &Capabilities) -> Result<Binding> {
        self.tables().attach_session(owner, expected, caps, &self.auth.grants(owner))
    }
    fn declare(&self, identity: &SessionIdentity, id: OperationId, scope: Number, entities: &[Id], sealed: bool) -> Result<OperationReceipt> {
        let access = self.auth.access(&identity.owner);
        self.tables().declare(identity, id, scope, &entities.to_vec(), sealed, &access, self.clock())
    }
    fn operation(&self, identity: &SessionIdentity, id: OperationId) -> Result<OperationReceipt> {
        self.tables().operation(identity, id, &self.auth.grants(&identity.owner))
    }
    fn work_view(&self, identity: &SessionIdentity, key: &WorkKey, after: Number) -> Result<(Id, WorkView)> {
        self.tables().work_view(identity, key, after, &self.auth.grants(&identity.owner))
    }
    fn scope_page(&self, identity: &SessionIdentity, request: Id, scope: Number, after: Number, limit: PageLimit) -> Result<Control> {
        self.tables().scope_page(identity, request, scope, after, limit, &self.auth.grants(&identity.owner))
    }
    fn checkpoint(&self, identity: &SessionIdentity, scope: Number, expected: Digest) -> Result<Option<ScopeSummary>> {
        self.tables().checkpoint(identity, scope, expected, &self.auth.grants(&identity.owner))
    }
    fn cancel_work(&self, identity: &SessionIdentity, id: OperationId, key: &WorkKey) -> Result<OperationReceipt> {
        let access = self.auth.access(&identity.owner);
        self.tables().cancel_work(identity, id, key, &access, self.clock())
    }
    fn skip_work(&self, identity: &SessionIdentity, id: OperationId, key: &WorkKey) -> Result<OperationReceipt> {
        let access = self.auth.access(&identity.owner);
        self.tables().skip_work(identity, id, key, &access, self.clock())
    }
    fn cancel_scope(&self, identity: &SessionIdentity, id: OperationId, scope: Number) -> Result<OperationReceipt> {
        let access = self.auth.access(&identity.owner);
        self.tables().cancel_scope(identity, id, scope, &access, self.clock())
    }
    fn revoke_session(&self, identity: &SessionIdentity) -> Result<()> {
        let access = self.auth.access(&identity.owner);
        self.tables().revoke_session(identity, &access, self.clock())
    }
    fn reconcile(&self, cursor: &mut ReconcileCursor, limit: usize) -> Result<ReconcileProgress> {
        let clock = self.clock();
        self.tables().reconcile(cursor, limit, clock, clock)
    }
}

/// The tables as they are read back, row by row.
fn read_back(tables: &AuthorityStore) -> AuthorityStore {
    AuthorityStore {
        authority: tables.authority.clone(),
        store_id: tables.store_id,
        policy: tables.policy,
        last_generation: tables.last_generation,
        greatest: tables.greatest,
        owners: tables.owners.clone(),
        sessions: tables.sessions.clone(),
        scopes: tables.scopes.clone(),
        work: tables.work.clone(),
        operations: tables.operations.clone(),
        retirements: tables.retirements.clone(),
    }
}

/// Nothing but rows that were looked over is gone on with.
fn reopen(store: &Store) -> Store {
    let read = read_back(&store.tables());
    assert!(read.is_well_formed());
    *store.tables() = read;
    store.clone()
}

struct Fixture {
    store: Store,
    clock: Rc<TestClock>,
    auth: Rc<Auth>,
}

impl Fixture {
    fn with_policy(policy: StorePolicy) -> Self {
        let clock = Rc::new(TestClock { now: Cell::new(1000), trusted: Cell::new(true) });
        let auth = Rc::new(Auth {
            caller: Cell::new(true),
            skip: Cell::new(true),
            revoke: Cell::new(true),
            withdraw: Cell::new(false),
        });
        let store_id = RandomState::new().build_hasher().finish();
        let inner = AuthorityStore::initialize(owner("test-authority"), store_id, policy);
        let store = Store { inner: Rc::new(RefCell::new(inner)), clock: clock.clone(), auth: auth.clone() };
        Self { store, clock, auth }
    }
    fn new() -> Self {
        Self::with_policy(policy())
    }
    fn create(&self) -> Binding {
        self.store.create_session(&owner("alice"), Id(1), &retention(), &caps()).unwrap()
    }
    /// Another process that reads the same rows.
    fn reopen(&self) -> Store {
        reopen(&self.store)
    }
}

/// One session whose work is admitted and run by hand.
struct Session {
    store: Store,
    binding: Binding,
    clock: Rc<TestClock>,
    auth: Rc<Auth>,
    next_op: Cell<u64>,
}

impl Session {
    fn new() -> Self {
        let fixture = Fixture::new();
        let binding = fixture.create();
        Self {
            store: fixture.store,
            binding,
            clock: fixture.clock,
            auth: fixture.auth,
            next_op: Cell::new(1),
        }
    }
    fn declare(&self, scope: u64, entities: &[u64], seal: bool) {
        let operation = op(self.next_op.replace(self.next_op.get() + 1));
        let entities: Vec<Id> = entities.iter().copied().map(Id).collect();
        self.store
            .declare(&self.binding.identity, operation, Number(scope), &entities, seal)
            .unwrap();
    }
    fn row(&self, work: &WorkKey) -> usize {
        self.store.tables().find_work(self.binding.identity.generation, work).unwrap()
    }
    fn admission(&self, work: WorkKey, mode: u64, execution_ms: u64) -> WorkView {
        let row = self.row(&work);
        let now = self.clock.now.get();
        let mut tables = self.store.tables();
        let mut child = None;
        if mode != 0 {
            let scope = tables.scopes.len() as u64;
            let producer = Producer(mode - 1);
            child = Some(ChildScope { scope: Id(scope), producer });
            let last = tables.scopes.last().unwrap().row;
            tables.scopes.push(ScopeRow {
                row: last + 1,
                generation: self.binding.identity.generation,
                scope: Number(scope),
                producer,
                parent: Some(work),
                last_entity: 0,
                declared: Number(0),
                seal: None,
                cancelled: false,
                revoked: false,
                summary: None,
            });
        }
        let admitted = &mut tables.work[row];
        admitted.revision.0 += 1;
        admitted.view.state = State(State::ACTIVE);
        admitted.view.attempt = Number(1);
        admitted.view.input = Some(input());
        admitted.view.admitted_at = Some(Number(now));
        admitted.view.deadline = Some(Number(now + execution_ms));
        admitted.view.child = child;
        admitted.job = Some(Job {
            stage: Number(1),
            lease_until: None,
            executor_live: false,
            input_live: true,
            outputs_live: true,
            release: None,
        });
        admitted.view.clone()
    }
    fn wait_for_retry(&self, work: &WorkKey) {
        let row = self.row(work);
        let mut tables = self.store.tables();
        tables.work[row].view.state = State(State::AWAITING_RETRY);
        tables.work[row].view.diagnostic = Some(Diagnostic {
            code: DiagnosticCode(0),
            detail: Detail("retryable application failure".into()),
        });
    }
    fn run(&self, work: &WorkKey) -> Result<WorkView> {
        let row = self.row(work);
        let now = self.clock.now.get();
        let mut tables = self.store.tables();
        let view = &mut tables.work[row].view;
        view.state = State(State::SUCCEEDED);
        view.terminal_at = Some(Number(now));
        view.receipt_until = Some(Number(now + 30000));
        view.output_until = Some(Number(now + 20000));
        view.manifest = Some(Manifest {
            version: Literal,
            authority: self.binding.identity.authority.clone(),
            owner: self.binding.identity.owner.clone(),
            generation: self.binding.identity.generation,
            work: *work,
            attempt: Id(1),
            input_sha256: input().sha256,
            committed_at: Number(now),
            available_until: Number(now + 20000),
            outputs: vec![Output {
                index: OutputIndex(0),
                length: Number(3),
                sha256: Digest([9; 32]),
                content_type: ApplicationLabel("text/plain".into()),
                locator: ResultLocator(format!(
                    "pipestream://results.example:7443/v2/sessions/{}/scopes/{}/producers/{}/entities/{}/attempts/1/outputs/0",
                    self.binding.identity.generation.0, work.scope.0, work.producer.0, work.entity.0
                )),
            }],
        });
        Ok(view.clone())
    }
    fn view(&self, work: &WorkKey) -> WorkView {
        self.store.work_view(&self.binding.identity, work, Number(0)).unwrap().1
    }
    fn raw_view(&self, work: &WorkKey) -> WorkView {
        let row = self.row(work);
        self.store.tables().work[row].view.clone()
    }
    fn job(&self, work: &WorkKey) -> Job {
        let row = self.row(work);
        self.store.tables().work[row].job.unwrap()
    }
    fn summary(&self, scope: u64) -> Option<ScopeSummary> {
        self.store.tables().closed(self.binding.identity.generation, Number(scope)).unwrap()
    }
    fn close(&self, limit: usize) -> ScopeSummary {
        let mut cursor = ReconcileCursor::default();
        for _ in 0..5000 {
            if let Some(summary) = self.summary(0) {
                return summary;
            }
            let progress = self.store.reconcile(&mut cursor, limit).unwrap();
            assert!(progress.inspected_work <= limit && progress.inspected_members <= limit);
        }
        panic!("root did not close");
    }
    fn reopen(&self) -> Store {
        reopen(&self.store)
    }
}

fn input() -> Input {
    Input {
        length: Number(3),
        sha256: Digest([8; 32]),
        content_type: ApplicationLabel("text/plain".into()),
    }
}

#[test]
fn creation_replays_after_reopen_without_reissuing_identity() {
    let fixture = Fixture::new();
    assert_eq!(fixture.store.next_creation(&owner("alice")).unwrap(), Id(1));
    let binding = fixture.create();
    let reopened = fixture.reopen();
    assert_eq!(
        reopened
            .create_session(&owner("alice"), Id(1), &retention(), &caps())
            .unwrap(),
        binding
    );
    assert_eq!(reopened.next_creation(&owner("alice")).unwrap(), Id(2));
    let bob = reopened
        .create_session(&owner("bob"), Id(1), &retention(), &caps())
        .unwrap();
    assert_eq!(bob.identity.generation.0, binding.identity.generation.0 + 1);
    let second = reopened
        .create_session(&owner("alice"), Id(2), &retention(), &caps())
        .unwrap();
    assert_eq!(second.identity.generation.0, bob.identity.generation.0 + 1);
}

#[test]
fn creation_refuses_changed_policy_profile_and_future_sequence() {
    let fixture = Fixture::new();
    let binding = fixture.create();
    let mut changed = retention();
    changed.receipt_retention_ms = Duration(999);
    refuse(
        fixture.store.create_session(&owner("alice"), Id(1), &changed, &caps()),
        ErrorCode::Conflict,
    );
    refuse(
        fixture.store.create_session(&owner("alice"), Id(3), &retention(), &caps()),
        ErrorCode::Conflict,
    );
    let mut no_results = caps();
    no_results.supported.pop();
    refuse(
        fixture.store.create_session(&owner("alice"), Id(1), &retention(), &no_results),
        ErrorCode::ExtensionUnsupported,
    );
    refuse(
        fixture.store.attach_session(&owner("alice"), &binding.identity, &no_results),
        ErrorCode::ExtensionUnsupported,
    );
    let mut smaller = caps();
    smaller.control_limit = ControlLimit(4096);
    smaller.object_limit = Number(0);
    assert_eq!(
        fixture.store.attach_session(&owner("alice"), &binding.identity, &smaller)
            .unwrap(),
        binding
    );
    assert_eq!(fixture.store.next_creation(&owner("alice")).unwrap(), Id(2));
}

#[test]
fn authorization_precedes_lookup_and_revocation_denies_replay() {
    let fixture = Fixture::new();
    let binding = fixture.create();
    refuse(
        fixture.store.attach_session(&owner("bob"), &binding.identity, &caps()),
        ErrorCode::Unauthorized,
    );
    let mut wrong = binding.identity.clone();
    wrong.owner = owner("bob");
    refuse(
        fixture.store.attach_session(&owner("bob"), &wrong, &caps()),
        ErrorCode::Unauthorized,
    );
    fixture.auth.caller.set(false);
    refuse(
        fixture.store.next_creation(&owner("alice")),
        ErrorCode::Unauthorized,
    );
    refuse(
        fixture.store.create_session(&owner("alice"), Id(1), &retention(), &caps()),
        ErrorCode::Unauthorized,
    );
    wrong.generation = Id(999);
    refuse(
        fixture.store.operation(&wrong, root_op(1)),
        ErrorCode::Unauthorized,
    );
    fixture.auth.caller.set(true);
    fixture.store.tables().scopes[0].revoked = true;
    refuse(
        fixture.store.create_session(&owner("alice"), Id(1), &retention(), &caps()),
        ErrorCode::Unauthorized,
    );
    refuse(
        fixture.store.attach_session(&owner("alice"), &binding.identity, &caps()),
        ErrorCode::Unauthorized,
    );
}

#[test]
fn clock_rollback_refuses_mutation_but_preserves_retained_evidence() {
    let fixture = Fixture::new();
    let binding = fixture.create();
    fixture.clock.now.set(2000);
    let receipt = fixture.store.declare(&binding.identity, root_op(1), Number(0), &[Id(5)], false)
        .unwrap();
    fixture.clock.now.set(1999);
    refuse(
        fixture.store.declare(&binding.identity, root_op(2), Number(0), &[Id(6)], false),
        ErrorCode::ClockUnsafe,
    );
    refuse(
        fixture.store.create_session(&owner("alice"), Id(2), &retention(), &caps()),
        ErrorCode::ClockUnsafe,
    );
    assert_eq!(
        fixture.store.declare(&binding.identity, root_op(1), Number(0), &[Id(5)], false)
            .unwrap(),
        receipt
    );
    assert_eq!(
        fixture
            .reopen()
            .operation(&binding.identity, root_op(1))
            .unwrap(),
        receipt
    );
    fixture.clock.trusted.set(false);
    fixture.clock.now.set(3000);
    refuse(
        fixture.store.declare(&binding.identity, root_op(2), Number(0), &[Id(6)], false),
        ErrorCode::ClockUnsafe,
    );
    assert_eq!(
        fixture.store.work_view(&binding.identity, &root_key(5), Number(0))
            .unwrap()
            .0,
        Id(1)
    );
    fixture.clock.trusted.set(true);
    fixture.store.declare(&binding.identity, root_op(2), Number(0), &[Id(6)], false)
        .unwrap();
}

#[test]
fn declaration_replay_pages_and_missing_input_checkpoint_are_durable() {
    let fixture = Fixture::new();
    let binding = fixture.create();
    let receipt = fixture.store.declare(
            &binding.identity,
            root_op(1),
            Number(0),
            &[Id(1), Id(5), Id(9)],
            true,
        )
        .unwrap();
    assert_eq!(
        fixture
            .reopen()
            .declare(
                &binding.identity,
                root_op(1),
                Number(0),
                &[Id(1), Id(5), Id(9)],
                true
            )
            .unwrap(),
        receipt
    );
    let Outcome::Declared {
        seal: Some(seal),
        declared: Number(3),
        ..
    } = receipt.body
    else {
        panic!("wrong receipt");
    };
    assert_eq!(
        seal,
        scope_seal(
            &binding.identity,
            Number(0),
            Producer(0),
            &None,
            Number(3),
            &vec![Id(1), Id(5), Id(9)]
        )
        .unwrap()
    );
    assert_eq!(
        fixture.store.checkpoint(&binding.identity, Number(0), seal)
            .unwrap(),
        None
    );
    refuse(
        fixture.store.checkpoint(&binding.identity, Number(0), Digest([0; 32])),
        ErrorCode::IntegrityError,
    );
    refuse(
        fixture.store.declare(&binding.identity, root_op(2), Number(0), &[Id(10)], false),
        ErrorCode::Conflict,
    );
    let page = fixture.store.scope_page(
            &binding.identity,
            Id(12),
            Number(0),
            Number(1),
            PageLimit(1),
        )
        .unwrap();
    let Control::Scope(Scope::PageResponse {
        entries,
        more: true,
        declared: Number(3),
        ..
    }) = page
    else {
        panic!("wrong page");
    };
    assert_eq!(
        entries,
        [ScopeEntry {
            entity: Id(5),
            state: State(State::DECLARED)
        }]
    );
    let page = fixture.store.scope_page(
            &binding.identity,
            Id(13),
            Number(0),
            Number(9),
            PageLimit(1),
        )
        .unwrap();
    assert!(
        matches!(page, Control::Scope(Scope::PageResponse { entries, more: false, .. }) if entries.is_empty())
    );
    let (revision, view) = fixture.store.work_view(&binding.identity, &root_key(9), Number(1))
        .unwrap();
    assert_eq!(revision, Id(1));
    assert_eq!(view.attempt, Number(0));
    assert!(view.input.is_none());
    refuse(
        fixture.store.work_view(&binding.identity, &root_key(9), Number(2)),
        ErrorCode::Conflict,
    );
}

#[test]
fn batching_does_not_change_seal_and_empty_seal_closes_immutably() {
    let fixture = Fixture::new();
    let binding = fixture.create();
    let ids: Vec<Id> = (1..=600).map(Id).collect();
    for (i, batch) in ids.chunks(256).enumerate() {
        fixture.store.declare(&binding.identity, root_op(i as u8 + 1), Number(0), batch, false)
            .unwrap();
    }
    let receipt = fixture.store.declare(&binding.identity, root_op(4), Number(0), &[], true)
        .unwrap();
    let Outcome::Declared {
        seal: Some(seal), ..
    } = receipt.body
    else {
        panic!("no seal");
    };
    assert_eq!(
        seal,
        scope_seal(
            &binding.identity,
            Number(0),
            Producer(0),
            &None,
            Number(600),
            &ids
        )
        .unwrap()
    );
    let empty = fixture.store.create_session(&owner("alice"), Id(2), &retention(), &caps())
        .unwrap();
    let receipt = fixture.store.declare(&empty.identity, root_op(1), Number(0), &[], true)
        .unwrap();
    let Outcome::Declared {
        seal: Some(seal), ..
    } = receipt.body
    else {
        panic!("no seal");
    };
    let summary = fixture.store.checkpoint(&empty.identity, Number(0), seal)
        .unwrap()
        .unwrap();
    assert_eq!(summary.counts.total().unwrap(), 0);
    assert_eq!(summary.status_root, empty_status_root());
    fixture.clock.now.set(9000);
    assert_eq!(
        fixture
            .reopen()
            .checkpoint(&empty.identity, Number(0), seal)
            .unwrap(),
        Some(summary)
    );
}

#[test]
fn operations_are_immutable_and_refusals_do_not_consume_ids_or_capacity() {
    let mut policy = policy();
    policy.session_limits.entities = Id(2);
    policy.session_limits.operations = Id(2);
    let fixture = Fixture::with_policy(policy);
    let binding = fixture.create();
    refuse(
        fixture.store.declare(&binding.identity, root_op(1), Number(0), &[Id(2), Id(1)], false),
        ErrorCode::FrameError,
    );
    let first = fixture.store.declare(&binding.identity, root_op(1), Number(0), &[Id(2)], false)
        .unwrap();
    refuse(
        fixture.store.declare(&binding.identity, root_op(1), Number(0), &[Id(3)], false),
        ErrorCode::Conflict,
    );
    refuse(
        fixture.store.declare(&binding.identity, root_op(2), Number(0), &[Id(2)], false),
        ErrorCode::Conflict,
    );
    refuse(
        fixture.store.declare(&binding.identity, root_op(2), Number(0), &[Id(3), Id(4)], false),
        ErrorCode::LimitExceeded,
    );
    refuse(
        fixture.store.operation(&binding.identity, root_op(2)),
        ErrorCode::NotFound,
    );
    fixture.store.declare(&binding.identity, root_op(2), Number(0), &[Id(3)], true)
        .unwrap();
    assert_eq!(
        fixture.store.operation(&binding.identity, root_op(1)).unwrap(),
        first
    );
    assert_eq!(
        fixture.store.declare(&binding.identity, root_op(1), Number(0), &[Id(2)], false)
            .unwrap(),
        first
    );
}

#[test]
fn counter_exhaustion_and_retired_creation_never_reuse_identity() {
    let fixture = Fixture::new();
    fixture.store.tables().last_generation = MAX_NUMBER;
    refuse(
        fixture.store.create_session(&owner("alice"), Id(1), &retention(), &caps()),
        ErrorCode::LimitExceeded,
    );
    assert_eq!(fixture.store.next_creation(&owner("alice")).unwrap(), Id(1));
    // Synthetic post-retirement history: no live promises are deleted here.
    fixture.store.tables().owners.push(OwnerRow { owner: owner("alice"), last_creation: 7 });
    refuse(
        fixture.store.create_session(&owner("alice"), Id(7), &retention(), &caps()),
        ErrorCode::Expired,
    );
    assert_eq!(fixture.store.next_creation(&owner("alice")).unwrap(), Id(8));
    fixture.store.tables().owners[0].last_creation = MAX_NUMBER;
    refuse(
        fixture.store.next_creation(&owner("alice")),
        ErrorCode::LimitExceeded,
    );
}

#[test]
fn sqlite_preserves_large_wire_integers_without_float_rounding() {
    let fixture = Fixture::new();
    fixture.store.tables().last_generation = (1 << 53) + 1;
    let binding = fixture.create();
    assert_eq!(binding.identity.generation, Id((1 << 53) + 2));
    let entities = [Id((1 << 53) + 1), Id((1 << 53) + 2), Id(MAX_NUMBER)];
    let receipt = fixture.store.declare(&binding.identity, root_op(1), Number(0), &entities, true)
        .unwrap();
    assert_eq!(
        fixture
            .reopen()
            .operation(&binding.identity, root_op(1))
            .unwrap(),
        receipt
    );
    for entity in entities {
        assert_eq!(
            fixture.store.work_view(&binding.identity, &root_key(entity.0), Number(0))
                .unwrap()
                .1
                .work
                .entity,
            entity
        );
    }
    refuse(increment(MAX_NUMBER), ErrorCode::LimitExceeded);
}

#[test]
fn operation_and_session_capacity_refuse_new_state_but_not_replay() {
    let mut limits = policy();
    limits.session_limits.operations = Id(1);
    limits.sessions_per_owner = Id(1);
    let fixture = Fixture::with_policy(limits);
    let binding = fixture.create();
    let receipt = fixture.store.declare(&binding.identity, root_op(1), Number(0), &[Id(1)], false)
        .unwrap();
    refuse(
        fixture.store.declare(&binding.identity, root_op(2), Number(0), &[Id(2)], true),
        ErrorCode::LimitExceeded,
    );
    refuse(
        fixture.store.create_session(&owner("alice"), Id(2), &retention(), &caps()),
        ErrorCode::LimitExceeded,
    );
    assert_eq!(fixture.store.next_creation(&owner("alice")).unwrap(), Id(2));
    assert_eq!(
        fixture.store.operation(&binding.identity, root_op(1)).unwrap(),
        receipt
    );
    assert_eq!(fixture.create(), binding);
    refuse(
        fixture.store.work_view(&binding.identity, &root_key(2), Number(0)),
        ErrorCode::NotFound,
    );
}

#[test]
fn policy_withdrawal_before_commit_rolls_back_mutation_and_receipt() {
    let fixture = Fixture::new();
    let binding = fixture.create();
    fixture.auth.withdraw.set(true);
    refuse(
        fixture.store.declare(&binding.identity, root_op(1), Number(0), &[Id(1)], true),
        ErrorCode::Unauthorized,
    );
    fixture.auth.withdraw.set(false);
    refuse(
        fixture.store.operation(&binding.identity, root_op(1)),
        ErrorCode::NotFound,
    );
    refuse(
        fixture.store.work_view(&binding.identity, &root_key(1), Number(0)),
        ErrorCode::NotFound,
    );
    fixture.store.declare(&binding.identity, root_op(1), Number(0), &[Id(1)], true)
        .unwrap();
}

#[test]
fn empty_root_closure_refuses_unrepresentable_receipt_retention() {
    let fixture = Fixture::new();
    let binding = fixture.create();
    fixture
        .clock.now
        .set(MAX_NUMBER - retention().receipt_retention_ms.0 + 1);
    refuse(
        fixture.store.declare(&binding.identity, root_op(1), Number(0), &[], true),
        ErrorCode::LimitExceeded,
    );
    refuse(
        fixture.store.operation(&binding.identity, root_op(1)),
        ErrorCode::NotFound,
    );
    fixture
        .clock.now
        .set(MAX_NUMBER - retention().receipt_retention_ms.0);
    let receipt = fixture.store.declare(&binding.identity, root_op(1), Number(0), &[], true)
        .unwrap();
    let Outcome::Declared {
        seal: Some(seal), ..
    } = receipt.body
    else {
        panic!("missing seal");
    };
    assert_eq!(
        fixture.store.checkpoint(&binding.identity, Number(0), seal)
            .unwrap()
            .unwrap()
            .closed_at
            .0,
        MAX_NUMBER - retention().receipt_retention_ms.0
    );
}

#[test]
fn declared_cancel_skip_and_terminal_receipts_replay_without_changing_outcomes() {
    let fixture = Session::new();
    fixture.declare(0, &[1, 2, 3, 4], true);
    let cancel = fixture.store.cancel_work(&fixture.binding.identity, op(100), &key(0, 1))
        .unwrap();
    assert!(matches!(
        cancel.body,
        Outcome::Cancelled {
            disposition: Disposition(0),
            state_at_commit: State(State::CANCELLED),
            ..
        }
    ));
    let view = fixture.view(&key(0, 1));
    assert_eq!(view.attempt, Number(0));
    assert!(view.input.is_none() && view.deadline.is_none() && view.manifest.is_none());
    fixture.clock.now.set(1001);
    assert_eq!(
        fixture.store.cancel_work(&fixture.binding.identity, op(100), &key(0, 1))
            .unwrap(),
        cancel
    );
    refuse(
        fixture.store.skip_work(&fixture.binding.identity, op(100), &key(0, 1)),
        ErrorCode::Conflict,
    );
    let no_op = fixture.store.skip_work(&fixture.binding.identity, op(101), &key(0, 1))
        .unwrap();
    assert!(matches!(
        no_op.body,
        Outcome::Skipped {
            disposition: Disposition(1),
            state_at_commit: State(State::CANCELLED),
            ..
        }
    ));
    assert_eq!(fixture.view(&key(0, 1)), view);
    fixture.auth.skip.set(false);
    refuse(
        fixture.store.skip_work(&fixture.binding.identity, op(102), &key(0, 2)),
        ErrorCode::Unauthorized,
    );
    refuse(
        fixture.store.operation(&fixture.binding.identity, op(102)),
        ErrorCode::NotFound,
    );
    fixture.auth.skip.set(true);
    fixture.store.skip_work(&fixture.binding.identity, op(102), &key(0, 2))
        .unwrap();
    fixture.admission(key(0, 3), 0, 1000);
    let succeeded = fixture.run(&key(0, 3)).unwrap();
    let no_op = fixture.store.cancel_work(&fixture.binding.identity, op(103), &key(0, 3))
        .unwrap();
    assert!(matches!(
        no_op.body,
        Outcome::Cancelled {
            disposition: Disposition(1),
            state_at_commit: State(State::SUCCEEDED),
            ..
        }
    ));
    assert_eq!(fixture.view(&key(0, 3)), succeeded);
    fixture.admission(key(0, 4), 0, 1000);
    fixture.clock.now.set(2001);
    let summary = fixture.close(1);
    assert_eq!(
        summary.counts,
        Counts {
            success: Number(1),
            failure: Number(1),
            cancelled: Number(1),
            skipped: Number(1)
        }
    );
    let mut status = StatusRoot::default();
    for (entity, state, attempt, manifest_digest) in [
        (1, State(State::CANCELLED), 0, None),
        (2, State(State::SKIPPED), 0, None),
        (
            3,
            State(State::SUCCEEDED),
            1,
            Some(succeeded.manifest.unwrap().digest().unwrap()),
        ),
        (4, State(State::FAILED), 1, None),
    ] {
        status
            .push(
                StatusLeaf {
                    work: key(0, entity),
                    state,
                    attempt: Number(attempt),
                    manifest_digest,
                    child_status_root: None,
                }
                .digest()
                .unwrap(),
            )
            .unwrap();
    }
    assert_eq!(summary.status_root, status.finish());
}

#[test]
fn nested_first_skip_fence_survives_parent_cancel_deadline_and_restart() {
    let fixture = Session::new();
    fixture.declare(0, &[1], true);
    fixture.admission(key(0, 1), 1, 1000);
    fixture.declare(1, &[1, 2], false);
    fixture.admission(key(1, 1), 1, 1000);
    fixture.declare(2, &[1, 2], false);
    let skip = fixture.store.skip_work(&fixture.binding.identity, op(100), &key(1, 1))
        .unwrap();
    assert!(matches!(
        skip.body,
        Outcome::Skipped {
            state_at_commit: State(State::CANCELLING),
            ..
        }
    ));
    refuse(
        fixture.store.cancel_work(&fixture.binding.identity, op(101), &key(1, 1)),
        ErrorCode::Cancelled,
    );
    fixture.store.cancel_work(&fixture.binding.identity, op(101), &key(0, 1))
        .unwrap();
    assert_eq!(fixture.view(&key(0, 1)).state, State(State::CANCELLING));
    refuse(
        fixture.store.declare(
            &fixture.binding.identity,
            op(102),
            Number(2),
            &[Id(3)],
            false,
        ),
        ErrorCode::Cancelled,
    );
    fixture.clock.now.set(2000);
    let reopened = fixture.reopen();
    let mut cursor = ReconcileCursor::default();
    for _ in 0..100 {
        let progress = reopened.reconcile(&mut cursor, 1).unwrap();
        assert!(progress.inspected_work <= 1 && progress.inspected_members <= 1);
        if fixture.summary(0).is_some() {
            break;
        }
    }
    assert_eq!(fixture.view(&key(0, 1)).state, State(State::CANCELLED));
    assert_eq!(fixture.view(&key(1, 1)).state, State(State::SKIPPED));
    for work in [key(1, 2), key(2, 1), key(2, 2)] {
        assert_eq!(fixture.view(&work).state, State(State::CANCELLED));
    }
    assert_eq!(fixture.summary(1).unwrap().counts.skipped, Number(1));
    assert_eq!(fixture.summary(2).unwrap().counts.cancelled, Number(2));
    assert_eq!(fixture.summary(0).unwrap().counts.cancelled, Number(1));
    let root_leaf = StatusLeaf {
        work: key(0, 1),
        state: State(State::CANCELLED),
        attempt: Number(1),
        manifest_digest: None,
        child_status_root: Some(fixture.summary(1).unwrap().status_root),
    }
    .digest()
    .unwrap();
    assert_eq!(fixture.summary(0).unwrap().status_root, root_leaf);
    assert_eq!(
        reopened
            .skip_work(&fixture.binding.identity, op(100), &key(1, 1))
            .unwrap(),
        skip
    );
}

#[test]
fn deadline_settles_active_and_awaiting_retry_without_extending_attempt_or_retention() {
    for retryable in [false, true] {
        let fixture = Session::new();
        fixture.declare(0, &[1], true);
        let admitted = fixture.admission(key(0, 1), 0, 1000);
        if retryable {
            fixture.wait_for_retry(&key(0, 1));
        }
        fixture.clock.now.set(2000);
        let summary = fixture.close(1);
        let view = fixture.view(&key(0, 1));
        assert_eq!(view.state, State(State::FAILED));
        assert_eq!(
            (view.attempt, view.admitted_at, view.deadline),
            (admitted.attempt, admitted.admitted_at, admitted.deadline)
        );
        assert_eq!(
            view.diagnostic.unwrap().code,
            DiagnosticCode(ErrorCode::DeadlineExceeded.code())
        );
        assert_eq!(view.receipt_until, Some(Number(32000)));
        assert_eq!(summary.counts.failure, Number(1));
        let job = fixture.job(&key(0, 1));
        assert!(!job.executor_live && job.input_live && job.outputs_live);
    }
}

#[test]
fn strict_child_failure_settles_parent_but_parent_deadline_does_not_cancel_children() {
    for parent_expired in [false, true] {
        let fixture = Session::new();
        fixture.declare(0, &[1], true);
        fixture.admission(key(0, 1), 1, 1000);
        fixture.declare(1, &[1], true);
        if parent_expired {
            fixture.clock.now.set(2000);
            fixture.store.reconcile(&mut ReconcileCursor::default(), 256)
                .unwrap();
            assert_eq!(fixture.view(&key(0, 1)).state, State(State::FAILED));
            assert_eq!(fixture.view(&key(1, 1)).state, State(State::DECLARED));
            assert!(fixture.summary(0).is_none());
        }
        fixture.store.skip_work(&fixture.binding.identity, op(100), &key(1, 1))
            .unwrap();
        let summary = fixture.close(1);
        assert_eq!(summary.counts.failure, Number(1));
        assert_eq!(fixture.summary(1).unwrap().counts.skipped, Number(1));
        let view = fixture.view(&key(0, 1));
        assert_eq!(view.state, State(State::FAILED));
        if parent_expired {
            assert_eq!(
                view.diagnostic.unwrap().code,
                DiagnosticCode(ErrorCode::DeadlineExceeded.code())
            );
        } else {
            assert_eq!(
                view.diagnostic.unwrap().detail.0,
                "STRICT child scope contains nonsuccessful work"
            );
        }
    }
}

#[test]
fn revocation_uses_operator_permission_and_settles_without_caller_authorization() {
    let fixture = Session::new();
    fixture.declare(0, &[1, 2], false);
    fixture.admission(key(0, 1), 1, 1000);
    fixture.declare(1, &[1], false);
    fixture.auth.revoke.set(false);
    refuse(
        fixture.store.revoke_session(&fixture.binding.identity),
        ErrorCode::Unauthorized,
    );
    fixture.auth.revoke.set(true);
    fixture.auth.caller.set(false);
    fixture.store.revoke_session(&fixture.binding.identity)
        .unwrap();
    fixture.auth.caller.set(true);
    refuse(
        fixture.store.operation(&fixture.binding.identity, op(1)),
        ErrorCode::Unauthorized,
    );
    refuse(
        fixture.store.work_view(&fixture.binding.identity, &key(0, 1), Number(0)),
        ErrorCode::Unauthorized,
    );
    refuse(
        fixture.store.declare(
            &fixture.binding.identity,
            op(100),
            Number(0),
            &[Id(3)],
            true,
        ),
        ErrorCode::Unauthorized,
    );
    fixture.auth.caller.set(false);
    let summary = fixture.close(1);
    assert_eq!(summary.counts.cancelled, Number(2));
    assert_eq!(fixture.raw_view(&key(1, 1)).state, State(State::CANCELLED));
    fixture.store.revoke_session(&fixture.binding.identity)
        .unwrap();
}

#[test]
fn unsafe_clock_rejects_new_fences_and_settlement_but_not_accepted_receipt_replay() {
    let fixture = Session::new();
    fixture.declare(0, &[1, 2], true);
    let receipt = fixture.store.cancel_work(&fixture.binding.identity, op(100), &key(0, 1))
        .unwrap();
    for untrusted in [false, true] {
        fixture.clock.now.set(if untrusted { 1000 } else { 999 });
        fixture.clock.trusted.set(!untrusted);
        refuse(
            fixture.store.cancel_work(&fixture.binding.identity, op(101), &key(0, 2)),
            ErrorCode::ClockUnsafe,
        );
        refuse(
            fixture.store.cancel_scope(&fixture.binding.identity, op(101), Number(0)),
            ErrorCode::ClockUnsafe,
        );
        refuse(
            fixture.store.reconcile(&mut ReconcileCursor::default(), 256),
            ErrorCode::ClockUnsafe,
        );
        assert_eq!(
            fixture.store.cancel_work(&fixture.binding.identity, op(100), &key(0, 1))
                .unwrap(),
            receipt
        );
        assert_eq!(fixture.view(&key(0, 2)).state, State(State::DECLARED));
        refuse(
            fixture.store.operation(&fixture.binding.identity, op(101)),
            ErrorCode::NotFound,
        );
    }
    fixture.clock.now.set(1000);
    fixture.clock.trusted.set(true);
    fixture.store.cancel_scope(&fixture.binding.identity, op(101), Number(0))
        .unwrap();
    fixture.close(1);
    fixture.reopen();
}

#[test]
fn scope_freeze_is_immediate_but_large_seal_and_status_fold_are_bounded_and_restartable() {
    let fixture = Session::new();
    for batch in 0..3 {
        fixture.declare(
            0,
            &(batch * 200 + 1..=(batch + 1) * 200).collect::<Vec<_>>(),
            false,
        );
    }
    let receipt = fixture.store.cancel_scope(&fixture.binding.identity, op(100), Number(0))
        .unwrap();
    refuse(
        fixture.store.declare(
            &fixture.binding.identity,
            op(101),
            Number(0),
            &[Id(601)],
            true,
        ),
        ErrorCode::Cancelled,
    );
    let mut cursor = ReconcileCursor::default();
    let progress = fixture.store.reconcile(&mut cursor, 73).unwrap();
    assert_eq!(progress.inspected_work, 73);
    assert_eq!(progress.inspected_members, 73);
    assert_eq!(progress.sealed_scopes, 0);
    assert!(matches!(
        fixture.store.scope_page(
                &fixture.binding.identity,
                Id(1),
                Number(0),
                Number(0),
                PageLimit(1)
            )
            .unwrap(),
        Control::Scope(Scope::PageResponse {
            sealed: false,
            seal: None,
            declared: Number(600),
            more: true,
            ..
        })
    ));
    let reopened = fixture.reopen();
    let mut cursor = ReconcileCursor::default();
    for _ in 0..100 {
        let progress = reopened.reconcile(&mut cursor, 127).unwrap();
        assert!(progress.inspected_work <= 127 && progress.inspected_members <= 127);
        if fixture.summary(0).is_some() {
            break;
        }
    }
    let summary = fixture.summary(0).unwrap();
    assert_eq!(summary.declared, Number(600));
    assert_eq!(summary.counts.cancelled, Number(600));
    let mut seal = ScopeSeal::new(
        &fixture.binding.identity,
        Number(0),
        Producer(0),
        &None,
        Number(600),
    )
    .unwrap();
    let mut root = StatusRoot::default();
    for entity in 1..=600 {
        seal.push(Id(entity)).unwrap();
        root.push(
            StatusLeaf {
                work: key(0, entity),
                state: State(State::CANCELLED),
                attempt: Number(0),
                manifest_digest: None,
                child_status_root: None,
            }
            .digest()
            .unwrap(),
        )
        .unwrap();
    }
    assert_eq!(summary.seal, seal.finish().unwrap());
    assert_eq!(summary.status_root, root.finish());
    assert!(
        matches!(reopened.scope_page(&fixture.binding.identity, Id(2), Number(0), Number(0), PageLimit(1)).unwrap(),
        Control::Scope(Scope::PageResponse { sealed: true, seal: Some(seal), .. }) if seal == summary.seal)
    );
    assert_eq!(
        reopened
            .cancel_scope(&fixture.binding.identity, op(100), Number(0))
            .unwrap(),
        receipt
    );
    fixture.clock.now.set(1010);
    for _ in 0..20 {
        reopened.reconcile(&mut cursor, 256).unwrap();
    }
    assert_eq!(fixture.summary(0).unwrap(), summary);
}

#[test]
fn empty_cancelled_scope_closes_and_cursor_cannot_cross_authority_stores() {
    let fixture = Session::new();
    fixture.store.cancel_scope(&fixture.binding.identity, op(100), Number(0))
        .unwrap();
    let summary = fixture.close(1);
    assert_eq!(summary.declared, Number(0));
    assert_eq!(summary.status_root, StatusRoot::default().finish());
    let mut cursor = ReconcileCursor::default();
    fixture.store.reconcile(&mut cursor, 1).unwrap();
    let other = Session::new();
    refuse(other.store.reconcile(&mut cursor, 1), ErrorCode::Conflict);
    refuse(
        other.store.reconcile(&mut ReconcileCursor::default(), 0),
        ErrorCode::LimitExceeded,
    );
    refuse(
        other.store.reconcile(&mut ReconcileCursor::default(), 257),
        ErrorCode::LimitExceeded,
    );
    fixture.reopen();
}

#[test]
fn owner_scope_cancellation_can_close_an_authority_producer_scope() {
    let fixture = Session::new();
    fixture.declare(0, &[1], true);
    let view = fixture.admission(key(0, 1), 2, 1000);
    assert_eq!(view.child.unwrap().producer, Producer(1));
    refuse(
        fixture.store.declare(
            &fixture.binding.identity,
            op(100),
            Number(1),
            &[Id(1)],
            false,
        ),
        ErrorCode::Unauthorized,
    );
    fixture.store.cancel_scope(&fixture.binding.identity, op(100), Number(1))
        .unwrap();
    fixture.store.skip_work(&fixture.binding.identity, op(101), &key(0, 1))
        .unwrap();
    fixture.close(1);
    let summary = fixture.summary(1).unwrap();
    assert_eq!(summary.producer, Producer(1));
    assert_eq!(summary.declared, Number(0));
    fixture.reopen();
}

#[test]
fn last_moment_authorization_denial_rolls_back_fence_outcome_receipt_and_clock() {
    for scope in [false, true] {
        let fixture = Session::new();
        fixture.declare(0, &[1], false);
        let before = fixture.view(&key(0, 1));
        fixture.auth.withdraw.set(true);
        fixture.clock.now.set(1001);
        let result = if scope {
            fixture.store.cancel_scope(&fixture.binding.identity, op(100), Number(0))
        } else {
            fixture.store.cancel_work(&fixture.binding.identity, op(100), &key(0, 1))
        };
        fixture.auth.withdraw.set(false);
        refuse(result, ErrorCode::Unauthorized);
        fixture.clock.now.set(1000); // failed mutation did not advance the durable clock
        assert_eq!(fixture.view(&key(0, 1)), before);
        refuse(
            fixture.store.operation(&fixture.binding.identity, op(100)),
            ErrorCode::NotFound,
        );
        fixture.declare(0, &[2], false);
        fixture.reopen();
    }
}

#[test]
fn reopening_refuses_prior_format_or_fence_whose_immutable_receipt_was_changed() {
    for corruption in ["receipt", "time"] {
        let fixture = Session::new();
        fixture.declare(0, &[1], true);
        fixture.store.skip_work(&fixture.binding.identity, op(100), &key(0, 1)).unwrap();
        if corruption == "time" {
            fixture.clock.now.set(1001);
            fixture.store.cancel_work(&fixture.binding.identity, op(101), &key(0, 1)).unwrap();
        }
        let row = fixture.row(&key(0, 1));
        let mut tables = fixture.store.tables();
        let view = tables.work[row].view.clone();
        let fence = tables.work[row].fence.unwrap();
        let greatest = Number(tables.greatest);
        let identity = &fixture.binding.identity;
        tables.verify_fence(identity, &view, &fence, greatest).unwrap();
        let i = tables.find_operation(identity.generation, Producer(0), op(100)).unwrap();
        let Outcome::Skipped { disposition, accepted_at, .. } = &mut tables.operations[i].receipt.body
        else {
            unreachable!()
        };
        if corruption == "time" {
            *accepted_at = Number(1001); // below shared clock, but after terminal settlement
        } else {
            *disposition = Disposition(1);
        }
        assert!(
            matches!(
                tables.verify_fence(identity, &view, &fence, greatest),
                Err(StoreError::Corrupt(_))
            ),
            "{corruption}"
        );
    }
}

fn retire(store: &Store, cursor: &mut RetirementCursor, limit: usize) -> Result<RetirementProgress> {
    let clock = store.clock();
    store.tables().retire(cursor, limit, clock, &vec![clock; limit], &vec![], &None)
}

#[test]
fn corrupted_retirement_proof_never_authorizes_deletion_or_successful_reopen() {
    for case in [
        "owner",
        "authority",
        "generation",
        "creation",
        "root",
        "cutoff",
        "future",
        "owner-history",
        "generation-history",
        "missing-proof",
        "missing-flag",
    ] {
        let fixture = Fixture::new();
        let binding = fixture.create();
        fixture
            .store
            .declare(&binding.identity, OperationId([1; 16]), Number(0), &[], true)
            .unwrap();
        fixture.clock.now.set(31000);
        let store = fixture.store.clone();
        assert!(retire(&store, &mut RetirementCursor::default(), 1).unwrap().started);
        store.tables().verify_retirements().unwrap();
        {
            let mut tables = store.tables();
            match case {
                "missing-proof" => tables.retirements.clear(),
                "missing-flag" => tables.sessions[0].retiring = false,
                "owner-history" => tables.owners[0].last_creation = 0,
                "generation-history" => tables.last_generation = 0,
                "owner" => tables.retirements[0].evidence.identity.owner = owner("bob"),
                "authority" => tables.retirements[0].evidence.identity.authority = owner("other"),
                "generation" => tables.retirements[0].evidence.identity.generation = Id(2),
                "creation" => tables.retirements[0].evidence.creation = Id(2),
                "root" => tables.retirements[0].evidence.root.status_root = Digest([9; 32]),
                "cutoff" => tables.retirements[0].evidence.cutoff = Number(30999),
                "future" => tables.retirements[0].evidence.at = Number(31001),
                _ => unreachable!(),
            }
        }
        assert!(
            matches!(
                retire(&store, &mut RetirementCursor::default(), 1),
                Err(StoreError::Corrupt(_))
            ),
            "{case}"
        );
        assert_eq!(store.tables().sessions.len(), 1);
        assert!(
            matches!(store.tables().verify_retirements(), Err(StoreError::Corrupt(_))),
            "{case}"
        );
    }
}

#[test]
fn maximum_retirement_identity_and_summary_fit_the_immutable_slot() {
    let proof = Proof {
        identity: Issuer {
            authority: IdentityLabel("a".repeat(128)),
            owner: IdentityLabel("b".repeat(128)),
            generation: Id(MAX_NUMBER),
        },
        creation: Id(MAX_NUMBER),
        root: ScopeSummary {
            scope: Number(0),
            producer: Producer(0),
            parent: None,
            seal: Digest([1; 32]),
            declared: Number(MAX_NUMBER),
            counts: Counts {
                success: Number(MAX_NUMBER),
                failure: Number(0),
                cancelled: Number(0),
                skipped: Number(0),
            },
            status_root: Digest([2; 32]),
            closed_at: Number(MAX_NUMBER),
        },
        cutoff: Number(MAX_NUMBER),
        at: Number(MAX_NUMBER),
    };
    let bytes = wire::encode(&proof, 1024).unwrap();
    assert_eq!(wire::decode::<Proof>(&bytes, 1024).unwrap(), proof);
}

#[test]
fn retirement_deletes_rows_in_order_and_keeps_high_water_marks() {
    let fixture = Fixture::new();
    let binding = fixture.create();
    fixture.store.declare(&binding.identity, root_op(1), Number(0), &[], true).unwrap();
    let mut cursor = RetirementCursor::default();
    assert!(!retire(&fixture.store, &mut cursor, 1).unwrap().started);
    fixture.clock.now.set(31000);
    let mut cursor = RetirementCursor::default();
    assert!(retire(&fixture.store, &mut cursor, 256).unwrap().started);
    let mut cursor = RetirementCursor::default();
    let progress = retire(&fixture.store, &mut cursor, 256).unwrap();
    assert!(progress.completed);
    assert_eq!(progress.deleted_operations, 1);
    assert!(fixture.store.tables().sessions.is_empty());
    assert_eq!(fixture.store.tables().last_generation, 1);
    assert_eq!(fixture.store.next_creation(&owner("alice")).unwrap(), Id(2));
    refuse(
        fixture.store.create_session(&owner("alice"), Id(1), &retention(), &caps()),
        ErrorCode::Expired,
    );
    refuse(retire(&fixture.store, &mut RetirementCursor::default(), 0), ErrorCode::LimitExceeded);
    refuse(retire(&Fixture::new().store, &mut cursor, 1), ErrorCode::Conflict);
}

fn reclaim(store: &Store, cursor: &mut RetentionCursor, gone: &Vec<PayloadStatus>) -> Result<RetentionProgress> {
    let clock = store.clock();
    store.tables().reclaim(cursor, 256, &vec![clock; 256], gone)
}

#[test]
fn payloads_are_released_only_after_an_intent_and_their_removal() {
    let fixture = Session::new();
    fixture.declare(0, &[1], true);
    fixture.admission(key(0, 1), 0, 1000);
    fixture.run(&key(0, 1)).unwrap();
    fixture.close(16);
    let row = fixture.store.tables().work[0].row;
    let idle = reclaim(&fixture.store, &mut RetentionCursor::default(), &vec![]).unwrap();
    assert_eq!((idle.released_inputs, idle.released_outputs), (0, 0));
    assert!(fixture.job(&key(0, 1)).outputs_live);
    fixture.clock.now.set(61000);
    let intent = reclaim(&fixture.store, &mut RetentionCursor::default(), &vec![]).unwrap();
    assert_eq!(intent.committed_intents, 1);
    assert_eq!((intent.released_inputs, intent.released_outputs), (0, 0));
    let release = fixture.job(&key(0, 1)).release.unwrap();
    let view = fixture.store.tables().work[0].view.clone();
    let generation = fixture.binding.identity.generation;
    fixture.store.tables().verify_release(generation, &view, &release).unwrap();
    let gone = vec![PayloadStatus { row, input_gone: true, outputs_gone: true }];
    let released = reclaim(&fixture.store, &mut RetentionCursor::default(), &gone).unwrap();
    assert_eq!((released.released_inputs, released.released_outputs), (1, 1));
    let job = fixture.job(&key(0, 1));
    assert!(!job.input_live && !job.outputs_live);
    fixture.store.tables().verify_release(generation, &view, &release).unwrap();
    let early = Release { at: Number(1), ..release };
    assert!(matches!(
        fixture.store.tables().verify_release(generation, &view, &early),
        Err(StoreError::Corrupt(_))
    ));
}

#[test]
fn result_reads_deliver_one_chunk_at_a_time_and_end_for_good() {
    let fixture = Session::new();
    fixture.declare(0, &[1], true);
    fixture.admission(key(0, 1), 0, 1000);
    let mut service = ResultService::new();
    let identity = fixture.binding.identity.clone();
    let access = fixture.auth.access(&identity.owner);
    let grants = access.before;
    refuse(
        service.manifest(&fixture.store.tables(), &identity, &key(0, 1), Id(1), &caps(), &access),
        ErrorCode::NotReady,
    );
    let view = fixture.run(&key(0, 1)).unwrap();
    let manifest = service
        .manifest(&fixture.store.tables(), &identity, &key(0, 1), Id(1), &caps(), &access)
        .unwrap();
    assert_eq!(Some(manifest.clone()), view.manifest);
    let request = |index, sha256| ResultMessage::Read {
        request: Id(5),
        work: key(0, 1),
        attempt: Id(1),
        index: OutputIndex(index),
        expected_sha256: sha256,
    };
    let begin = |service: &mut ResultService, request: &ResultMessage, opened| {
        let clock = fixture.store.clock();
        let mut tables = fixture.store.tables();
        service.begin_read(&mut tables, &identity, request, &caps(), &access, clock, opened, 0)
    };
    let wanted = manifest.outputs[0].sha256;
    refuse(begin(&mut service, &request(1, wanted), Storage::Done(())), ErrorCode::NotFound);
    refuse(
        begin(&mut service, &request(0, Digest([1; 32])), Storage::Done(())),
        ErrorCode::IntegrityError,
    );
    refuse(
        begin(&mut service, &request(0, wanted), Storage::Io),
        ErrorCode::OutputUnavailable,
    );
    let read = begin(&mut service, &request(0, wanted), Storage::Done(())).unwrap();
    assert_eq!(service.pending(), 1);
    let tables = fixture.store.tables();
    let header = read.start(&mut service, &tables, 1, &grants).unwrap();
    assert_eq!((header.request, header.length), (Id(5), Number(3)));
    assert_eq!(read.read_chunk(&mut service, &tables, Storage::Done(3), 2, &grants).unwrap(), 3);
    read.sent(&mut service, &tables, 2, 3, &grants).unwrap();
    read.check_deadline(&mut service, &tables, 4, &grants).unwrap();
    read.sent(&mut service, &tables, 1, 5, &grants).unwrap();
    read.ready_for_chunk(&mut service, &tables, 6, &grants).unwrap();
    assert_eq!(read.read_chunk(&mut service, &tables, Storage::Done(0), 7, &grants).unwrap(), 0);
    read.finish(&mut service, &tables, 8, &grants).unwrap();
    assert_eq!(service.pending(), 0);
    refuse(read.check_deadline(&mut service, &tables, 9, &grants), ErrorCode::Cancelled);
    drop(tables);
    let read = begin(&mut service, &request(0, wanted), Storage::Done(())).unwrap();
    let tables = fixture.store.tables();
    refuse(read.sent(&mut service, &tables, 1, 1, &grants), ErrorCode::IntegrityError);
    refuse(read.start(&mut service, &tables, 2, &grants), ErrorCode::IntegrityError);
    assert_eq!(service.pending(), 0);
    read.release(&mut service);
    refuse(read.start(&mut service, &tables, 2, &grants), ErrorCode::Cancelled);
}

#[test]
fn idle_reads_are_closed_by_bounded_maintenance() {
    let fixture = Session::new();
    fixture.declare(0, &[1], true);
    fixture.admission(key(0, 1), 0, 1000);
    let manifest = fixture.run(&key(0, 1)).unwrap().manifest.unwrap();
    let identity = fixture.binding.identity.clone();
    let access = fixture.auth.access(&identity.owner);
    let request = ResultMessage::Read {
        request: Id(5),
        work: key(0, 1),
        attempt: Id(1),
        index: OutputIndex(0),
        expected_sha256: manifest.outputs[0].sha256,
    };
    let mut service = ResultService::new();
    let clock = fixture.store.clock();
    let mut tables = fixture.store.tables();
    let mut statuses = Vec::new();
    for busy in [false, true] {
        let read = service
            .begin_read(&mut tables, &identity, &request, &caps(), &access, clock, Storage::Done(()), 0)
            .unwrap();
        statuses.push(ReadStatus { id: read.id, busy, grants: access.before });
    }
    let mut cursor = ReadCursor::default();
    let idle = 999_999_999;
    let report = service.maintain(&tables, &mut cursor, 256, idle, &statuses).unwrap();
    assert_eq!(report, ReadMaintenance { inspected: 2, closed: 0, busy: 1 });
    let late = 1_000_000_000;
    let report = service.maintain(&tables, &mut cursor, 1, late, &statuses).unwrap();
    assert_eq!(report, ReadMaintenance { inspected: 1, closed: 1, busy: 0 });
    assert_eq!(service.pending(), 1);
    refuse(service.maintain(&tables, &mut cursor, 0, late, &statuses), ErrorCode::LimitExceeded);
    refuse(service.maintain(&tables, &mut cursor, 257, late, &statuses), ErrorCode::LimitExceeded);
}

#[test]
fn file_passes_keep_their_bound_until_a_batch_is_not_full() {
    let mut cursor = RetentionCursor::default();
    cursor.open_files(Some("f".into()));
    cursor.open_files(Some("z".into()));
    assert_eq!(cursor.payload_through, Some("f".into()));
    cursor.files_inspected(4, 4, Some("c".into()));
    assert_eq!(cursor.payload_after, Some("c".into()));
    cursor.files_inspected(3, 4, Some("f".into()));
    assert_eq!((cursor.payload_after, cursor.payload_through), (None, None));
}

#[test]
fn retiring_sessions_are_expired_for_everybody() {
    let fixture = Fixture::new();
    let binding = fixture.create();
    fixture.store.declare(&binding.identity, root_op(1), Number(0), &[], true).unwrap();
    fixture.clock.now.set(31000);
    fixture.store.tables().require_live(Id(1)).unwrap();
    assert!(retire(&fixture.store, &mut RetirementCursor::default(), 1).unwrap().started);
    refuse(fixture.store.tables().require_live(Id(1)), ErrorCode::Expired);
}

#[test]
fn receipts_and_pages_count_every_member_across_batches() {
    let fixture = Fixture::new();
    let binding = fixture.create();
    let mut members: Vec<Id> = Vec::new();
    for (i, batch) in [vec![Id(2), Id(3)], vec![Id(5)], vec![Id(7)]].iter().enumerate() {
        members.extend(batch);
        let receipt = fixture.store
            .declare(&binding.identity, root_op(i as u8 + 1), Number(0), batch, false)
            .unwrap();
        let Outcome::Declared { declared, accepted_count, .. } = receipt.body else {
            panic!("wrong receipt");
        };
        assert_eq!(declared, Number(members.len() as u64));
        assert_eq!(accepted_count.0, batch.len() as u64);
        let page = fixture.store
            .scope_page(&binding.identity, Id(1), Number(0), Number(0), PageLimit(2))
            .unwrap();
        let Control::Scope(Scope::PageResponse { declared, .. }) = page else {
            panic!("wrong page");
        };
        assert_eq!(declared, Number(members.len() as u64));
    }
}

#[test]
fn closed_scope_keeps_its_seal_and_summary_whatever_follows() {
    let session = Session::new();
    session.declare(0, &[1, 2], true);
    let identity = &session.binding.identity;
    session.store.skip_work(identity, op(100), &key(0, 1)).unwrap();
    session.store.cancel_work(identity, op(101), &key(0, 2)).unwrap();
    let summary = session.close(1);
    assert_eq!(summary.declared, Number(2));
    assert_eq!(summary.counts.total().unwrap(), 2);
    assert_eq!((summary.counts.skipped, summary.counts.cancelled), (Number(1), Number(1)));
    session.clock.now.set(9000);
    refuse(
        session.store.declare(identity, op(102), Number(0), &[Id(3)], true),
        ErrorCode::Conflict,
    );
    session.store.cancel_scope(identity, op(103), Number(0)).unwrap();
    session.store.create_session(&owner("alice"), Id(2), &retention(), &caps()).unwrap();
    let mut cursor = ReconcileCursor::default();
    for _ in 0..8 {
        session.store.reconcile(&mut cursor, 1).unwrap();
    }
    assert_eq!(
        session.store.checkpoint(identity, Number(0), summary.seal).unwrap(),
        Some(summary)
    );
}

#[test]
fn cancelled_scope_refuses_changes_below_it_at_once() {
    let session = Session::new();
    session.declare(0, &[1], true);
    session.admission(key(0, 1), 1, 1000);
    session.declare(1, &[1], false);
    session.admission(key(1, 1), 1, 1000);
    let identity = &session.binding.identity;
    session.declare(2, &[1], false);
    session.store.cancel_scope(identity, op(100), Number(0)).unwrap();
    for scope in 0..3 {
        refuse(
            session.store.declare(identity, op(200 + scope), Number(scope), &[Id(9)], false),
            ErrorCode::Cancelled,
        );
    }
    refuse(session.store.skip_work(identity, op(300), &key(2, 1)), ErrorCode::Cancelled);
}

#[test]
fn rows_that_do_not_fit_together_are_told_from_rows_that_do() {
    let fixture = Session::new();
    fixture.declare(0, &[1, 2], true);
    let second = fixture
        .store
        .create_session(&owner("alice"), Id(2), &retention(), &caps())
        .unwrap();
    fixture
        .store
        .declare(&second.identity, op(50), Number(0), &[], true)
        .unwrap();
    let identity = &fixture.binding.identity;
    fixture.store.skip_work(identity, op(100), &key(0, 1)).unwrap();
    fixture.store.cancel_work(identity, op(101), &key(0, 2)).unwrap();
    fixture.close(1);
    let sound = read_back(&fixture.store.tables());
    assert!(sound.is_well_formed());
    assert!(AuthorityStore::initialize(owner("test-authority"), 1, policy()).is_well_formed());

    let broken = |change: fn(&mut AuthorityStore)| {
        let mut tables = read_back(&sound);
        change(&mut tables);
        !tables.is_well_formed()
    };
    assert!(!broken(|_| {}));
    assert!(broken(|t| t.scopes[0].declared = Number(3)));
    assert!(broken(|t| t.scopes[0].producer = Producer(1)));
    assert!(broken(|t| t.work[0].view.work.producer = Producer(1)));
    assert!(broken(|t| t.work[0].view.work.scope = Number(9)));
    assert!(broken(|t| t.work.swap(0, 1)));
    assert!(broken(|t| t.sessions.swap(0, 1)));
    assert!(broken(|t| t.sessions[0].binding.identity.owner = owner("bob")));
    assert!(broken(|t| t.last_generation = 1));
    assert!(broken(|t| {
        let closed = t.scopes.iter_mut().find(|s| s.summary.is_some()).unwrap();
        closed.seal = Some(Digest([1; 32]));
    }));
    assert!(broken(|t| {
        t.work[0].view.child = Some(ChildScope { scope: Id(9), producer: Producer(0) });
    }));
}
