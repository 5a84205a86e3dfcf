use pipestream::v2::client::journal as verified;
use pipestream::v2::client::records::{
    Creation, JournalLimits, ObservedWork, ScopeMember, ScopeObservation,
};
use pipestream::v2::client::references::RetainedReference;
use pipestream::v2::client::restore::JournalFile;
use pipestream::v2::client::storage::{
    decode_image, decode_intent, intent_image, seal, Intent, JournalError,
};
use pipestream::v2::commitments::{
    scope_seal, Mutation, SessionIdentity, StatusLeaf, StatusRoot,
};
use pipestream::v2::correlation::request_id;
use pipestream::v2::error::{ErrorCode, DURABLE_WORK, MAX_NUMBER, RESULT_DELIVERY};
use pipestream::v2::labels::{ApplicationLabel, Detail, Digest, IdentityLabel, OperationId};
use pipestream::v2::messages::{Control, Drain, ResultMessage, Scope, Session};
use pipestream::v2::negotiation::Capabilities;
use pipestream::v2::numbers::{
    BatchCount, ConcurrencyLimit, ControlLimit, DiagnosticCode, Disposition, Duration, Id, IdleMs,
    LifetimeMs, Literal, Mode, Number, OutputIndex, PageLimit, Producer, ProfileId, ResponseFlag,
    State,
};
use pipestream::v2::records::{
    AdmitParameters, ChildScope, Counts, Diagnostic, Input, Limits, Manifest, OperationReceipt,
    Outcome, Output, OutputBudget, Policy, ScopeEntry, ScopeSummary, WorkKey, WorkView,
};
use pipestream::v2::uri::ResultLocator;
use std::cell::RefCell;
use std::rc::Rc;

type Result<T> = std::result::Result<T, JournalError>;

/// What is on disk. Every change that a journal accepts is written through to it.
type Disk = Rc<RefCell<Option<JournalFile>>>;

fn disk() -> Disk {
    Rc::new(RefCell::new(None))
}

struct Journal {
    disk: Disk,
    inner: RefCell<verified::Journal>,
}

impl Journal {
    fn initialize(disk: &Disk, creation: Creation, limits: JournalLimits) -> Result<Self> {
        let inner = verified::Journal::initialize(creation, limits)?;
        *disk.borrow_mut() = Some(inner.images()?);
        Ok(Journal { disk: disk.clone(), inner: RefCell::new(inner) })
    }
    fn open(disk: &Disk, creation: Creation, limits: JournalLimits) -> Result<Self> {
        let file = disk.borrow().clone().ok_or(JournalError::Corrupt("no journal"))?;
        let inner = verified::Journal::open(&file, creation, limits)?;
        Ok(Journal { disk: disk.clone(), inner: RefCell::new(inner) })
    }
    fn change<T>(&self, change: impl FnOnce(&mut verified::Journal) -> Result<T>) -> Result<T> {
        let mut inner = self.inner.borrow_mut();
        let result = change(&mut inner);
        let file = inner.images().unwrap();
        verified::Journal::open(&file, inner.creation().clone(), inner.limits).unwrap();
        *self.disk.borrow_mut() = Some(file);
        result
    }
    fn creation(&self) -> Creation {
        self.inner.borrow().creation().clone()
    }
    fn record_binding(&self, response: &Control, selected: &Capabilities) -> Result<()> {
        self.change(|journal| journal.record_binding(response, selected))
    }
    fn binding(&self) -> Result<Option<Control>> {
        Ok(self.inner.borrow().binding())
    }
    fn identity(&self) -> Result<SessionIdentity> {
        self.inner.borrow().identity()
    }
    fn prepare(&self, intent: &Intent) -> Result<()> {
        self.change(|journal| journal.prepare(intent))
    }
    fn intent(&self, operation: OperationId) -> Result<Intent> {
        self.inner.borrow().intent(operation)
    }
    fn receipt(&self, operation: OperationId) -> Result<Option<OperationReceipt>> {
        self.inner.borrow().receipt(operation)
    }
    fn unresolved(&self, after: Number, limit: PageLimit) -> Result<Vec<(Id, Intent)>> {
        self.inner.borrow().unresolved(after, limit)
    }
    fn record_receipt(&self, receipt: &OperationReceipt) -> Result<()> {
        self.change(|journal| journal.record_receipt(receipt))
    }
    fn remember_manifest(&self, manifest: &Manifest) -> Result<()> {
        self.change(|journal| journal.remember_manifest(manifest))
    }
    fn observe_work(&self, revision: Id, view: &WorkView) -> Result<ObservedWork> {
        self.change(|journal| journal.observe_work(revision, view))
    }
    fn observed_work(&self, work: &WorkKey) -> Result<Option<ObservedWork>> {
        self.inner.borrow().observed_work(work)
    }
    fn remember_reference(&self, manifest: &Manifest, index: OutputIndex) -> Result<RetainedReference> {
        self.change(|journal| journal.remember_reference(manifest, index))
    }
    fn retained_reference(&self, work: &WorkKey, attempt: Id, index: OutputIndex) -> Result<RetainedReference> {
        self.inner.borrow().retained_reference(work, attempt, index)
    }
    fn observe_scope_page(&self, request: &Control, response: &Control) -> Result<ScopeObservation> {
        self.change(|journal| journal.observe_scope_page(request, response))
    }
    fn scope_observation(&self, scope: Number) -> Result<Option<ScopeObservation>> {
        self.inner.borrow().scope_observation(scope)
    }
    fn scope_members(&self, scope: Number, after: Number, limit: PageLimit) -> Result<Vec<ScopeMember>> {
        self.inner.borrow().scope_members(scope, after, limit)
    }
    fn record_checkpoint(&self, summary: &ScopeSummary) -> Result<()> {
        self.change(|journal| journal.record_checkpoint(summary))
    }
    fn covered_scope(&self, scope: Number) -> Result<Option<ScopeSummary>> {
        self.inner.borrow().covered_scope(scope)
    }
    fn root_completion(&self, request: Id) -> Result<Control> {
        self.inner.borrow().root_completion(request)
    }
}

/// A journal whose process ended without notice, opened again from what was written.
fn kill_and_reopen(mode: u8) -> Journal {
    let path = disk();
    let journal = bound(&path, 4);
    journal.prepare(&declare()).unwrap();
    if mode == 1 {
        work_persist_for_crash(&journal);
    } else if mode == 2 {
        scope_persist_for_crash(&journal);
    }
    drop(journal);
    let limits = JournalLimits { operations: Id(4), ..Default::default() };
    Journal::open(&path, creation(), limits).unwrap()
}

fn creation() -> Creation {
    Creation {
        authority: IdentityLabel("issuer-a".into()),
        owner: IdentityLabel("alice".into()),
        creation_sequence: Id(1),
        policy: Policy {
            execution_limit_ms: Duration(60000),
            output_retention_ms: Duration(120000),
            receipt_retention_ms: Duration(180000),
        },
        results: true,
    }
}

fn selection() -> Capabilities {
    Capabilities {
        response: ResponseFlag(1),
        supported: vec![
            ProfileId(DURABLE_WORK.into()),
            ProfileId(RESULT_DELIVERY.into()),
        ],
        required: vec![
            ProfileId(DURABLE_WORK.into()),
            ProfileId(RESULT_DELIVERY.into()),
        ],
        control_limit: ControlLimit(65536),
        stream_limit: ConcurrencyLimit(4),
        pending_limit: ConcurrencyLimit(16),
        object_limit: Number(1 << 20),
        stream_idle_ms: IdleMs(5000),
        stream_lifetime_ms: LifetimeMs(30000),
    }
}

fn binding() -> Control {
    Control::Session(Session::Binding {
        request: Id(99),
        authority: creation().authority,
        owner: creation().owner,
        generation: Id(7),
        creation_sequence: Id(1),
        policy: creation().policy,
        limits: Limits {
            scopes: Id(100),
            entities: Id(10000),
            operations: Id(10000),
            retained_input_bytes: Number(1 << 20),
            retained_output_bytes: Number(1 << 20),
            active_jobs: Id(100),
        },
    })
}

fn work() -> WorkKey {
    WorkKey {
        scope: Number(0),
        producer: Producer(0),
        entity: Id(1),
    }
}

fn declare() -> Intent {
    Intent {
        operation: OperationId([1; 16]),
        mutation: Mutation::Declare {
            scope: Number(0),
            entity_ids: vec![Id(1)],
            seal: true,
        },
    }
}

fn receipt(journal: &Journal, intent: &Intent, body: Outcome) -> OperationReceipt {
    OperationReceipt {
        operation: intent.operation,
        request_digest: intent
            .mutation
            .digest(&journal.identity().unwrap(), Producer(0), intent.operation)
            .unwrap(),
        body,
    }
}

fn declared(journal: &Journal, intent: &Intent) -> OperationReceipt {
    receipt(
        journal,
        intent,
        Outcome::Declared {
            scope: Number(0),
            producer: Producer(0),
            accepted_count: BatchCount(1),
            declared: Number(1),
            seal: Some(Digest([2; 32])),
        },
    )
}

fn new(path: &Disk, operations: u64) -> Journal {
    Journal::initialize(
        path,
        creation(),
        JournalLimits {
            operations: Id(operations),
            ..Default::default()
        }
    )
    .unwrap()
}

fn bound(path: &Disk, operations: u64) -> Journal {
    let journal = new(path, operations);
    journal.record_binding(&binding(), &selection()).unwrap();
    journal
}

fn code(result: Result<()>, expected: ErrorCode) {
    assert!(
        matches!(&result, Err(JournalError::Protocol(e)) if e.code == expected),
        "{result:?}"
    );
}

#[test]
fn creation_and_uncertain_intent_survive_exclusive_reopen_with_fresh_request_numbers() {
    let path = disk();
    let journal = new(&path, 2);
    assert_eq!(
        journal.creation().request(Id(1)).unwrap(),
        creation().request(Id(1)).unwrap()
    );
    code(journal.prepare(&declare()), ErrorCode::NotReady);
    assert!(journal.binding().unwrap().is_none());
    drop(journal);
    let journal = Journal::open(
        &path,
        creation(),
        JournalLimits {
            operations: Id(2),
            ..Default::default()
        }
    )
    .unwrap();
    journal.record_binding(&binding(), &selection()).unwrap();
    journal.prepare(&declare()).unwrap();
    journal.prepare(&declare()).unwrap();
    assert!(journal.receipt(declare().operation).unwrap().is_none());
    drop(journal);
    let journal = Journal::open(
        &path,
        creation(),
        JournalLimits {
            operations: Id(2),
            ..Default::default()
        }
    )
    .unwrap();
    let intent = journal.intent(declare().operation).unwrap();
    assert_eq!(intent, declare());
    assert_eq!(request_id(&intent.control(Id(41)).unwrap()), Some(Id(41)));
    assert_eq!(
        journal.unresolved(Number(0), PageLimit(1)).unwrap(),
        vec![(Id(1), intent.clone())]
    );
    let received = declared(&journal, &intent);
    journal.record_receipt(&received).unwrap();
    journal.record_receipt(&received).unwrap();
    assert_eq!(journal.receipt(intent.operation).unwrap(), Some(received));
    assert!(
        journal
            .unresolved(Number(0), PageLimit(1))
            .unwrap()
            .is_empty()
    );
    journal.prepare(&intent).unwrap(); // a replay never becomes a fresh mutation
}

#[test]
fn immutable_binding_and_required_profiles_are_checked_before_receipt_storage() {
    let journal = new(&disk(), 8);
    let mut changed = binding();
    let Control::Session(Session::Binding { owner, .. }) = &mut changed else {
        unreachable!()
    };
    *owner = IdentityLabel("mallory".into());
    code(
        journal.record_binding(&changed, &selection()),
        ErrorCode::IntegrityError,
    );
    let mut profiles = selection();
    profiles.supported.pop();
    profiles.required.pop();
    code(
        journal.record_binding(&binding(), &profiles),
        ErrorCode::ExtensionUnsupported,
    );
    assert!(journal.binding().unwrap().is_none());
    journal.record_binding(&binding(), &selection()).unwrap();
    let mut changed = binding();
    let Control::Session(Session::Binding { generation, .. }) = &mut changed else {
        unreachable!()
    };
    *generation = Id(8);
    code(
        journal.record_binding(&changed, &selection()),
        ErrorCode::IntegrityError,
    );
    assert_eq!(journal.identity().unwrap().generation, Id(7));
}

#[test]
fn every_mutation_round_trips_and_checks_its_typed_receipt() {
    let path = disk();
    let journal = bound(&path, 16);
    let parameters = AdmitParameters {
        work: work(),
        input: Input {
            length: Number(3),
            sha256: Digest([8; 32]),
            content_type: ApplicationLabel("text/plain".into()),
        },
        application: ApplicationLabel("copy-v1".into()),
        mode: Mode(2),
        execution_ms: Duration(1000),
        outputs: OutputBudget {
            count: BatchCount(1),
            total_bytes: Number(3),
        },
    };
    let cases = [
        (
            Mutation::Admit(parameters),
            Outcome::Admitted {
                work: work(),
                attempt: Id(1),
                admitted_at: Number(100),
                deadline: Number(1100),
                child: Some(ChildScope {
                    scope: Id(1),
                    producer: Producer(1),
                }),
            },
        ),
        (declare().mutation, declared(&journal, &declare()).body),
        (
            Mutation::Retry {
                work: work(),
                expected_attempt: Id(2),
            },
            Outcome::Retried {
                work: work(),
                expected_attempt: Id(2),
                replacement_attempt: Id(3),
                accepted_at: Number(123),
            },
        ),
        (
            Mutation::Cancel { work: work() },
            Outcome::Cancelled {
                work: work(),
                accepted_at: Number(123),
                disposition: Disposition(0),
                state_at_commit: State(State::CANCELLING),
            },
        ),
        (
            Mutation::Skip { work: work() },
            Outcome::Skipped {
                work: work(),
                accepted_at: Number(123),
                // Cancellation won. Skip can only report that existing terminal state.
                disposition: Disposition(1),
                state_at_commit: State(State::CANCELLED),
            },
        ),
        (
            Mutation::ScopeCancel { scope: Number(0) },
            Outcome::ScopeCancelled {
                scope: Number(0),
                accepted_at: Number(123),
            },
        ),
    ];
    for (index, (mutation, outcome)) in cases.into_iter().enumerate() {
        let intent = Intent {
            operation: OperationId([index as u8 + 1; 16]),
            mutation,
        };
        journal.prepare(&intent).unwrap();
        assert_eq!(journal.intent(intent.operation).unwrap(), intent);
        let received = receipt(&journal, &intent, outcome);
        let mut wrong = received.clone();
        wrong.request_digest.0[0] ^= 1;
        code(journal.record_receipt(&wrong), ErrorCode::IntegrityError);
        let mut wrong = received.clone();
        wrong.body = Outcome::ScopeCancelled {
            scope: Number(999),
            accepted_at: Number(123),
        };
        code(journal.record_receipt(&wrong), ErrorCode::IntegrityError);
        journal.record_receipt(&received).unwrap();
        assert_eq!(journal.receipt(intent.operation).unwrap(), Some(received));
    }
    drop(journal);
    let journal = Journal::open(
        &path,
        creation(),
        JournalLimits {
            operations: Id(16),
            ..Default::default()
        }
    )
    .unwrap();
    assert!(
        journal
            .unresolved(Number(0), PageLimit(256))
            .unwrap()
            .is_empty()
    );
}

#[test]
fn changed_intent_or_receipt_and_quota_exhaustion_never_evict_the_original() {
    let journal = bound(&disk(), 1);
    journal.prepare(&declare()).unwrap();
    let mut changed = declare();
    changed.mutation = Mutation::ScopeCancel { scope: Number(0) };
    code(journal.prepare(&changed), ErrorCode::Conflict);
    changed.operation = OperationId([9; 16]);
    code(journal.prepare(&changed), ErrorCode::LimitExceeded);
    let received = declared(&journal, &declare());
    journal.record_receipt(&received).unwrap();
    let mut changed = received.clone();
    let Outcome::Declared { seal, .. } = &mut changed.body else {
        unreachable!()
    };
    *seal = Some(Digest([3; 32]));
    code(journal.record_receipt(&changed), ErrorCode::IntegrityError);
    assert_eq!(journal.intent(declare().operation).unwrap(), declare());
    assert_eq!(
        journal.receipt(declare().operation).unwrap(),
        Some(received)
    );
}

#[test]
fn journal_record_checksum_binds_operation_namespace_and_session_generation() {
    let identity = SessionIdentity {
        authority: creation().authority,
        owner: creation().owner,
        generation: Id(7),
    };
    let image = intent_image(&declare(), &identity).unwrap();
    assert_eq!(
        decode_intent(&image, declare().operation, &identity).unwrap(),
        declare()
    );
    let mut other = identity.clone();
    other.generation = Id(8);
    assert!(decode_intent(&image, declare().operation, &other).is_err());
    assert!(decode_intent(&image, OperationId([2; 16]), &identity).is_err());
    let mut damaged = image;
    damaged[4] ^= 1;
    assert!(decode_intent(&damaged, declare().operation, &identity).is_err());
}

#[test]
fn recovery_pages_are_bounded_and_do_not_renumber_unresolved_operations() {
    let journal = bound(&disk(), 4);
    for index in 1..=4 {
        let mut intent = declare();
        intent.operation = OperationId([index; 16]);
        journal.prepare(&intent).unwrap();
    }
    journal
        .record_receipt(&declared(&journal, &declare()))
        .unwrap();
    let first = journal.unresolved(Number(0), PageLimit(2)).unwrap();
    assert_eq!(
        first.iter().map(|(id, _)| id.0).collect::<Vec<_>>(),
        vec![2, 3]
    );
    let last = journal.unresolved(Number(3), PageLimit(2)).unwrap();
    assert_eq!(last[0].0, Id(4));
    assert_eq!(last.len(), 1);
    assert!(
        journal
            .unresolved(Number(4), PageLimit(2))
            .unwrap()
            .is_empty()
    );
    assert!(journal.unresolved(Number(0), PageLimit(257)).is_err());
}

#[test]
fn forced_process_exit_after_commit_preserves_the_original_unknown_operation() {
    let journal = kill_and_reopen(0);
    assert_eq!(journal.intent(declare().operation).unwrap(), declare());
    assert!(journal.receipt(declare().operation).unwrap().is_none());
    journal.prepare(&declare()).unwrap();
    assert_eq!(
        journal.unresolved(Number(0), PageLimit(256)).unwrap().len(),
        1
    );
}

#[test]
fn forced_process_exit_preserves_terminal_observation_manifest_and_selected_index() {
    let journal = kill_and_reopen(1);
    work_verify_crash_recovery(&journal);
}

#[test]
fn forced_process_exit_preserves_verified_membership_and_root_coverage() {
    let journal = kill_and_reopen(2);
    scope_verify_crash_recovery(&journal);
}

fn work_persist_for_crash(journal: &Journal) {
    journal.observe_work(Id(3), &success()).unwrap();
    journal
        .remember_reference(&manifest(), OutputIndex(0))
        .unwrap();
}

fn work_verify_crash_recovery(journal: &Journal) {
    assert_eq!(
        journal.observed_work(&work()).unwrap().unwrap(),
        ObservedWork {
            revision: Id(3),
            view: success()
        }
    );
    let reference = journal
        .retained_reference(&work(), Id(1), OutputIndex(0))
        .unwrap();
    assert_eq!(reference.manifest(), &manifest());
    assert_eq!(reference.index(), OutputIndex(0));
    assert_eq!(
        journal.unresolved(Number(0), PageLimit(256)).unwrap().len(),
        1
    );
}

fn admitted_receipt(journal: &Journal) -> OperationReceipt {
    let intent = Intent {
        operation: OperationId([2; 16]),
        mutation: Mutation::Admit(AdmitParameters {
            work: work(),
            input: input(),
            application: ApplicationLabel("copy-v1".into()),
            mode: Mode(0),
            execution_ms: Duration(1000),
            outputs: OutputBudget {
                count: BatchCount(2),
                total_bytes: Number(3),
            },
        }),
    };
    journal.prepare(&intent).unwrap();
    receipt(
        journal,
        &intent,
        Outcome::Admitted {
            work: work(),
            attempt: Id(1),
            admitted_at: Number(100),
            deadline: Number(1100),
            child: None,
        },
    )
}

fn input() -> Input {
    Input {
        length: Number(3),
        sha256: Digest([8; 32]),
        content_type: ApplicationLabel("text/plain".into()),
    }
}

fn manifest() -> Manifest {
    Manifest {
        version: Literal,
        authority: creation().authority, owner: creation().owner, generation: Id(7), work: work(), attempt: Id(1),
        input_sha256: input().sha256, committed_at: Number(200), available_until: Number(120200),
        outputs: vec![Output {
            index: OutputIndex(0), length: Number(3), sha256: Digest([9; 32]), content_type: ApplicationLabel("text/plain".into()),
            locator: ResultLocator("pipestream://untrusted-hint.invalid:7443/v2/sessions/7/scopes/0/producers/0/entities/1/attempts/1/outputs/0".into()),
        }],
    }
}

fn view() -> WorkView {
    WorkView {
        work: work(),
        state: State(State::ACTIVE),
        attempt: Number(1),
        input: Some(input()),
        admitted_at: Some(Number(100)),
        deadline: Some(Number(1100)),
        terminal_at: None,
        receipt_until: None,
        output_until: None,
        child: None,
        manifest: None,
        diagnostic: None,
    }
}

fn success() -> WorkView {
    WorkView {
        state: State(State::SUCCEEDED),
        terminal_at: Some(Number(200)),
        receipt_until: Some(Number(180200)),
        output_until: Some(Number(120200)),
        manifest: Some(manifest()),
        ..view()
    }
}

fn declared_view() -> WorkView {
    WorkView {
        state: State(State::DECLARED),
        attempt: Number(0),
        input: None,
        admitted_at: None,
        deadline: None,
        ..view()
    }
}

fn reopen(path: &Disk) -> Journal {
    Journal::open(
        path,
        creation(),
        JournalLimits {
            operations: Id(16),
            ..Default::default()
        }
    )
    .unwrap()
}

fn refusal<T: std::fmt::Debug>(result: Result<T>, expected: ErrorCode) {
    code(result.map(|_| ()), expected);
}

fn cancelled(journal: &Journal, skip: bool, disposition: u64, state: State) -> OperationReceipt {
    let intent = Intent {
        operation: OperationId([3; 16]),
        mutation: if skip {
            Mutation::Skip { work: work() }
        } else {
            Mutation::Cancel { work: work() }
        },
    };
    journal.prepare(&intent).unwrap();
    let body = if skip {
        Outcome::Skipped {
            work: work(),
            accepted_at: Number(150),
            disposition: Disposition(disposition),
            state_at_commit: state,
        }
    } else {
        Outcome::Cancelled {
            work: work(),
            accepted_at: Number(150),
            disposition: Disposition(disposition),
            state_at_commit: state,
        }
    };
    receipt(journal, &intent, body)
}

fn retried(journal: &Journal) -> OperationReceipt {
    let intent = Intent {
        operation: OperationId([4; 16]),
        mutation: Mutation::Retry {
            work: work(),
            expected_attempt: Id(1),
        },
    };
    journal.prepare(&intent).unwrap();
    receipt(
        journal,
        &intent,
        Outcome::Retried {
            work: work(),
            expected_attempt: Id(1),
            replacement_attempt: Id(2),
            accepted_at: Number(150),
        },
    )
}

#[test]
fn observations_preserve_revision_order_and_immutable_terminal_evidence_on_reopen() {
    let path = disk();
    let journal = bound(&path, 16);
    let admission = admitted_receipt(&journal);
    journal.record_receipt(&admission).unwrap();
    journal.observe_work(Id(2), &view()).unwrap();
    let terminal = journal.observe_work(Id(3), &success()).unwrap();
    assert_eq!(
        journal.observe_work(Id(1), &declared_view()).unwrap(),
        terminal
    );
    let mut changed = view();
    changed.state = State(State::CANCELLING);
    refusal(
        journal.observe_work(Id(3), &changed),
        ErrorCode::IntegrityError,
    );
    refusal(
        journal.observe_work(Id(4), &changed),
        ErrorCode::IntegrityError,
    );
    drop(journal);
    let journal = reopen(&path);
    assert_eq!(journal.observed_work(&work()).unwrap(), Some(terminal));
    assert_eq!(
        journal.receipt(admission.operation).unwrap(),
        Some(admission)
    );
}

#[test]
fn views_and_manifests_enforce_known_admission_and_exact_retention_policy() {
    let journal = bound(&disk(), 16);
    journal.record_receipt(&admitted_receipt(&journal)).unwrap();
    for field in 0..6 {
        let mut changed = view();
        match field {
            0 => changed.input.as_mut().unwrap().sha256.0[0] ^= 1,
            1 => changed.input.as_mut().unwrap().length = Number(4),
            2 => changed.input.as_mut().unwrap().content_type = ApplicationLabel("other".into()),
            3 => changed.admitted_at = Some(Number(101)),
            4 => changed.deadline = Some(Number(1101)),
            _ => {
                changed.child = Some(ChildScope {
                    scope: Id(1),
                    producer: Producer(0),
                })
            }
        }
        refusal(
            journal.observe_work(Id(2), &changed),
            ErrorCode::IntegrityError,
        );
    }
    for field in 0..7 {
        let mut changed = manifest();
        match field {
            0 => changed.authority = IdentityLabel("other".into()),
            1 => changed.owner = IdentityLabel("other".into()),
            2 => changed.input_sha256.0[0] ^= 1,
            3 => changed.available_until = Number(120201),
            4 => changed.outputs[0].length = Number(4),
            5 => {
                changed.committed_at = Number(99);
                changed.available_until = Number(120099);
            }
            _ => {
                changed.committed_at = Number(1100);
                changed.available_until = Number(121100);
            }
        }
        code(
            journal.remember_manifest(&changed),
            ErrorCode::IntegrityError,
        );
    }
    assert!(journal.observed_work(&work()).unwrap().is_none());
    journal.observe_work(Id(3), &success()).unwrap();
}

#[test]
fn full_manifest_and_explicit_output_selection_survive_reopen_without_uri_credentials() {
    let path = disk();
    let journal = bound(&path, 16);
    journal.remember_manifest(&manifest()).unwrap();
    refusal(
        journal.retained_reference(&work(), Id(1), OutputIndex(0)),
        ErrorCode::NotFound,
    );
    refusal(
        journal.remember_reference(&manifest(), OutputIndex(1)),
        ErrorCode::NotFound,
    );
    let reference = journal
        .remember_reference(&manifest(), OutputIndex(0))
        .unwrap();
    assert_eq!(reference.manifest(), &manifest());
    assert_eq!(reference.index(), OutputIndex(0));
    assert_eq!(
        reference.attach(Id(7)).unwrap(),
        Control::Session(Session::Attach {
            request: Id(7),
            authority: creation().authority,
            owner: creation().owner,
            generation: Id(7),
        })
    );
    assert_eq!(
        reference.read(Id(8)).unwrap(),
        Control::Result(ResultMessage::Read {
            request: Id(8),
            work: work(),
            attempt: Id(1),
            index: OutputIndex(0),
            expected_sha256: Digest([9; 32]),
        })
    );
    drop(journal);
    let journal = reopen(&path);
    assert_eq!(
        journal
            .retained_reference(&work(), Id(1), OutputIndex(0))
            .unwrap(),
        reference
    );
    refusal(
        journal.retained_reference(&work(), Id(2), OutputIndex(0)),
        ErrorCode::NotFound,
    );
    assert!(
        journal
            .unresolved(Number(0), PageLimit(1))
            .unwrap()
            .is_empty()
    );
}

#[test]
fn accepted_fence_or_replacement_refuses_conflicting_success_in_both_arrival_orders() {
    for action in 0..3 {
        for receipt_first in [false, true] {
            for observation in [false, true] {
                            let journal = bound(&disk(), 16);
                let received = match action {
                    0 => cancelled(&journal, false, 0, State(State::CANCELLING)),
                    1 => cancelled(&journal, true, 0, State(State::SKIPPED)),
                    _ => retried(&journal),
                };
                let save = || {
                    if observation {
                        journal.observe_work(Id(3), &success()).map(|_| ())
                    } else {
                        journal.remember_manifest(&manifest())
                    }
                };
                if receipt_first {
                    journal.record_receipt(&received).unwrap();
                    code(save(), ErrorCode::IntegrityError);
                } else {
                    save().unwrap();
                    code(journal.record_receipt(&received), ErrorCode::IntegrityError);
                    assert!(journal.receipt(received.operation).unwrap().is_none());
                }
            }
        }
    }
}

#[test]
fn valid_replacement_and_terminal_fence_receipts_remain_valid_on_reopen() {
    let path = disk();
    let journal = bound(&path, 16);
    journal.record_receipt(&admitted_receipt(&journal)).unwrap();
    journal.record_receipt(&retried(&journal)).unwrap();
    let mut completed = success();
    completed.attempt = Number(2);
    let manifest = completed.manifest.as_mut().unwrap();
    manifest.attempt = Id(2);
    manifest.outputs[0].locator.0 = manifest.outputs[0]
        .locator
        .0
        .replace("attempts/1/", "attempts/2/");
    journal.observe_work(Id(5), &completed).unwrap();
    // A delayed snapshot is retained only if it is compatible; it does not roll back the retry.
    assert_eq!(
        journal.observe_work(Id(2), &view()).unwrap().view,
        completed
    );
    let mut cancellation = cancelled(&journal, false, 1, State(State::SUCCEEDED));
    let Outcome::Cancelled { accepted_at, .. } = &mut cancellation.body else {
        unreachable!()
    };
    *accepted_at = Number(201);
    journal.record_receipt(&cancellation).unwrap();
    let selected = journal
        .remember_reference(completed.manifest.as_ref().unwrap(), OutputIndex(0))
        .unwrap();
    drop(journal);
    let journal = reopen(&path);
    assert_eq!(
        journal.observed_work(&work()).unwrap().unwrap().view,
        completed
    );
    assert_eq!(
        journal
            .retained_reference(&work(), Id(2), OutputIndex(0))
            .unwrap(),
        selected
    );
}

#[test]
fn cancellation_and_retry_waits_cannot_turn_into_success_for_the_fenced_attempt() {
    for state in [State(State::CANCELLING), State(State::AWAITING_RETRY)] {
        for first in [false, true] {
                    let journal = bound(&disk(), 16);
            let mut waiting = view();
            waiting.state = state;
            if state == State(State::AWAITING_RETRY) {
                waiting.diagnostic = Some(Diagnostic {
                    code: DiagnosticCode(1),
                    detail: Detail("retryable".into()),
                });
            }
            if first {
                journal.observe_work(Id(3), &waiting).unwrap();
                refusal(
                    journal.observe_work(Id(4), &view()),
                    ErrorCode::IntegrityError,
                );
                code(
                    journal.remember_manifest(&manifest()),
                    ErrorCode::IntegrityError,
                );
            } else {
                journal.remember_manifest(&manifest()).unwrap();
                refusal(
                    journal.observe_work(Id(3), &waiting),
                    ErrorCode::IntegrityError,
                );
            }
        }
    }
}

#[test]
fn receipt_pairs_refuse_conflicting_fences_and_retry_times_without_an_observation() {
    for reversed in [false, true] {
            let journal = bound(&disk(), 16);
        let cancel = cancelled(&journal, false, 0, State(State::CANCELLING));
        let intent = Intent {
            operation: OperationId([5; 16]),
            mutation: Mutation::Skip { work: work() },
        };
        journal.prepare(&intent).unwrap();
        let skip = receipt(
            &journal,
            &intent,
            Outcome::Skipped {
                work: work(),
                accepted_at: Number(151),
                disposition: Disposition(0),
                state_at_commit: State(State::CANCELLING),
            },
        );
        let (first, second) = if reversed {
            (&skip, &cancel)
        } else {
            (&cancel, &skip)
        };
        journal.record_receipt(first).unwrap();
        code(journal.record_receipt(second), ErrorCode::IntegrityError);
    }
    for time in [99, 1100] {
        for reversed in [false, true] {
                    let journal = bound(&disk(), 16);
            let admitted = admitted_receipt(&journal);
            let mut retry = retried(&journal);
            let Outcome::Retried { accepted_at, .. } = &mut retry.body else {
                unreachable!()
            };
            *accepted_at = Number(time);
            let (first, second) = if reversed {
                (&retry, &admitted)
            } else {
                (&admitted, &retry)
            };
            journal.record_receipt(first).unwrap();
            code(journal.record_receipt(second), ErrorCode::IntegrityError);
        }
    }
}

#[test]
fn impossible_admission_receipts_cannot_be_saved_without_a_view() {
    for field in 0..3 {
            let journal = bound(&disk(), 16);
        let first = admitted_receipt(&journal);
        let mut intent = journal.intent(first.operation).unwrap();
        intent.operation = OperationId([10; 16]);
        let Mutation::Admit(p) = &mut intent.mutation else {
            unreachable!()
        };
        match field {
            0 => p.work.producer = Producer(1),
            1 => p.execution_ms = Duration(60001),
            _ => journal.record_receipt(&first).unwrap(),
        }
        let body = Outcome::Admitted {
            work: p.work.clone(),
            attempt: Id(1),
            admitted_at: Number(100),
            deadline: Number(100 + p.execution_ms.0),
            child: None,
        };
        if field == 0 {
            // The immutable-intent codec already refuses foreign input producers,
            // before there can be an accepted receipt to validate.
            code(journal.prepare(&intent), ErrorCode::FrameError);
            continue;
        }
        journal.prepare(&intent).unwrap();
        code(
            journal.record_receipt(&receipt(&journal, &intent, body)),
            ErrorCode::IntegrityError,
        );
        assert!(journal.receipt(intent.operation).unwrap().is_none());
    }
}

#[test]
fn independent_observation_and_selection_quotas_never_evict_evidence() {
    let path = disk();
    let limits = JournalLimits {
        operations: Id(16),
        observations: Id(1),
    };
    let journal =
        Journal::initialize(&path, creation(), limits).unwrap();
    journal.record_binding(&binding(), &selection()).unwrap();
    journal.observe_work(Id(2), &view()).unwrap();
    let mut other = declared_view();
    other.work.entity = Id(2);
    refusal(
        journal.observe_work(Id(1), &other),
        ErrorCode::LimitExceeded,
    );
    let mut completed = success();
    let m = completed.manifest.as_mut().unwrap();
    let mut second = m.outputs[0].clone();
    second.index = OutputIndex(1);
    second.locator.0 = second.locator.0.replace("outputs/0", "outputs/1");
    m.outputs.push(second);
    journal.observe_work(Id(3), &completed).unwrap();
    let reference = journal
        .remember_reference(completed.manifest.as_ref().unwrap(), OutputIndex(1))
        .unwrap();
    refusal(
        journal.remember_reference(completed.manifest.as_ref().unwrap(), OutputIndex(0)),
        ErrorCode::LimitExceeded,
    );
    assert_eq!(
        journal
            .remember_reference(completed.manifest.as_ref().unwrap(), OutputIndex(1))
            .unwrap(),
        reference
    );
    let mut other = manifest();
    other.work.entity = Id(2);
    other.outputs[0].locator.0 = other.outputs[0]
        .locator
        .0
        .replace("entities/1/", "entities/2/");
    code(journal.remember_manifest(&other), ErrorCode::LimitExceeded);
    drop(journal);
    let journal = Journal::open(&path, creation(), limits).unwrap();
    assert_eq!(
        journal.observed_work(&work()).unwrap().unwrap().view,
        completed
    );
    assert_eq!(
        journal
            .retained_reference(&work(), Id(1), OutputIndex(1))
            .unwrap(),
        reference
    );
}

#[test]
fn zero_outputs_and_inputless_cancellation_remain_valid_but_never_invent_references() {
    let path = disk();
    let journal = bound(&path, 16);
    let mut completed = success();
    completed.manifest.as_mut().unwrap().outputs.clear();
    journal.observe_work(Id(3), &completed).unwrap();
    refusal(
        journal.remember_reference(completed.manifest.as_ref().unwrap(), OutputIndex(0)),
        ErrorCode::NotFound,
    );
    let mut cancelled = declared_view();
    cancelled.work.entity = Id(2);
    cancelled.state = State(State::CANCELLED);
    cancelled.terminal_at = Some(Number(200));
    cancelled.receipt_until = Some(Number(180200));
    journal.observe_work(Id(2), &cancelled).unwrap();
    drop(journal);
    let journal = reopen(&path);
    assert_eq!(
        journal
            .observed_work(&cancelled.work)
            .unwrap()
            .unwrap()
            .view,
        cancelled
    );
    assert_eq!(
        journal.observed_work(&work()).unwrap().unwrap().view,
        completed
    );
}

#[test]
fn profile_policy_and_root_identity_are_checked_without_a_known_admission() {
    let journal = bound(&disk(), 16);
    let mut wrong = view();
    wrong.work.producer = Producer(1);
    refusal(
        journal.observe_work(Id(2), &wrong),
        ErrorCode::IntegrityError,
    );
    let mut wrong = success();
    wrong.receipt_until = Some(Number(180201));
    refusal(
        journal.observe_work(Id(3), &wrong),
        ErrorCode::IntegrityError,
    );
    let mut wrong = view();
    wrong.deadline = Some(Number(60101));
    refusal(
        journal.observe_work(Id(2), &wrong),
        ErrorCode::IntegrityError,
    );
    let mut creation = creation();
    creation.results = false;
    let journal = Journal::initialize(
        &disk(),
        creation,
        JournalLimits::default()
    )
    .unwrap();
    let mut selected = selection();
    selected.supported.pop();
    selected.required.pop();
    journal.record_binding(&binding(), &selected).unwrap();
    code(
        journal.remember_manifest(&manifest()),
        ErrorCode::ExtensionUnsupported,
    );
    let mut completed = success();
    completed.manifest = None;
    completed.output_until = None;
    journal.observe_work(Id(3), &completed).unwrap();
    completed.work.entity = Id(2);
    completed.terminal_at = Some(Number(1100));
    completed.receipt_until = Some(Number(181100));
    refusal(
        journal.observe_work(Id(3), &completed),
        ErrorCode::IntegrityError,
    );
}

fn scope_persist_for_crash(journal: &Journal) {
    let root = Fixture::root(&[1]);
    root.observe(journal, State(State::SUCCEEDED));
    journal.observe_work(Id(3), &success()).unwrap();
    journal
        .record_checkpoint(&root.summary(journal, &[success()], &[], 210))
        .unwrap();
}

fn scope_verify_crash_recovery(journal: &Journal) {
    let root = Fixture::root(&[1]);
    assert!(
        journal
            .scope_observation(Number(0))
            .unwrap()
            .unwrap()
            .membership_verified
    );
    assert_eq!(
        journal
            .scope_members(Number(0), Number(0), PageLimit(1))
            .unwrap()[0]
            .work,
        work()
    );
    assert_eq!(
        journal.covered_scope(Number(0)).unwrap(),
        Some(root.summary(journal, &[success()], &[], 210))
    );
    assert!(matches!(
        journal.root_completion(Id(10)).unwrap(),
        Control::Drain(Drain::Complete {
            generation: Id(7),
            ..
        })
    ));
    assert_eq!(
        journal.unresolved(Number(0), PageLimit(256)).unwrap().len(),
        1
    );
}

struct Fixture {
    scope: Number,
    producer: Producer,
    parent: Option<WorkKey>,
    ids: Vec<Id>,
}

impl Fixture {
    fn root(ids: &[u64]) -> Self {
        Self {
            scope: Number(0),
            producer: Producer(0),
            parent: None,
            ids: ids.iter().copied().map(Id).collect(),
        }
    }
    fn seal(&self, journal: &Journal) -> Digest {
        scope_seal(
            &journal.identity().unwrap(),
            self.scope,
            self.producer,
            &self.parent,
            Number(self.ids.len() as u64),
            &self.ids,
        )
        .unwrap()
    }
    fn page(
        &self,
        journal: &Journal,
        after: u64,
        ids: &[Id],
        state: State,
        sealed: bool,
        more: bool,
    ) -> (Control, Control) {
        (
            Control::Scope(Scope::Page {
                request: Id(1),
                scope: self.scope,
                after_entity: Number(after),
                limit: PageLimit(256),
            }),
            Control::Scope(Scope::PageResponse {
                request: Id(1),
                scope: self.scope,
                producer: self.producer,
                parent: self.parent.clone(),
                sealed,
                seal: if sealed { Some(self.seal(journal)) } else { None },
                declared: Number(self.ids.len() as u64),
                entries: ids
                    .iter()
                    .map(|id| ScopeEntry { entity: *id, state })
                    .collect(),
                more,
            }),
        )
    }
    fn observe(&self, journal: &Journal, state: State) -> ScopeObservation {
        let (request, response) = self.page(journal, 0, &self.ids, state, true, false);
        journal.observe_scope_page(&request, &response).unwrap()
    }
    fn summary(
        &self,
        journal: &Journal,
        views: &[WorkView],
        children: &[ScopeSummary],
        closed: u64,
    ) -> ScopeSummary {
        let mut counts = Counts {
            success: Number(0),
            failure: Number(0),
            cancelled: Number(0),
            skipped: Number(0),
        };
        let mut root = StatusRoot::default();
        for view in views {
            let count = match view.state {
                State(State::SUCCEEDED) => &mut counts.success,
                State(State::FAILED) => &mut counts.failure,
                State(State::CANCELLED) => &mut counts.cancelled,
                State(State::SKIPPED) => &mut counts.skipped,
                _ => panic!("nonterminal fixture"),
            };
            count.0 += 1;
            root.push(
                StatusLeaf {
                    work: view.work.clone(),
                    state: view.state,
                    attempt: view.attempt,
                    manifest_digest: view
                        .manifest
                        .as_ref()
                        .map(Manifest::digest)
                        .transpose()
                        .unwrap(),
                    child_status_root: view.child.as_ref().map(|child| {
                        children
                            .iter()
                            .find(|s| s.scope.0 == child.scope.0)
                            .unwrap()
                            .status_root
                    }),
                }
                .digest()
                .unwrap(),
            )
            .unwrap();
        }
        ScopeSummary {
            scope: self.scope,
            producer: self.producer,
            parent: self.parent.clone(),
            seal: self.seal(journal),
            declared: Number(self.ids.len() as u64),
            counts,
            status_root: root.finish(),
            closed_at: Number(closed),
        }
    }
}

fn cancelled_view(entity: u64) -> WorkView {
    WorkView {
        work: WorkKey {
            entity: Id(entity),
            ..work()
        },
        state: State(State::CANCELLED),
        terminal_at: Some(Number(200)),
        receipt_until: Some(Number(180200)),
        ..declared_view()
    }
}

fn branch_views() -> (WorkView, WorkView, Fixture, Fixture) {
    let mut branch = success();
    branch.child = Some(ChildScope {
        scope: Id(1),
        producer: Producer(1),
    });
    branch.terminal_at = Some(Number(250));
    branch.receipt_until = Some(Number(180250));
    branch.output_until = Some(Number(120250));
    branch.manifest.as_mut().unwrap().committed_at = Number(250);
    branch.manifest.as_mut().unwrap().available_until = Number(120250);
    let mut child = success();
    child.work = WorkKey {
        scope: Number(1),
        producer: Producer(1),
        entity: Id(5),
    };
    child.manifest.as_mut().unwrap().work = child.work.clone();
    child.manifest.as_mut().unwrap().outputs[0].locator.0 = "pipestream://untrusted-hint.invalid:7443/v2/sessions/7/scopes/1/producers/1/entities/5/attempts/1/outputs/0".into();
    let nested = Fixture {
        scope: Number(1),
        producer: Producer(1),
        parent: Some(work()),
        ids: vec![Id(5)],
    };
    (branch, child, Fixture::root(&[1]), nested)
}

#[test]
fn empty_page_is_not_coverage_but_verified_empty_seal_can_close_and_reopen() {
    let path = disk();
    let journal = bound(&path, 16);
    let root = Fixture::root(&[]);
    let (request, response) = root.page(&journal, 0, &[], State(State::DECLARED), false, false);
    assert!(
        !journal
            .observe_scope_page(&request, &response)
            .unwrap()
            .membership_verified
    );
    let summary = root.summary(&journal, &[], &[], 100);
    code(journal.record_checkpoint(&summary), ErrorCode::NotReady);
    refusal(journal.root_completion(Id(2)), ErrorCode::NotReady);
    assert!(root.observe(&journal, State(State::DECLARED)).membership_verified);
    journal.record_checkpoint(&summary).unwrap();
    drop(journal);
    let journal = reopen(&path);
    assert_eq!(
        journal.covered_scope(Number(0)).unwrap(),
        Some(summary.clone())
    );
    assert_eq!(
        journal.root_completion(Id(9)).unwrap(),
        Control::Drain(Drain::Complete {
            request: Id(9),
            generation: Id(7),
            root_summary: summary
        })
    );
}

#[test]
fn out_of_order_overlapping_pages_merge_without_claiming_missing_members_or_views() {
    let path = disk();
    let journal = bound(&path, 16);
    let root = Fixture::root(&(1..=300).collect::<Vec<_>>());
    let (request, response) = root.page(
        &journal,
        256,
        &root.ids[256..],
        State(State::CANCELLED),
        true,
        false,
    );
    assert!(
        !journal
            .observe_scope_page(&request, &response)
            .unwrap()
            .membership_verified
    );
    drop(journal);
    let journal = reopen(&path);
    let (request, response) =
        root.page(&journal, 0, &root.ids[..256], State(State::CANCELLED), true, true);
    assert!(
        journal
            .observe_scope_page(&request, &response)
            .unwrap()
            .membership_verified
    );
    let (request, response) = root.page(
        &journal,
        200,
        &root.ids[200..],
        State(State::DECLARED),
        true,
        false,
    );
    assert!(
        journal
            .observe_scope_page(&request, &response)
            .unwrap()
            .membership_verified
    );
    let members = journal
        .scope_members(Number(0), Number(200), PageLimit(256))
        .unwrap();
    assert_eq!(members.len(), 100);
    assert!(members.iter().all(|m| m.terminal == Some(State(State::CANCELLED))));
    let views: Vec<_> = (1..=300).map(cancelled_view).collect();
    let summary = root.summary(&journal, &views, &[], 210);
    code(journal.record_checkpoint(&summary), ErrorCode::NotReady);
    for view in &views {
        journal.observe_work(Id(2), view).unwrap();
    }
    journal.record_checkpoint(&summary).unwrap();
    drop(journal);
    let journal = reopen(&path);
    assert_eq!(journal.covered_scope(Number(0)).unwrap(), Some(summary));
}

#[test]
fn root_coverage_waits_for_verified_descendant_and_original_parent_allocation() {
    for child_first in [false, true] {
            let path = disk();
        let journal = bound(&path, 16);
        let (branch, child, root, nested) = branch_views();
        if child_first {
            nested.observe(&journal, State(State::SUCCEEDED));
            assert!(journal.scope_observation(Number(0)).unwrap().is_none());
            refusal(journal.root_completion(Id(3)), ErrorCode::NotReady);
            // Receiving a child does not invent the parent's admission. The pending
            // relationship must survive reopen and become checkable later.
            assert!(journal.observed_work(&branch.work).unwrap().is_none());
        }
        drop(journal);
        let journal = reopen(&path);
        root.observe(&journal, State(State::SUCCEEDED));
        journal.observe_work(Id(4), &branch).unwrap();
        let child_summary = nested.summary(&journal, std::slice::from_ref(&child), &[], 210);
        let root_summary = root.summary(
            &journal,
            std::slice::from_ref(&branch),
            std::slice::from_ref(&child_summary),
            260,
        );
        code(
            journal.record_checkpoint(&root_summary),
            ErrorCode::NotReady,
        );
        if !child_first {
            nested.observe(&journal, State(State::SUCCEEDED));
        }
        journal.observe_work(Id(3), &child).unwrap();
        code(
            journal.record_checkpoint(&root_summary),
            ErrorCode::NotReady,
        );
        journal.record_checkpoint(&child_summary).unwrap();
        refusal(journal.root_completion(Id(3)), ErrorCode::NotReady);
        journal.record_checkpoint(&root_summary).unwrap();
        drop(journal);
        let journal = reopen(&path);
        assert_eq!(
            journal.covered_scope(Number(1)).unwrap(),
            Some(child_summary)
        );
        assert_eq!(
            journal.covered_scope(Number(0)).unwrap(),
            Some(root_summary)
        );
    }
}

#[test]
fn strict_parent_success_refuses_failed_child_but_failed_parent_still_waits_for_children() {
    for parent_failed in [false, true] {
            let journal = bound(&disk(), 16);
        let (mut branch, mut child, root, nested) = branch_views();
        if parent_failed {
            branch.state = State(State::FAILED);
            branch.terminal_at = Some(Number(150));
            branch.receipt_until = Some(Number(180150));
            branch.output_until = None;
            branch.manifest = None;
            branch.diagnostic = Some(Diagnostic {
                code: DiagnosticCode(1),
                detail: Detail("failed before child closure".into()),
            });
        } else {
            child.state = State(State::FAILED);
            child.output_until = None;
            child.manifest = None;
            child.diagnostic = Some(Diagnostic {
                code: DiagnosticCode(1),
                detail: Detail("child failed".into()),
            });
        }
        root.observe(&journal, branch.state);
        journal.observe_work(Id(4), &branch).unwrap();
        nested.observe(&journal, child.state);
        journal.observe_work(Id(3), &child).unwrap();
        let child_summary = nested.summary(&journal, &[child], &[], 210);
        let root_summary = root.summary(
            &journal,
            &[branch],
            std::slice::from_ref(&child_summary),
            260,
        );
        code(
            journal.record_checkpoint(&root_summary),
            ErrorCode::NotReady,
        );
        journal.record_checkpoint(&child_summary).unwrap();
        if parent_failed {
            journal.record_checkpoint(&root_summary).unwrap();
        } else {
            code(
                journal.record_checkpoint(&root_summary),
                ErrorCode::IntegrityError,
            );
        }
    }
}

#[test]
fn declaration_receipts_and_page_inventory_cross_validate_in_both_arrival_orders() {
    for receipt_first in [false, true] {
            let journal = bound(&disk(), 16);
        let root = Fixture::root(&[1, 3]);
        let intent = Intent {
            operation: OperationId([11; 16]),
            mutation: Mutation::Declare {
                scope: Number(0),
                entity_ids: vec![Id(2)],
                seal: true,
            },
        };
        journal.prepare(&intent).unwrap();
        let received = receipt(
            &journal,
            &intent,
            Outcome::Declared {
                scope: Number(0),
                producer: Producer(0),
                accepted_count: BatchCount(1),
                declared: Number(2),
                seal: Some(root.seal(&journal)),
            },
        );
        if receipt_first {
            journal.record_receipt(&received).unwrap();
            let (request, response) =
                root.page(&journal, 0, &root.ids, State(State::DECLARED), true, false);
            refusal(
                journal.observe_scope_page(&request, &response),
                ErrorCode::IntegrityError,
            );
        } else {
            root.observe(&journal, State(State::DECLARED));
            code(journal.record_receipt(&received), ErrorCode::IntegrityError);
            assert!(journal.receipt(received.operation).unwrap().is_none());
        }
    }
}

#[test]
fn sealing_receipt_verifies_cached_unsealed_membership_or_rolls_back_atomically() {
    for wrong in [false, true] {
            let journal = bound(&disk(), 16);
        let root = Fixture::root(&[1, 2, 3]);
        let (request, response) = root.page(&journal, 0, &root.ids, State(State::DECLARED), false, false);
        assert!(
            !journal
                .observe_scope_page(&request, &response)
                .unwrap()
                .membership_verified
        );
        let intent = Intent {
            operation: OperationId([11; 16]),
            mutation: Mutation::Declare {
                scope: Number(0),
                entity_ids: vec![Id(3)],
                seal: true,
            },
        };
        journal.prepare(&intent).unwrap();
        let mut seal = root.seal(&journal);
        if wrong {
            seal.0[0] ^= 1;
        }
        let received = receipt(
            &journal,
            &intent,
            Outcome::Declared {
                scope: Number(0),
                producer: Producer(0),
                accepted_count: BatchCount(1),
                declared: Number(3),
                seal: Some(seal),
            },
        );
        if wrong {
            code(journal.record_receipt(&received), ErrorCode::IntegrityError);
            assert!(journal.receipt(received.operation).unwrap().is_none());
            assert!(
                !journal
                    .scope_observation(Number(0))
                    .unwrap()
                    .unwrap()
                    .membership_verified
            );
        } else {
            journal.record_receipt(&received).unwrap();
            assert!(
                journal
                    .scope_observation(Number(0))
                    .unwrap()
                    .unwrap()
                    .membership_verified
            );
        }
    }
}

#[test]
fn parent_scope_metadata_rejects_impossible_child_identity_in_both_arrival_orders() {
    for child_first in [false, true] {
        for wrong_producer in [false, true] {
                    let journal = bound(&disk(), 16);
            let parent = Fixture {
                scope: Number(1),
                producer: Producer(1),
                parent: Some(work()),
                ids: vec![],
            };
            let child = Fixture {
                scope: Number(2),
                producer: Producer(0),
                parent: Some(WorkKey {
                    scope: Number(1),
                    producer: Producer(if wrong_producer { 0 } else { 1 }),
                    entity: Id(9),
                }),
                ids: vec![],
            };
            let (first, second) = if child_first {
                (&child, &parent)
            } else {
                (&parent, &child)
            };
            first.observe(&journal, State(State::DECLARED));
            let (request, response) = second.page(&journal, 0, &[], State(State::DECLARED), true, false);
            refusal(
                journal.observe_scope_page(&request, &response),
                ErrorCode::IntegrityError,
            );
            assert!(journal.scope_observation(second.scope).unwrap().is_none());
            assert!(journal.scope_observation(first.scope).unwrap().is_some());
        }
    }
}

#[test]
fn immutable_parent_allocation_rejects_changed_child_metadata_in_both_arrival_orders() {
    for child_first in [false, true] {
        for changed_field in 0..3 {
                    let path = disk();
            let journal = bound(&path, 16);
            let (branch, _, _, mut nested) = branch_views();
            match changed_field {
                0 => nested.scope = Number(2),
                1 => nested.producer = Producer(0),
                _ => nested.parent.as_mut().unwrap().entity = Id(2),
            }
            if child_first {
                nested.observe(&journal, State(State::DECLARED));
                refusal(
                    journal.observe_work(Id(4), &branch),
                    ErrorCode::IntegrityError,
                );
                assert!(journal.observed_work(&branch.work).unwrap().is_none());
            } else {
                journal.observe_work(Id(4), &branch).unwrap();
                let (request, response) =
                    nested.page(&journal, 0, &nested.ids, State(State::DECLARED), true, false);
                refusal(
                    journal.observe_scope_page(&request, &response),
                    ErrorCode::IntegrityError,
                );
            }
            drop(journal);
            let journal = reopen(&path);
            assert_eq!(
                journal.scope_observation(nested.scope).unwrap().is_some(),
                child_first
            );
            assert_eq!(
                journal.observed_work(&branch.work).unwrap().is_some(),
                !child_first
            );
        }
    }
}

#[test]
fn sealing_receipt_rechecks_pending_child_membership_in_both_arrival_orders() {
    for child_first in [false, true] {
            let path = disk();
        let journal = bound(&path, 16);
        let root = Fixture::root(&[1]);
        let child = Fixture {
            scope: Number(1),
            producer: Producer(1),
            parent: Some(WorkKey {
                scope: Number(0),
                producer: Producer(0),
                entity: Id(9),
            }),
            ids: vec![],
        };
        let (request, response) = root.page(&journal, 0, &root.ids, State(State::DECLARED), false, false);
        journal.observe_scope_page(&request, &response).unwrap();
        let intent = Intent {
            operation: OperationId([11; 16]),
            mutation: Mutation::Declare {
                scope: Number(0),
                entity_ids: vec![],
                seal: true,
            },
        };
        journal.prepare(&intent).unwrap();
        let received = receipt(
            &journal,
            &intent,
            Outcome::Declared {
                scope: Number(0),
                producer: Producer(0),
                accepted_count: BatchCount(0),
                declared: Number(1),
                seal: Some(root.seal(&journal)),
            },
        );
        if child_first {
            child.observe(&journal, State(State::DECLARED));
            code(journal.record_receipt(&received), ErrorCode::IntegrityError);
            assert!(journal.receipt(received.operation).unwrap().is_none());
        } else {
            journal.record_receipt(&received).unwrap();
            let (request, response) = child.page(&journal, 0, &[], State(State::DECLARED), true, false);
            refusal(
                journal.observe_scope_page(&request, &response),
                ErrorCode::IntegrityError,
            );
        }
        drop(journal);
        let journal = reopen(&path);
        assert_eq!(
            journal
                .scope_observation(Number(0))
                .unwrap()
                .unwrap()
                .membership_verified,
            !child_first
        );
        assert_eq!(
            journal.scope_observation(Number(1)).unwrap().is_some(),
            child_first
        );
    }
}

#[test]
fn count_matching_inventory_must_still_hash_to_the_expected_seal() {
    let journal = bound(&disk(), 16);
    let root = Fixture::root(&[1, 2, 3]);
    let (request, response) = root.page(
        &journal,
        0,
        &[Id(1), Id(4), Id(5)],
        State(State::DECLARED),
        true,
        false,
    );
    refusal(
        journal.observe_scope_page(&request, &response),
        ErrorCode::IntegrityError,
    );
    assert!(journal.scope_observation(Number(0)).unwrap().is_none());
}

#[test]
fn pages_refuse_wrong_correlation_omissions_and_changed_full_seal_atomically() {
    for field in 0..6 {
            let journal = bound(&disk(), 16);
        let root = Fixture::root(&[1, 2, 3]);
        let (request, response) =
            root.page(&journal, 0, &root.ids[..2], State(State::DECLARED), true, true);
        assert!(
            !journal
                .observe_scope_page(&request, &response)
                .unwrap()
                .membership_verified
        );
        let (mut request, mut response) =
            root.page(&journal, 0, &root.ids, State(State::DECLARED), true, false);
        let Control::Scope(Scope::PageResponse {
            request: id,
            entries,
            seal,
            more,
            ..
        }) = &mut response
        else {
            unreachable!()
        };
        match field {
            0 => *id = Id(2),
            1 => {
                let Control::Scope(Scope::Page { after_entity, .. }) = &mut request else {
                    unreachable!()
                };
                *after_entity = Number(1);
            }
            2 => {
                entries.remove(1);
                *more = true;
            }
            3 => seal.as_mut().unwrap().0[0] ^= 1,
            4 => {
                entries.pop();
            }
            _ => {
                let Control::Scope(Scope::Page { limit, .. }) = &mut request else {
                    unreachable!()
                };
                *limit = PageLimit(2);
            }
        }
        refusal(
            journal.observe_scope_page(&request, &response),
            ErrorCode::IntegrityError,
        );
        assert_eq!(
            journal
                .scope_members(Number(0), Number(0), PageLimit(256))
                .unwrap()
                .len(),
            2
        );
        assert!(
            !journal
                .scope_observation(Number(0))
                .unwrap()
                .unwrap()
                .membership_verified
        );
    }
}

#[test]
fn checkpoint_refuses_changed_counts_roots_times_and_terminal_evidence() {
    let journal = bound(&disk(), 16);
    let root = Fixture::root(&[1]);
    root.observe(&journal, State(State::SUCCEEDED));
    let summary = root.summary(&journal, &[success()], &[], 210);
    code(journal.record_checkpoint(&summary), ErrorCode::NotReady);
    journal.observe_work(Id(3), &success()).unwrap();
    for field in 0..4 {
        let mut wrong = summary.clone();
        match field {
            0 => {
                wrong.counts.success = Number(0);
                wrong.counts.failure = Number(1);
            }
            1 => wrong.status_root.0[0] ^= 1,
            2 => wrong.closed_at = Number(199),
            _ => wrong.seal.0[0] ^= 1,
        }
        code(journal.record_checkpoint(&wrong), ErrorCode::IntegrityError);
    }
    journal.record_checkpoint(&summary).unwrap();
    let mut wrong = summary.clone();
    wrong.closed_at = Number(211);
    code(journal.record_checkpoint(&wrong), ErrorCode::IntegrityError);
    let (request, response) = root.page(&journal, 0, &root.ids, State(State::CANCELLED), true, false);
    refusal(
        journal.observe_scope_page(&request, &response),
        ErrorCode::IntegrityError,
    );
    assert_eq!(journal.covered_scope(Number(0)).unwrap(), Some(summary));
}

#[test]
fn work_outside_verified_membership_is_refused_in_both_arrival_orders() {
    for page_first in [false, true] {
            let journal = bound(&disk(), 16);
        let root = Fixture::root(&[2]);
        if page_first {
            root.observe(&journal, State(State::DECLARED));
            refusal(
                journal.observe_work(Id(3), &success()),
                ErrorCode::IntegrityError,
            );
            code(
                journal.remember_manifest(&manifest()),
                ErrorCode::IntegrityError,
            );
        } else {
            journal.observe_work(Id(3), &success()).unwrap();
            let (request, response) =
                root.page(&journal, 0, &root.ids, State(State::DECLARED), true, false);
            refusal(
                journal.observe_scope_page(&request, &response),
                ErrorCode::IntegrityError,
            );
            assert!(journal.scope_observation(Number(0)).unwrap().is_none());
        }
    }
}

#[test]
fn accepted_scope_fence_excludes_later_publication_regardless_of_reply_order() {
    for first in [false, true] {
            let journal = bound(&disk(), 16);
        let intent = Intent {
            operation: OperationId([7; 16]),
            mutation: Mutation::ScopeCancel { scope: Number(0) },
        };
        journal.prepare(&intent).unwrap();
        let fence = receipt(
            &journal,
            &intent,
            Outcome::ScopeCancelled {
                scope: Number(0),
                accepted_at: Number(150),
            },
        );
        if first {
            journal.record_receipt(&fence).unwrap();
            refusal(
                journal.observe_work(Id(3), &success()),
                ErrorCode::IntegrityError,
            );
            code(
                journal.remember_manifest(&manifest()),
                ErrorCode::IntegrityError,
            );
        } else {
            journal.observe_work(Id(3), &success()).unwrap();
            code(journal.record_receipt(&fence), ErrorCode::IntegrityError);
            assert!(journal.receipt(fence.operation).unwrap().is_none());
        }
    }
}

#[test]
fn bounded_member_inventory_rolls_back_a_page_without_evicting_prior_scopes() {
    let path = disk();
    let limits = JournalLimits {
        operations: Id(16),
        observations: Id(3),
    };
    let journal =
        Journal::initialize(&path, creation(), limits).unwrap();
    journal.record_binding(&binding(), &selection()).unwrap();
    let root = Fixture::root(&[1, 2]);
    root.observe(&journal, State(State::DECLARED));
    let child = Fixture {
        scope: Number(1),
        producer: Producer(0),
        parent: Some(work()),
        ids: vec![Id(10), Id(11)],
    };
    let (request, response) = child.page(&journal, 0, &child.ids, State(State::DECLARED), true, false);
    refusal(
        journal.observe_scope_page(&request, &response),
        ErrorCode::LimitExceeded,
    );
    assert!(journal.scope_observation(Number(1)).unwrap().is_none());
    assert_eq!(
        journal
            .scope_members(Number(0), Number(0), PageLimit(256))
            .unwrap()
            .len(),
        2
    );
    let (request, response) = child.page(&journal, 0, &child.ids[..1], State(State::DECLARED), true, true);
    journal.observe_scope_page(&request, &response).unwrap();
    let (request, response) =
        child.page(&journal, 10, &child.ids[1..], State(State::DECLARED), true, false);
    refusal(
        journal.observe_scope_page(&request, &response),
        ErrorCode::LimitExceeded,
    );
    drop(journal);
    let journal = Journal::open(&path, creation(), limits).unwrap();
    assert!(
        journal
            .scope_observation(Number(0))
            .unwrap()
            .unwrap()
            .membership_verified
    );
    assert!(
        !journal
            .scope_observation(Number(1))
            .unwrap()
            .unwrap()
            .membership_verified
    );
    assert_eq!(
        journal
            .scope_members(Number(1), Number(0), PageLimit(1))
            .unwrap()[0]
            .work
            .entity,
        Id(10)
    );
}

fn damaged(path: &Disk, operations: u64, damage: fn(&mut JournalFile)) -> Result<Journal> {
    let other = disk();
    let mut file = path.borrow().clone().unwrap();
    damage(&mut file);
    *other.borrow_mut() = Some(file);
    let limits = JournalLimits { operations: Id(operations), ..Default::default() };
    Journal::open(&other, creation(), limits)
}

fn wipe(image: &mut Vec<u8>) {
    for octet in image.iter_mut() {
        *octet = 0;
    }
}

#[test]
fn reopen_refuses_missing_empty_changed_configuration_and_corrupt_records() {
    let path = disk();
    assert!(Journal::open(&path, creation(), JournalLimits::default()).is_err());
    assert!(path.borrow().is_none());
    let journal = bound(&path, 2);
    journal.prepare(&declare()).unwrap();
    drop(journal);
    let limits = |n| JournalLimits { operations: Id(n), ..Default::default() };
    let mut changed = creation();
    changed.owner = IdentityLabel("mallory".into());
    assert!(Journal::open(&path, changed, limits(2)).is_err());
    assert!(Journal::open(&path, creation(), limits(3)).is_err());
    Journal::open(&path, creation(), limits(2)).unwrap();
    assert!(matches!(
        damaged(&path, 2, |file| file.operations[0].intent = vec![0; 1048576]),
        Err(JournalError::Corrupt(_))
    ));
}

#[test]
fn exhausted_cursor_refuses_instead_of_sqlite_random_rowid_fallback() {
    let journal = bound(&disk(), 4);
    journal.prepare(&declare()).unwrap();
    journal.inner.borrow_mut().operations[0].row = MAX_NUMBER;
    let mut other = declare();
    other.operation = OperationId([2; 16]);
    code(journal.prepare(&other), ErrorCode::LimitExceeded);
    assert_eq!(
        journal.unresolved(Number(0), PageLimit(1)).unwrap()[0].0,
        Id(MAX_NUMBER)
    );
}

#[test]
fn missing_or_corrupt_evidence_and_changed_normalized_keys_refuse_reopen() {
    let path = disk();
    let journal = bound(&path, 16);
    journal.record_receipt(&admitted_receipt(&journal)).unwrap();
    journal.observe_work(Id(3), &success()).unwrap();
    journal.remember_reference(&manifest(), OutputIndex(0)).unwrap();
    let damages: [fn(&mut JournalFile); 9] = [
        |file| file.operations[0].operation = OperationId([9; 16]),
        |file| file.observations[0].work.entity = Id(2),
        |file| wipe(&mut file.observations[0].image),
        |file| wipe(&mut file.manifests[0].image),
        |file| file.references[0].index = OutputIndex(1),
        |file| wipe(&mut file.references[0].image),
        |file| file.manifests.clear(),
        |file| file.format = 1,
        |file| file.application = 1,
    ];
    for damage in damages {
        assert!(damaged(&path, 16, damage).is_err());
    }
    damaged(&path, 16, |_| ()).unwrap();
}

#[test]
fn corrupted_scope_indexes_images_or_missing_descendant_proof_refuse_reopen() {
    let path = disk();
    let journal = bound(&path, 16);
    let (branch, child, root, nested) = branch_views();
    root.observe(&journal, State(State::SUCCEEDED));
    journal.observe_work(Id(4), &branch).unwrap();
    nested.observe(&journal, State(State::SUCCEEDED));
    journal.observe_work(Id(3), &child).unwrap();
    let child_summary = nested.summary(&journal, &[child], &[], 210);
    journal.record_checkpoint(&child_summary).unwrap();
    journal
        .record_checkpoint(&root.summary(&journal, &[branch], &[child_summary], 260))
        .unwrap();
    let damages: [fn(&mut JournalFile); 9] = [
        |file| wipe(&mut file.scopes[0].image),
        |file| file.members[0].entity = Id(2),
        |file| wipe(&mut file.members[1].image),
        |file| wipe(&mut file.coverage[0].image),
        |file| file.coverage.retain(|row| row.scope != Number(1)),
        |file| file.members.retain(|row| row.scope != Number(1)),
        |file| file.scopes.retain(|row| row.scope != Number(1)),
        |file| file.observations.retain(|row| row.work.scope != Number(1)),
        |file| file.format = 2,
    ];
    for damage in damages {
        assert!(damaged(&path, 16, damage).is_err());
    }
    damaged(&path, 16, |_| ()).unwrap();
}

#[test]
fn widest_admission_fits_its_header_and_no_control_frame() {
    let label = ApplicationLabel("a".repeat(128));
    let widest = WorkKey { scope: Number(MAX_NUMBER), producer: Producer(1), entity: Id(MAX_NUMBER) };
    let intent = Intent {
        operation: OperationId([255; 16]),
        mutation: Mutation::Admit(AdmitParameters {
            work: widest,
            input: Input {
                length: Number(MAX_NUMBER),
                sha256: Digest([255; 32]),
                content_type: label.clone(),
            },
            application: label,
            mode: Mode(2),
            execution_ms: Duration(1000),
            outputs: OutputBudget { count: BatchCount(256), total_bytes: Number(MAX_NUMBER) },
        }),
    };
    let header = intent.input(Id(MAX_NUMBER)).unwrap();
    assert_eq!(header.operation, intent.operation);
    assert!(header.encode().unwrap().len() < 4096);
    assert_eq!(intent.control(Id(1)).unwrap_err().code, ErrorCode::FrameError);
    assert_eq!(declare().input(Id(1)).unwrap_err().code, ErrorCode::FrameError);
    declare().control(Id(1)).unwrap();
}

#[test]
fn prepared_intents_are_found_unchanged_and_others_are_not() {
    let path = disk();
    let journal = bound(&path, 16);
    let absent = OperationId([77; 16]);
    refusal(journal.intent(absent), ErrorCode::NotFound);
    journal.prepare(&declare()).unwrap();
    let cancel = Intent {
        operation: OperationId([2; 16]),
        mutation: Mutation::Cancel { work: work() },
    };
    journal.prepare(&cancel).unwrap();
    journal.record_receipt(&declared(&journal, &declare())).unwrap();
    drop(journal);
    let journal = reopen(&path);
    assert_eq!(journal.intent(declare().operation).unwrap(), declare());
    assert_eq!(journal.intent(cancel.operation).unwrap(), cancel);
    refusal(journal.intent(absent), ErrorCode::NotFound);
}

fn protocol_code<T: std::fmt::Debug>(result: Result<T>) -> ErrorCode {
    match result {
        Err(JournalError::Protocol(e)) => e.code,
        other => panic!("{other:?}"),
    }
}

#[test]
fn sealed_octets_that_hold_no_intent_are_refused_by_what_they_hold() {
    let identity = SessionIdentity {
        authority: creation().authority,
        owner: creation().owner,
        generation: Id(7),
    };
    let operation = declare().operation;
    let read = |octets: &[u8]| decode_intent(&seal(&operation.0, octets), operation, &identity);
    let image = intent_image(&declare(), &identity).unwrap();
    let octets = &image[..image.len() - 32];
    assert_eq!(read(octets).unwrap(), declare());
    // Too short, of no known kind, or with another commitment: damaged.
    assert!(matches!(read(&octets[..33]), Err(JournalError::Corrupt(_))));
    let mut kind = octets.to_vec();
    kind[0] = 2;
    assert!(matches!(read(&kind), Err(JournalError::Corrupt(_))));
    let mut commitment = octets.to_vec();
    *commitment.last_mut().unwrap() ^= 1;
    assert!(matches!(read(&commitment), Err(JournalError::Corrupt(_))));
    // A header that is none, and a frame that is none.
    kind[0] = 0;
    assert_eq!(protocol_code(read(&kind)), ErrorCode::FrameError);
    let mut frame = octets.to_vec();
    frame[2] ^= 1;
    assert_eq!(protocol_code(read(&frame)), ErrorCode::FrameError);
    let mut extension = octets.to_vec();
    extension[1] = 0xff;
    assert_eq!(protocol_code(read(&extension)), ErrorCode::ExtensionUnsupported);
    // A frame that asks for something else.
    let mut other = vec![1];
    other.extend(binding().encode(1 << 16).unwrap());
    other.extend([0; 32]);
    assert!(matches!(read(&other), Err(JournalError::Corrupt(_))));
}

#[test]
fn sealed_octets_that_hold_no_record_are_refused_as_no_encoding() {
    let image = seal(b"here", &[7]);
    assert_eq!(decode_image::<Number>(b"here", &image, 9).unwrap(), Number(7));
    assert!(matches!(
        decode_image::<Number>(b"there", &image, 9),
        Err(JournalError::Corrupt(_))
    ));
    let text = seal(b"here", &[0x61, 0x61]);
    assert_eq!(protocol_code(decode_image::<Number>(b"here", &text, 9)), ErrorCode::FrameError);
    assert_eq!(protocol_code(decode_image::<Number>(b"here", &text, 1)), ErrorCode::FrameError);
}

#[test]
fn journal_of_another_kind_is_damaged_and_an_impossible_creation_is_refused() {
    let path = disk();
    bound(&path, 2);
    let refused = [
        damaged(&path, 2, |file| file.application += 1),
        damaged(&path, 2, |file| file.format += 1),
        damaged(&path, 2, |file| file.configuration[0] ^= 1),
        damaged(&path, 3, |_| {}),
    ];
    for result in refused {
        assert!(matches!(result.map(|_| ()), Err(JournalError::Corrupt(_))));
    }
    let mut impossible = creation();
    impossible.creation_sequence = Id(0);
    let file = path.borrow().clone().unwrap();
    assert_eq!(
        protocol_code(
            verified::Journal::open(&file, impossible, JournalLimits::default()).map(|_| ())
        ),
        ErrorCode::FrameError
    );
    // What is known twice is not known.
    let journal = bound(&path, 2);
    journal.observe_work(Id(3), &declared_view()).unwrap();
    drop(journal);
    assert!(damaged(&path, 2, |file| {
        let row = file.observations[0].clone();
        file.observations.push(row);
    })
    .is_err());
}
