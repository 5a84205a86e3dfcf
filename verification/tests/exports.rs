use pipestream::v2::authority::store::StoreError;
use pipestream::v2::client::exports::{
    configuration, key, valid_key, CopiedBody, ExportIntent, ExportPlan, ExportPolicy, ExportStore,
    FoundEntry, RECORD,
};
use pipestream::v2::client::journal::Journal;
use pipestream::v2::client::records::{Creation, JournalLimits};
use pipestream::v2::client::references::RetainedReference;
use pipestream::v2::client::results::{binding, LocalResult, ResultStore};
use pipestream::v2::error::{ErrorCode, DURABLE_WORK, RESULT_DELIVERY};
use pipestream::v2::labels::{ApplicationLabel, Digest, IdentityLabel, OperationId};
use pipestream::v2::messages::{Control, Session};
use pipestream::v2::negotiation::Capabilities;
use pipestream::v2::numbers::{
    ConcurrencyLimit, ControlLimit, Duration, Id, IdleMs, LifetimeMs, Literal, Number, OutputIndex,
    Producer, ProfileId, ResponseFlag,
};
use pipestream::v2::records::{Limits, Manifest, Output, Policy, ResultHeader, WorkKey};
use pipestream::v2::uri::ResultLocator;
use sha2::{Digest as _, Sha256};
use std::cell::{Cell, RefCell};
use std::collections::BTreeMap;
use std::rc::Rc;

type Result<T> = std::result::Result<T, StoreError>;

fn caps() -> Capabilities {
    Capabilities {
        response: ResponseFlag(1),
        supported: vec![
            ProfileId(DURABLE_WORK.into()),
            ProfileId(RESULT_DELIVERY.into()),
        ],
        required: vec![
            ProfileId(DURABLE_WORK.into()),
            ProfileId(RESULT_DELIVERY.into()),
        ],
        control_limit: ControlLimit(65536),
        stream_limit: ConcurrencyLimit(4),
        pending_limit: ConcurrencyLimit(16),
        object_limit: Number(1 << 20),
        stream_idle_ms: IdleMs(5000),
        stream_lifetime_ms: LifetimeMs(30000),
    }
}

fn reference(owner: &str, bytes: &[u8]) -> RetainedReference {
    let creation = Creation {
        authority: IdentityLabel("issuer-a".into()),
        owner: IdentityLabel(owner.into()),
        creation_sequence: Id(1),
        policy: Policy {
            execution_limit_ms: Duration(60000),
            output_retention_ms: Duration(120000),
            receipt_retention_ms: Duration(180000),
        },
        results: true,
    };
    let mut journal = Journal::initialize(creation.clone(), JournalLimits::default()).unwrap();
    journal
        .record_binding(
            &Control::Session(Session::Binding {
                request: Id(1),
                authority: creation.authority.clone(),
                owner: creation.owner.clone(),
                generation: Id(7),
                creation_sequence: Id(1),
                policy: creation.policy,
                limits: Limits {
                    scopes: Id(100),
                    entities: Id(100),
                    operations: Id(100),
                    active_jobs: Id(16),
                    retained_input_bytes: Number(1 << 20),
                    retained_output_bytes: Number(1 << 20),
                },
            }),
            &caps(),
        )
        .unwrap();
    let manifest = Manifest {
        version: Literal,
        authority: creation.authority,
        owner: creation.owner,
        generation: Id(7),
        work: WorkKey { scope: Number(0), producer: Producer(0), entity: Id(1) },
        attempt: Id(1),
        input_sha256: Digest([8; 32]),
        committed_at: Number(200),
        available_until: Number(120200),
        outputs: vec![Output {
            index: OutputIndex(0),
            length: Number(bytes.len() as u64),
            sha256: Digest(Sha256::digest(bytes).into()),
            content_type: ApplicationLabel("text/plain".into()),
            locator: ResultLocator("pipestream://untrusted.invalid:7443/v2/sessions/7/scopes/0/producers/0/entities/1/attempts/1/outputs/0".into()),
        }],
    };
    journal.remember_reference(&manifest, OutputIndex(0)).unwrap()
}

fn header(reference: &RetainedReference) -> ResultHeader {
    let manifest = reference.manifest();
    ResultHeader {
        kind: Literal,
        request: Id(1),
        generation: manifest.generation,
        work: manifest.work,
        attempt: manifest.attempt,
        index: reference.index(),
        length: manifest.outputs[0].length,
        sha256: manifest.outputs[0].sha256,
    }
}

fn alice() -> ResultStore {
    ResultStore::open(IdentityLabel("issuer-a".into()), IdentityLabel("alice".into())).unwrap()
}

/// The local copy of a selection.
fn source(selected: &RetainedReference) -> LocalResult {
    let copies = alice();
    assert_eq!(copies.find(selected, None).unwrap(), None);
    let copy = copies.find(selected, Some("0a".into())).unwrap().unwrap();
    assert_eq!(copy.key(), "0a");
    copy
}

/// A private directory, of which only files are kept.
#[derive(Default)]
struct Directory {
    binding: Vec<u8>,
    files: BTreeMap<String, Vec<u8>>,
}

type Disk = Rc<RefCell<Directory>>;

fn policy() -> ExportPolicy {
    ExportPolicy { objects: 1, bytes: 112 + 1537 }
}

fn verify(content: &[u8], wanted: &ExportIntent) -> Result<()> {
    let mut body = CopiedBody::new();
    for chunk in content.chunks(512) {
        body.receive(chunk);
    }
    body.verify(wanted, content.len() as u64)
}

const LOST: StoreError = StoreError::Corrupt("the directory is not known to be durable");

struct Exports {
    disk: Disk,
    store: RefCell<ExportStore>,
    /// Which synchronization fails, counted from one.
    fail: Cell<usize>,
    /// Where the process ends.
    crash: Cell<&'static str>,
}

impl Exports {
    fn open(disk: &Disk, owner: &str, policy: ExportPolicy) -> Result<Self> {
        let entries: Vec<FoundEntry> = disk
            .borrow()
            .files
            .iter()
            .map(|(name, content)| FoundEntry {
                name: name.clone(),
                length: content.len() as u64,
                content: if content.len() == RECORD { content.clone() } else { vec![] },
            })
            .collect();
        let found = disk.borrow().binding.clone();
        let (store, recovery) = ExportStore::open(
            IdentityLabel("issuer-a".into()),
            IdentityLabel(owner.into()),
            policy,
            &found,
            &entries,
        )?;
        let text = |name: &Vec<u8>| String::from_utf8(name.clone()).unwrap();
        for name in &recovery.unfinished {
            disk.borrow_mut().files.remove(&format!("intent-{}", text(name))).unwrap();
        }
        for name in &recovery.stages {
            disk.borrow_mut().files.remove(&format!("stage-{}", text(name))).unwrap();
        }
        Ok(Exports {
            disk: disk.clone(),
            store: RefCell::new(store),
            fail: Cell::new(0),
            crash: Cell::new(""),
        })
    }
    fn synchronize(&self) -> bool {
        let remaining = self.fail.get();
        self.fail.set(remaining.saturating_sub(1));
        remaining != 1
    }
    fn reach(&self, point: &str) -> Result<()> {
        if self.crash.get() == point {
            return Err(LOST);
        }
        Ok(())
    }
    fn usage(&self) -> Result<pipestream::v2::client::exports::ExportUsage> {
        self.store.borrow().usage()
    }
    fn export(&self, id: OperationId, selected: &RetainedReference, from: &LocalResult, bytes: &[u8]) -> Result<(String, bool)> {
        let plan: ExportPlan = self.store.borrow().export(id, selected, from)?;
        let name = String::from_utf8(plan.id.clone()).unwrap();
        if plan.fresh {
            self.disk.borrow_mut().files.insert(format!("record-{name}"), plan.intent.encode());
            let durable = self.synchronize();
            self.store.borrow_mut().commit(&plan, durable);
            if !durable {
                return Err(LOST);
            }
        }
        self.reach("intent")?;
        let copied = self.copy(&plan, &name, bytes);
        self.store.borrow_mut().settle(copied.is_ok());
        copied
    }
    fn copy(&self, plan: &ExportPlan, name: &str, bytes: &[u8]) -> Result<(String, bool)> {
        let file = format!("file-{name}");
        let existing = self.disk.borrow().files.get(&file).cloned();
        if let Some(content) = existing {
            verify(&content, &plan.intent)?;
            return if self.synchronize() { Ok((file, true)) } else { Err(LOST) };
        }
        let stage = format!("stage-{name}");
        self.disk.borrow_mut().files.insert(stage.clone(), bytes.to_vec());
        self.reach("body")?;
        verify(bytes, &plan.intent)?;
        let content = self.disk.borrow_mut().files.remove(&stage).unwrap();
        self.disk.borrow_mut().files.insert(file.clone(), content);
        self.reach("installed")?;
        if !self.synchronize() {
            return Err(LOST);
        }
        self.reach("synced")?;
        Ok((file, false))
    }
    fn remove(&self, id: OperationId) -> Result<bool> {
        let Some(octets) = self.store.borrow().remove(id)? else { return Ok(false) };
        let name = String::from_utf8(octets.clone()).unwrap();
        self.disk.borrow_mut().files.remove(&format!("file-{name}"));
        self.disk.borrow_mut().files.remove(&format!("stage-{name}"));
        let mut durable = self.synchronize();
        if durable {
            self.disk.borrow_mut().files.remove(&format!("record-{name}"));
            self.reach("removed")?;
            durable = self.synchronize();
        }
        self.store.borrow_mut().removed(&octets, durable);
        if durable { Ok(true) } else { Err(LOST) }
    }
}

fn fresh(policy: ExportPolicy) -> Disk {
    let disk = Disk::default();
    disk.borrow_mut().binding = configuration(
        &IdentityLabel("issuer-a".into()),
        &IdentityLabel("alice".into()),
        policy,
    )
    .unwrap();
    disk
}

fn open(disk: &Disk) -> Exports {
    Exports::open(disk, "alice", policy()).unwrap()
}

#[test]
fn sync_failures_keep_ambiguous_exports_unusable_until_audited_reopen() {
    for removing in [false, true] {
        for sync in [1, 2] {
            let selected = reference("alice", b"abc");
            let copy = source(&selected);
            let disk = fresh(policy());
            let store = open(&disk);
            let id = OperationId([1; 16]);
            if removing {
                store.export(id, &selected, &copy, b"abc").unwrap();
            }
            store.fail.set(sync);
            if removing {
                assert!(store.remove(id).is_err());
            } else {
                assert!(store.export(id, &selected, &copy, b"abc").is_err());
            }
            assert!(store.usage().is_err());
            assert!(store.remove(id).is_err());
            assert!(store.export(id, &selected, &copy, b"abc").is_err());
            let store = open(&disk);
            if removing {
                let file = format!("file-{}", key(id).unwrap());
                assert!(!disk.borrow().files.contains_key(&file));
                assert_eq!(store.usage().unwrap().intents, usize::from(sync == 1));
                store.remove(id).unwrap();
                assert_eq!(store.usage().unwrap().charged_bytes, 0);
            } else {
                assert_eq!(store.usage().unwrap().charged_bytes, 115);
                let (file, replayed) = store.export(id, &selected, &copy, b"abc").unwrap();
                assert_eq!(disk.borrow().files[&file], b"abc");
                assert_eq!(replayed, sync == 2);
            }
        }
    }
}

#[test]
fn audit_counts_unfinished_intent_bytes_before_removing_any_file() {
    let policy = ExportPolicy { objects: 2, bytes: 112 };
    let disk = fresh(policy);
    Exports::open(&disk, "alice", policy).unwrap();
    let names = [
        format!("intent-{}", "01".repeat(16)),
        format!("intent-{}", "02".repeat(16)),
    ];
    for name in &names {
        disk.borrow_mut().files.insert(name.clone(), vec![0; RECORD]);
    }
    assert!(Exports::open(&disk, "alice", policy).is_err());
    for name in names {
        assert_eq!(disk.borrow().files[&name].len(), RECORD);
    }
}

#[test]
fn raw_exports_replay_exactly_preserve_identity_and_charge_pending_and_complete_bytes() {
    let bytes = vec![0xda; 1537];
    let selected = reference("alice", &bytes);
    let copy = source(&selected);
    let disk = fresh(policy());
    let store = open(&disk);
    let id = OperationId([1; 16]);
    let (file, replayed) = store.export(id, &selected, &copy, &bytes).unwrap();
    assert!(!replayed);
    assert_eq!(disk.borrow().files[&file], bytes);
    assert_eq!(store.usage().unwrap().charged_bytes, 1649);
    assert!(store.export(OperationId([2; 16]), &selected, &copy, &bytes).is_err());
    let store = open(&disk);
    assert!(store.export(id, &selected, &copy, &bytes).unwrap().1);
    // Another valid selection with the same bytes but a different owner must not
    // repurpose the local export identity or use this owner's output directory.
    let bob = reference("bob", &bytes);
    assert!(store.export(id, &bob, &copy, &bytes).is_err());
    assert_eq!(disk.borrow().files[&file], bytes);
    assert!(store.remove(id).unwrap());
    assert!(!store.remove(id).unwrap());
    assert_eq!(store.usage().unwrap().charged_bytes, 0);
}

#[test]
fn damaged_existing_exports_are_not_overwritten_and_consumed_sources_do_not_publish_prefixes() {
    let selected = reference("alice", b"abc");
    let copy = source(&selected);
    let disk = fresh(policy());
    let store = open(&disk);
    let id = OperationId([1; 16]);
    assert!(store.export(id, &selected, &copy, b"bc").is_err());
    assert!(!disk.borrow().files.contains_key(&format!("file-{}", key(id).unwrap())));
    assert!(store.usage().is_err());
    let store = open(&disk);
    assert_eq!(store.usage().unwrap().recovered_stages, 1);
    let (file, _) = store.export(id, &selected, &copy, b"abc").unwrap();
    disk.borrow_mut().files.insert(file.clone(), b"abd".to_vec());
    assert!(store.export(id, &selected, &copy, b"abc").is_err());
    assert_eq!(disk.borrow().files[&file], b"abd");
}

#[test]
fn exported_empty_objects_still_have_immutable_intent_and_owner_checks() {
    let selected = reference("alice", &[]);
    let copy = source(&selected);
    let disk = fresh(policy());
    let store = open(&disk);
    let (file, _) = store.export(OperationId([1; 16]), &selected, &copy, &[]).unwrap();
    assert_eq!(disk.borrow().files[&file].len(), 0);
    assert_eq!(store.usage().unwrap().charged_bytes, 112);
    assert!(Exports::open(&disk, "bob", policy()).is_err());
    let unfinished = format!("intent-{}", "02".repeat(16));
    disk.borrow_mut().files.insert("unrelated".into(), b"keep".to_vec());
    disk.borrow_mut().files.insert(unfinished.clone(), vec![]);
    assert!(Exports::open(&disk, "alice", policy()).is_err());
    assert_eq!(disk.borrow().files["unrelated"], b"keep");
    assert!(disk.borrow().files.contains_key(&unfinished));
}

#[test]
fn subprocess_crashes_resume_original_export_intent_without_new_remote_work() {
    for point in ["intent", "body", "installed", "synced", "removed"] {
        let selected = reference("alice", b"abc");
        let copy = source(&selected);
        let disk = fresh(policy());
        let store = open(&disk);
        store.crash.set(point);
        let id = OperationId([1; 16]);
        let ended = store.export(id, &selected, &copy, b"abc").is_err() || store.remove(id).is_err();
        assert!(ended, "selected crash point was not reached");
        let store = open(&disk);
        if point == "removed" {
            assert_eq!(store.usage().unwrap().intents, 0);
        } else {
            assert_eq!(store.usage().unwrap().charged_bytes, 115);
            let (file, replayed) = store.export(id, &selected, &copy, b"abc").unwrap();
            assert_eq!(disk.borrow().files[&file], b"abc");
            assert_eq!(replayed, matches!(point, "installed" | "synced"));
        }
    }
}

#[test]
fn export_records_hold_the_commitment_and_refuse_any_change() {
    let intent = ExportIntent { length: 3, sha256: Digest([1; 32]), selection: Digest([2; 32]) };
    let record = intent.encode();
    assert_eq!(record.len(), RECORD);
    assert_eq!(&record[..8], b"PSXINT01");
    assert_eq!(record[8..16], [0, 0, 0, 0, 0, 0, 0, 3]);
    assert_eq!(record[80..], Sha256::digest(&record[..80])[..]);
    assert_eq!(ExportIntent::decode(&record).unwrap(), intent);
    for place in [0, 15, 20, 60, 111] {
        let mut changed = record.clone();
        changed[place] ^= 1;
        assert!(matches!(ExportIntent::decode(&changed), Err(StoreError::Corrupt(_))));
    }
    assert!(ExportIntent::decode(&record[..RECORD - 1]).is_err());
}

#[test]
fn export_names_are_lower_case_hexadecimal_and_never_zero() {
    let mut id = [0; 16];
    id[0] = 0xab;
    id[15] = 1;
    assert_eq!(key(OperationId(id)).unwrap(), "ab000000000000000000000000000001");
    assert!(key(OperationId([0; 16])).is_err());
    assert!(valid_key("ab000000000000000000000000000001"));
    assert!(!valid_key("AB000000000000000000000000000001"));
    assert!(!valid_key(&"0".repeat(32)));
    assert!(!valid_key("ab"));
}

#[test]
fn export_configuration_binds_owner_and_quota() {
    let alice = IdentityLabel("alice".into());
    let issuer = IdentityLabel("issuer-a".into());
    let mut hash = Sha256::new();
    hash.update(b"PipeStream local result copies v1\0");
    for label in [&issuer, &alice] {
        hash.update((label.0.len() as u64).to_be_bytes());
        hash.update(label.0.as_bytes());
    }
    let expected = hash.finalize();
    assert_eq!(binding(&issuer, &alice).unwrap(), expected[..16]);
    let bytes = configuration(&issuer, &alice, policy()).unwrap();
    assert_eq!(&bytes[..8], b"PSXROOT1");
    assert_eq!(bytes[8..24], expected[..16]);
    assert_eq!(bytes[24..32], 1u64.to_be_bytes());
    assert_eq!(bytes[32..40], 1649u64.to_be_bytes());
    assert_eq!(bytes[40..], Sha256::digest(&bytes[..40])[..]);
    for objects in [0, 1_000_001] {
        let refused = configuration(&issuer, &alice, ExportPolicy { objects, bytes: 1 });
        assert!(matches!(refused, Err(StoreError::Protocol(e)) if e.code == ErrorCode::LimitExceeded));
    }
}

#[test]
fn local_results_are_finished_only_with_the_selected_header() {
    let selected = reference("alice", b"abc");
    let copies = alice();
    let (pending, input) = copies.stage(selected.clone()).unwrap();
    assert_eq!((input.length, input.sha256), (Number(3), selected.manifest().outputs[0].sha256));
    pending.finish(&header(&selected)).unwrap();
    for field in 0..6 {
        let mut wrong = header(&selected);
        match field {
            0 => wrong.generation = Id(8),
            1 => wrong.work.entity = Id(2),
            2 => wrong.attempt = Id(2),
            3 => wrong.index = OutputIndex(1),
            4 => wrong.length = Number(4),
            _ => wrong.sha256.0[0] ^= 1,
        }
        let refused = pending.finish(&wrong);
        assert!(matches!(refused, Err(StoreError::Protocol(e)) if e.code == ErrorCode::IntegrityError));
    }
    let mut invalid = header(&selected);
    invalid.request = Id(0);
    assert!(matches!(pending.finish(&invalid), Err(StoreError::Protocol(e)) if e.code == ErrorCode::FrameError));
    let bob = reference("bob", b"abc");
    assert!(copies.find(&bob, Some("0a".into())).is_err());
    assert!(matches!(copies.stage(bob), Err(StoreError::Protocol(e)) if e.code == ErrorCode::Unauthorized));
}

#[test]
fn what_is_wrong_with_a_directory_is_said_in_words() {
    let policy = ExportPolicy { objects: 2, bytes: 1 << 20 };
    let issuer = IdentityLabel("issuer-a".into());
    let alice = IdentityLabel("alice".into());
    let root = configuration(&issuer, &alice, policy).unwrap();
    let (low, high) = ("01".repeat(16), "02".repeat(16));
    let intent = ExportIntent { length: 3, sha256: Digest([1; 32]), selection: Digest([2; 32]) };
    let entry = |name: String, content: Vec<u8>| FoundEntry {
        name,
        length: content.len() as u64,
        content,
    };
    let record = |id: &str| entry(format!("record-{id}"), intent.encode().to_vec());
    let text = |found: &[u8], entries: Vec<FoundEntry>| {
        match ExportStore::open(issuer.clone(), alice.clone(), policy, found, &entries) {
            Err(StoreError::Corrupt(text)) => text,
            other => panic!("{other:?}"),
        }
    };
    let said = |entries: Vec<FoundEntry>| text(&root, entries);
    assert_eq!(text(&root[1..], vec![]), "export record length changed");
    let mut changed = root.clone();
    changed[9] ^= 1;
    assert_eq!(text(&changed, vec![]), "export identity or policy changed");
    let many = (1..=7u8)
        .map(|n| entry(format!("stage-{}", format!("{n:02x}").repeat(16)), vec![]))
        .collect();
    assert_eq!(said(many), "export entry ceiling exceeded");
    assert_eq!(said(vec![entry("notes".into(), vec![])]), "unknown export entry");
    assert_eq!(said(vec![entry(format!("copy-{low}"), vec![])]), "unknown export entry");
    assert_eq!(said(vec![entry("file-1".into(), vec![])]), "invalid export entry identity");
    assert_eq!(
        said(vec![entry(format!("record-{low}"), vec![0; 3])]),
        "export record length changed"
    );
    assert_eq!(
        said(vec![entry(format!("record-{low}"), vec![0; RECORD])]),
        "invalid export intent"
    );
    assert_eq!(
        said(vec![entry(format!("intent-{low}"), vec![0; RECORD + 1])]),
        "unfinished intent exceeds bound"
    );
    assert_eq!(
        said(vec![entry(format!("file-{low}"), vec![]), entry(format!("stage-{low}"), vec![])]),
        "duplicate export body"
    );
    assert_eq!(
        said(vec![
            record(&low),
            record(&high),
            entry(format!("intent-{}", "03".repeat(16)), vec![])
        ]),
        "export intent count exceeds quota"
    );
    assert_eq!(
        said(vec![entry(format!("file-{low}"), vec![])]),
        "export body has no committed intent"
    );
    assert_eq!(
        said(vec![record(&low), entry(format!("file-{low}"), vec![0; 2])]),
        "export body length changed"
    );
    assert_eq!(
        said(vec![record(&low), entry(format!("intent-{low}"), vec![])]),
        "ambiguous export intent"
    );
    // Of two bodies that do not fit, the first in the order of names is named.
    assert_eq!(
        said(vec![
            record(&high),
            entry(format!("file-{high}"), vec![0; 2]),
            entry(format!("file-{low}"), vec![])
        ]),
        "export body has no committed intent"
    );
}
