//! A journal as it stands in storage: every record is an image under a checksum that binds it to its
//! place and to the session.

use super::super::authority::store::Fault;
use super::super::authority::table;
use super::super::commitments::SessionIdentity;
use super::super::error::{ErrorCode, MAX_CONTROL_LIMIT, MAX_HEADER, MAX_NUMBER};
use super::super::labels::{self, OperationId};
use super::super::messages::{self, Control, Session};
use super::super::numbers::{Id, Number, OutputIndex};
use super::super::records::{Manifest, OperationReceipt, Outcome, ScopeSummary, WorkKey};
use super::super::wire::{self, encode, same_octets, Wire};
use super::alike;
use super::durability;
use super::journal::{self, BoundSession, Journal, Notes, OperationEntry, ReferenceEntry};
use super::known;
use super::observations::{self, key_bytes, protocol};
use super::records::{
    Creation, JournalLimits, ObservedWork, ReferenceChoice, ScopeMember, ScopeObservation,
};
use super::scopes::{self, namespace};
use super::storage::{
    self, check_image, configuration, decode_image, decode_intent, intent_image, seal, unseal,
    JournalError, IMAGE_LIMIT,
};
use super::upkeep;
use vstd::prelude::*;
use vstd::utf8::*;

verus! {

/// What storage of this kind announces itself with.
pub const APPLICATION: u64 = 0x5053434a;

/// The version of the stored format.
pub const FORMAT: u64 = 3;

#[derive(Debug, Clone)]
pub struct StoredOperation {
    pub row: u64,
    pub operation: OperationId,
    pub intent: Vec<u8>,
    pub receipt: Option<Vec<u8>>,
}

#[derive(Debug, Clone)]
pub struct StoredWork {
    pub work: WorkKey,
    pub image: Vec<u8>,
}

#[derive(Debug, Clone)]
pub struct StoredReference {
    pub work: WorkKey,
    pub index: OutputIndex,
    pub image: Vec<u8>,
}

#[derive(Debug, Clone)]
pub struct StoredScope {
    pub scope: Number,
    pub image: Vec<u8>,
}

#[derive(Debug, Clone)]
pub struct StoredMember {
    pub scope: Number,
    pub entity: Id,
    pub image: Vec<u8>,
}

/// Everything that a journal keeps, as it is stored.
#[derive(Debug, Clone)]
pub struct JournalFile {
    pub application: u64,
    pub format: u64,
    pub configuration: Vec<u8>,
    pub binding: Option<Vec<u8>>,
    pub operations: Vec<StoredOperation>,
    pub observations: Vec<StoredWork>,
    pub manifests: Vec<StoredWork>,
    pub references: Vec<StoredReference>,
    pub scopes: Vec<StoredScope>,
    pub members: Vec<StoredMember>,
    pub coverage: Vec<StoredScope>,
}

/// The image is that of the value in its namespace.
#[verifier::opaque]
pub open spec fn kept<T: Wire>(
    namespace: Seq<u8>,
    wide: bool,
    limit: usize,
    image: Seq<u8>,
    v: T,
) -> bool {
    &&& 33 <= image.len() <= storage::image_bound(wide)
    &&& storage::is_sealed(namespace, image)
    &&& v.valid()
    &&& v.wire() == image.take(image.len() - 32)
    &&& v.wire().len() <= limit
}

/// An image holds one value.
pub proof fn law_image_determines_value<T: Wire>(
    namespace: Seq<u8>,
    wide: bool,
    limit: usize,
    image: Seq<u8>,
    a: T,
    b: T,
)
    requires
        kept(namespace, wide, limit, image, a),
        kept(namespace, wide, limit, image, b),
    ensures
        a.agrees(&b),
{
    reveal(kept);
    wire::law_encoding_is_bijective(a, b);
}

/// Why an image is that of no value, if it is that of none.
pub open spec fn image_fault<T: Wire>(
    namespace: Seq<u8>,
    wide: bool,
    limit: usize,
    image: Seq<u8>,
) -> Option<Fault> {
    if exists|v: T| #[trigger] kept(namespace, wide, limit, image, v) {
        None
    } else if !(33 <= image.len() <= storage::image_bound(wide)) || !storage::is_sealed(
        namespace,
        image,
    ) {
        Some(Fault::Corrupt)
    } else if image.len() - 32 <= limit {
        Some(Fault::Refused(wire::decode_refusal::<T>(image.take(image.len() - 32))))
    } else {
        Some(Fault::Refused(ErrorCode::FrameError))
    }
}

/// Why a row that holds nothing cannot be read: its key first, then its image, then what the two say
/// of one another.
pub open spec fn unread(keyed: bool, image: Option<Fault>) -> Option<Fault> {
    if !keyed {
        Some(Fault::Refused(ErrorCode::FrameError))
    } else if image is Some {
        image
    } else {
        Some(Fault::Corrupt)
    }
}

pub open spec fn observation_unread(identity: SessionIdentity) -> spec_fn(StoredWork) -> Option<
    Fault,
> {
    |s: StoredWork|
        if exists|v: ObservedWork| #[trigger] observation_kept(s, identity, v) {
            None
        } else {
            unread(
                keyed(identity, s.work),
                image_fault::<ObservedWork>(
                    observations::work_key(identity, s.work, "observations"@),
                    true,
                    MAX_CONTROL_LIMIT,
                    s.image@,
                ),
            )
        }
}

pub open spec fn manifest_unread(identity: SessionIdentity) -> spec_fn(StoredWork) -> Option<
    Fault,
> {
    |s: StoredWork|
        if exists|v: Manifest| #[trigger] manifest_kept(s, identity, v) {
            None
        } else {
            unread(
                keyed(identity, s.work),
                image_fault::<Manifest>(
                    observations::work_key(identity, s.work, "manifests"@),
                    true,
                    MAX_CONTROL_LIMIT,
                    s.image@,
                ),
            )
        }
}

pub open spec fn reference_unread(identity: SessionIdentity) -> spec_fn(StoredReference) -> Option<
    Fault,
> {
    |s: StoredReference|
        if exists|v: ReferenceEntry| #[trigger] reference_kept(s, identity, v) {
            None
        } else {
            unread(
                keyed(identity, s.work),
                image_fault::<ReferenceChoice>(
                    observations::work_key(identity, s.work, "result_references"@),
                    false,
                    MAX_HEADER,
                    s.image@,
                ),
            )
        }
}

pub open spec fn scope_unread(identity: SessionIdentity) -> spec_fn(StoredScope) -> Option<Fault> {
    |s: StoredScope|
        if exists|v: ScopeObservation| #[trigger] scope_kept(s, identity, v) {
            None
        } else {
            unread(
                scope_keyed(identity, s.scope, None),
                image_fault::<ScopeObservation>(
                    scopes::scope_key(identity, "scopes"@, s.scope, None),
                    false,
                    MAX_HEADER,
                    s.image@,
                ),
            )
        }
}

pub open spec fn member_unread(identity: SessionIdentity) -> spec_fn(StoredMember) -> Option<
    Fault,
> {
    |s: StoredMember|
        if exists|v: ScopeMember| #[trigger] member_kept(s, identity, v) {
            None
        } else {
            unread(
                scope_keyed(identity, s.scope, Some(s.entity)),
                image_fault::<ScopeMember>(
                    scopes::scope_key(identity, "scope_members"@, s.scope, Some(s.entity)),
                    false,
                    MAX_HEADER,
                    s.image@,
                ),
            )
        }
}

pub open spec fn summary_unread(identity: SessionIdentity) -> spec_fn(StoredScope) -> Option<
    Fault,
> {
    |s: StoredScope|
        if exists|v: ScopeSummary| #[trigger] summary_kept(s, identity, v) {
            None
        } else {
            unread(
                scope_keyed(identity, s.scope, None),
                image_fault::<ScopeSummary>(
                    scopes::scope_key(identity, "scope_coverage"@, s.scope, None),
                    false,
                    MAX_HEADER,
                    s.image@,
                ),
            )
        }
}

/// Why an operation cannot be read, if it cannot.
pub open spec fn operation_unread(identity: SessionIdentity) -> spec_fn(StoredOperation) -> Option<
    Fault,
> {
    |s: StoredOperation|
        if exists|e: OperationEntry| #[trigger] operation_kept(s, identity, e) {
            None
        } else if !(1 <= s.row <= MAX_NUMBER) {
            Some(Fault::Corrupt)
        } else if !s.operation.valid() {
            Some(Fault::Refused(s.operation.refusal()))
        } else if !(33 <= s.intent@.len() <= storage::BLOB_LIMIT) {
            Some(Fault::Corrupt)
        } else if !storage::imaged(s.operation, identity, s.intent@) {
            Some(storage::unread_intent(s.operation, identity, s.intent@))
        } else {
            image_fault::<OperationReceipt>(s.operation.0@, false, MAX_HEADER, s.receipt->0@)
        }
}

/// The octets are the frame of a message that a binding may be stored as.
pub open spec fn binding_frame(c: Control, body: Seq<u8>) -> bool {
    c.sendable(IMAGE_LIMIT) && c.frame_wire() == body
}

/// The message is a binding, in the form in which it is stored.
pub open spec fn stored_binding(c: Control) -> bool {
    c matches Control::Session(Session::Binding { request, .. }) && request == Id(1)
}

/// Why the binding of a session cannot be read, if it cannot.
pub open spec fn binding_unread(image: Seq<u8>, creation: Creation) -> Option<Fault> {
    let body = image.take(image.len() - 32);
    if exists|b: BoundSession| #[trigger] binding_kept(image, creation, b) {
        None
    } else if !(33 <= image.len() <= storage::BLOB_LIMIT) || !storage::is_sealed(
        encode_utf8("binding"@),
        image,
    ) {
        Some(Fault::Corrupt)
    } else if !exists|c: Control| #[trigger] binding_frame(c, body) {
        Some(Fault::Refused(messages::frame_refusal(body, IMAGE_LIMIT)))
    } else if exists|c: Control| #[trigger] binding_frame(c, body) && stored_binding(c) {
        Some(Fault::Refused(ErrorCode::IntegrityError))
    } else {
        Some(Fault::Corrupt)
    }
}

/// Why the rows of a journal cannot be read, if they cannot: table by table, row by row.
pub open spec fn rows_unread(file: JournalFile, identity: SessionIdentity) -> Option<Fault> {
    earlier(
        table::first_fault(file.operations@, operation_unread(identity)),
        earlier(
            table::first_fault(file.observations@, observation_unread(identity)),
            earlier(
                table::first_fault(file.manifests@, manifest_unread(identity)),
                earlier(
                    table::first_fault(file.references@, reference_unread(identity)),
                    earlier(
                        table::first_fault(file.scopes@, scope_unread(identity)),
                        earlier(
                            table::first_fault(file.members@, member_unread(identity)),
                            table::first_fault(file.coverage@, summary_unread(identity)),
                        ),
                    ),
                ),
            ),
        ),
    )
}

/// What is said of storage that cannot be read as a journal: first of its configuration, then of its
/// binding, then of its rows. Rows that can all be read but stand in no order are damage, and so are
/// rows without a binding.
pub open spec fn reading_fault(
    file: JournalFile,
    creation: Creation,
    limits: JournalLimits,
    fault: Fault,
) -> bool {
    if !(creation.valid() && limits.valid()) {
        fault == Fault::Refused(ErrorCode::FrameError)
    } else if !header_kept(file, creation, limits) {
        fault == Fault::Corrupt
    } else {
        match file.binding {
            None => fault == Fault::Corrupt,
            Some(image) => if binding_unread(image@, creation) is Some {
                binding_unread(image@, creation) == Some(fault)
            } else {
                exists|b: BoundSession| #[trigger]
                    binding_kept(image@, creation, b) && fault == (match rows_unread(
                        file,
                        b.identity,
                    ) {
                        Some(f) => f,
                        None => Fault::Corrupt,
                    })
            },
        }
    }
}

fn read_kept<T: Wire>(namespace: &[u8], table: &str, limit: usize, image: &[u8]) -> (r: Result<
    T,
    JournalError,
>)
    requires
        limit > 0,
    ensures
        match r {
            Ok(v) => kept(namespace@, storage::wide_table(table@), limit, image@, v),
            Err(e) => {
                &&& image_fault::<T>(namespace@, storage::wide_table(table@), limit, image@) == Some(
                    e.fault(),
                )
                &&& forall|v: T|
                    !#[trigger] kept(namespace@, storage::wide_table(table@), limit, image@, v)
            },
        },
{
    proof {
        reveal(kept);
    }
    check_image(table, image.len())?;
    decode_image(namespace, image, limit)
}

/// Why a value cannot be written into a table, if it cannot.
pub open spec fn value_fault<T: Wire>(wide: bool, limit: usize, v: T) -> Option<Fault> {
    if !v.valid() {
        Some(Fault::Refused(v.refusal()))
    } else if v.wire().len() > limit {
        Some(Fault::Refused(ErrorCode::FrameError))
    } else if !(33 <= v.wire().len() + 32 <= storage::image_bound(wide)) {
        Some(Fault::Corrupt)
    } else {
        None
    }
}

/// Why a row cannot be written, if it cannot: its key first, then its value.
pub open spec fn row_fault<T: Wire>(keyed: bool, wide: bool, limit: usize, v: T) -> Option<Fault> {
    if keyed {
        value_fault(wide, limit, v)
    } else {
        Some(Fault::Refused(ErrorCode::FrameError))
    }
}

pub open spec fn observation_faults(identity: SessionIdentity) -> spec_fn(ObservedWork) -> Option<
    Fault,
> {
    |v: ObservedWork| row_fault(keyed(identity, v.view.work), true, MAX_CONTROL_LIMIT, v)
}

pub open spec fn manifest_faults(identity: SessionIdentity) -> spec_fn(Manifest) -> Option<Fault> {
    |v: Manifest| row_fault(keyed(identity, v.work), true, MAX_CONTROL_LIMIT, v)
}

pub open spec fn reference_faults(identity: SessionIdentity) -> spec_fn(ReferenceEntry) -> Option<
    Fault,
> {
    |v: ReferenceEntry| row_fault(keyed(identity, v.work), false, MAX_HEADER, v.choice)
}

pub open spec fn scope_faults(identity: SessionIdentity) -> spec_fn(ScopeObservation) -> Option<
    Fault,
> {
    |v: ScopeObservation| row_fault(scope_keyed(identity, v.scope, None), false, MAX_HEADER, v)
}

pub open spec fn member_faults(identity: SessionIdentity) -> spec_fn(ScopeMember) -> Option<Fault> {
    |v: ScopeMember|
        row_fault(
            scope_keyed(identity, v.work.scope, Some(v.work.entity)),
            false,
            MAX_HEADER,
            v,
        )
}

pub open spec fn summary_faults(identity: SessionIdentity) -> spec_fn(ScopeSummary) -> Option<
    Fault,
> {
    |v: ScopeSummary| row_fault(scope_keyed(identity, v.scope, None), false, MAX_HEADER, v)
}

/// Why an operation cannot be written, if it cannot.
pub open spec fn operation_faults(identity: SessionIdentity) -> spec_fn(OperationEntry) -> Option<
    Fault,
> {
    |e: OperationEntry|
        if !(1 <= e.row <= MAX_NUMBER) {
            Some(Fault::Corrupt)
        } else if !e.intent.operation.valid() {
            Some(Fault::Refused(e.intent.operation.refusal()))
        } else if storage::intent_fault(e.intent, identity) is Some {
            storage::intent_fault(e.intent, identity)
        } else if !(33 <= storage::intent_body(e.intent, identity.generation).len() + 64
            <= storage::BLOB_LIMIT) {
            Some(Fault::Corrupt)
        } else if e.receipt is Some {
            value_fault(false, MAX_HEADER, e.receipt->0)
        } else {
            None
        }
}

/// Why the binding of a session cannot be written, if it cannot.
pub open spec fn binding_fault(b: BoundSession, creation: Creation) -> Option<Fault> {
    if !journal::binds(creation, b.stored()) {
        Some(Fault::Refused(ErrorCode::IntegrityError))
    } else if !b.stored().sendable(IMAGE_LIMIT) {
        Some(Fault::Refused(ErrorCode::FrameError))
    } else if !(33 <= b.stored().frame_wire().len() + 32 <= storage::BLOB_LIMIT) {
        Some(Fault::Corrupt)
    } else {
        None
    }
}

/// The earlier of two objections.
pub open spec fn earlier(a: Option<Fault>, b: Option<Fault>) -> Option<Fault> {
    if a is Some {
        a
    } else {
        b
    }
}

/// Why the rows of a journal cannot be written, if they cannot: table by table, row by row.
pub open spec fn rows_fault(t: Notes, identity: SessionIdentity) -> Option<Fault> {
    earlier(
        table::first_fault(t.operations, operation_faults(identity)),
        earlier(
            table::first_fault(t.observations, observation_faults(identity)),
            earlier(
                table::first_fault(t.manifests, manifest_faults(identity)),
                earlier(
                    table::first_fault(t.references, reference_faults(identity)),
                    earlier(
                        table::first_fault(t.scopes, scope_faults(identity)),
                        earlier(
                            table::first_fault(t.members, member_faults(identity)),
                            table::first_fault(t.coverage, summary_faults(identity)),
                        ),
                    ),
                ),
            ),
        ),
    )
}

/// Why a journal cannot be written out, if it cannot.
pub open spec fn images_fault(t: Notes) -> Option<Fault> {
    if !(t.creation.valid() && t.limits.valid()) {
        Some(Fault::Refused(ErrorCode::FrameError))
    } else {
        match t.bound {
            Some(b) => earlier(binding_fault(b, t.creation), rows_fault(t, b.identity)),
            None => None,
        }
    }
}

fn write_kept<T: Wire>(namespace: &[u8], table: &str, limit: usize, v: &T) -> (r: Result<
    Vec<u8>,
    JournalError,
>)
    ensures
        match r {
            Ok(b) => kept(namespace@, storage::wide_table(table@), limit, b@, *v) && value_fault(
                storage::wide_table(table@),
                limit,
                *v,
            ) is None,
            Err(e) => {
                &&& value_fault(storage::wide_table(table@), limit, *v) == Some(e.fault())
                &&& forall|image: Seq<u8>|
                    !#[trigger] kept(namespace@, storage::wide_table(table@), limit, image, *v)
            },
        },
{
    proof {
        reveal(kept);
    }
    let bytes = protocol(encode(v, limit))?;
    let image = seal(namespace, bytes.as_slice());
    assert(image@.take(image@.len() - 32) =~= bytes@);
    match check_image(table, image.len()) {
        Ok(_) => Ok(image),
        Err(e) => {
            proof {
                assert forall|other: Seq<u8>|
                    !#[trigger] kept(namespace@, storage::wide_table(table@), limit, other, *v) by {
                    if kept(namespace@, storage::wide_table(table@), limit, other, *v) {
                        assert(other.len() == bytes@.len() + 32);
                    }
                }
            }
            Err(e)
        },
    }
}

impl BoundSession {
    /// The binding as it is stored.
    pub open spec fn stored(self) -> Control {
        Control::Session(
            Session::Binding {
                request: Id(1),
                authority: self.identity.authority,
                owner: self.identity.owner,
                generation: self.identity.generation,
                creation_sequence: self.creation_sequence,
                policy: self.policy,
                limits: self.limits,
            },
        )
    }
}

/// The image is that of the session's binding.
pub open spec fn binding_kept(image: Seq<u8>, creation: Creation, b: BoundSession) -> bool {
    &&& 33 <= image.len() <= storage::BLOB_LIMIT
    &&& storage::is_sealed(encode_utf8("binding"@), image)
    &&& b.stored().sendable(IMAGE_LIMIT)
    &&& b.stored().frame_wire() == image.take(image.len() - 32)
    &&& journal::binds(creation, b.stored())
}

fn read_binding(image: &[u8], creation: &Creation) -> (r: Result<BoundSession, JournalError>)
    ensures
        match r {
            Ok(b) => binding_kept(image@, *creation, b),
            Err(e) => {
                &&& binding_unread(image@, *creation) == Some(e.fault())
                &&& forall|b: BoundSession| !#[trigger] binding_kept(image@, *creation, b)
            },
        },
{
    let ghost found = exists|b: BoundSession| #[trigger] binding_kept(image@, *creation, b);
    let ghost w = choose|b: BoundSession| #[trigger] binding_kept(image@, *creation, b);
    check_narrow(image.len())?;
    let bytes = unseal("binding".as_bytes(), image)?;
    let control = match Control::decode(bytes, IMAGE_LIMIT) {
        Ok(control) => control,
        Err(e) => {
            assert(found ==> w.stored().frame_wire() == bytes@);
            return Err(JournalError::Protocol(e));
        },
    };
    assert(binding_frame(control, bytes@));
    proof {
        if found {
            messages::law_frame_roundtrip(control, w.stored(), IMAGE_LIMIT);
        }
        assert forall|c: Control| #[trigger] binding_frame(c, bytes@) implies stored_binding(c)
            == stored_binding(control) by {
            messages::law_frame_roundtrip(control, c, IMAGE_LIMIT);
        }
    }
    let ghost read = control;
    match control {
        Control::Session(
            Session::Binding {
                request,
                authority,
                owner,
                generation,
                creation_sequence,
                policy,
                limits,
            },
        ) => {
            if request.0 != 1 {
                return Err(JournalError::Corrupt("noncanonical stored request number"));
            }
            if !authority.same(&creation.authority) || !owner.same(&creation.owner)
                || creation_sequence != creation.creation_sequence || policy != creation.policy {
                return Err(
                    storage::refuse(
                        ErrorCode::IntegrityError,
                        "session binding disagrees with persisted creation",
                    ),
                );
            }
            let b = BoundSession {
                identity: SessionIdentity { authority, owner, generation },
                creation_sequence,
                policy,
                limits,
            };
            assert(b.stored() == read);
            Ok(b)
        },
        _ => Err(JournalError::Corrupt("not a session binding")),
    }
}

/// Refuses an image that a table of small records may not hold.
fn check_narrow(length: usize) -> (r: Result<(), JournalError>)
    ensures
        match r {
            Ok(_) => 33 <= length <= storage::BLOB_LIMIT,
            Err(e) => !(33 <= length <= storage::BLOB_LIMIT) && e.fault() == Fault::Corrupt,
        },
{
    if length < 33 || length > storage::BLOB_LIMIT {
        return Err(JournalError::Corrupt("journal image length invalid"));
    }
    Ok(())
}

/// The row holds the entry.
pub open spec fn operation_kept(s: StoredOperation, identity: SessionIdentity, e: OperationEntry) -> bool {
    &&& s.row == e.row && 1 <= s.row <= MAX_NUMBER
    &&& s.operation.valid() && e.intent.operation == s.operation
    &&& 33 <= s.intent@.len() <= storage::BLOB_LIMIT
    &&& storage::images(e.intent, identity, s.intent@)
    &&& match (s.receipt, e.receipt) {
        (Some(image), Some(receipt)) => kept(s.operation.0@, false, MAX_HEADER, image@, receipt),
        (None, None) => true,
        _ => false,
    }
}

pub open spec fn operations_kept(
    rows: Seq<StoredOperation>,
    identity: SessionIdentity,
    entries: Seq<OperationEntry>,
) -> bool {
    &&& rows.len() == entries.len()
    &&& forall|i: int|
        0 <= i < rows.len() ==> operation_kept(#[trigger] rows[i], identity, entries[i])
}

fn read_operation(s: &StoredOperation, identity: &SessionIdentity) -> (r: Result<
    OperationEntry,
    JournalError,
>)
    ensures
        match r {
            Ok(e) => operation_kept(*s, *identity, e),
            Err(x) => {
                &&& operation_unread(*identity)(*s) == Some(x.fault())
                &&& forall|e: OperationEntry| !#[trigger] operation_kept(*s, *identity, e)
            },
        },
{
    if s.row < 1 || s.row > MAX_NUMBER {
        return Err(JournalError::Corrupt("invalid operation cursor"));
    }
    protocol(s.operation.check())?;
    check_narrow(s.intent.len())?;
    let intent = match decode_intent(s.intent.as_slice(), s.operation, identity) {
        Ok(intent) => intent,
        Err(e) => {
            proof {
                assert forall|x: OperationEntry| !#[trigger] operation_kept(*s, *identity, x) by {
                    if operation_kept(*s, *identity, x) {
                        assert(storage::images(x.intent, *identity, s.intent@));
                    }
                }
                if storage::is_sealed(s.operation.0@, s.intent@) {
                    storage::lemma_octets_fault_unique(
                        s.intent@.take(s.intent@.len() - 32),
                        s.operation,
                        *identity,
                        e.fault(),
                        storage::unread_intent(s.operation, *identity, s.intent@),
                    );
                }
            }
            return Err(e);
        },
    };
    assert(storage::imaged(s.operation, *identity, s.intent@)) by {
        assert(storage::images(intent, *identity, s.intent@));
    }
    let receipt: Option<OperationReceipt> = match &s.receipt {
        Some(image) => match read_kept::<OperationReceipt>(
            &s.operation.0,
            "operations",
            MAX_HEADER,
            image.as_slice(),
        ) {
            Ok(receipt) => Some(receipt),
            Err(e) => {
                proof {
                    lemma_narrow_tables();
                    assert forall|x: OperationEntry| !#[trigger] operation_kept(*s, *identity, x) by {
                        if operation_kept(*s, *identity, x) {
                            assert(kept(s.operation.0@, false, MAX_HEADER, image@, x.receipt->0));
                        }
                    }
                }
                return Err(e);
            },
        },
        None => None,
    };
    proof {
        lemma_narrow_tables();
    }
    Ok(OperationEntry { row: s.row, intent, receipt })
}

/// Only observed work and manifests have wide tables.
proof fn lemma_narrow_tables()
    ensures
        !storage::wide_table("operations"@),
        !storage::wide_table("result_references"@),
        !storage::wide_table("scopes"@),
        !storage::wide_table("scope_members"@),
        !storage::wide_table("scope_coverage"@),
        storage::wide_table("observations"@),
        storage::wide_table("manifests"@),
{
    reveal_strlit("operations");
    reveal_strlit("result_references");
    reveal_strlit("scopes");
    reveal_strlit("scope_members");
    reveal_strlit("scope_coverage");
    reveal_strlit("observations");
    reveal_strlit("manifests");
    assert("scopes"@.len() == 6);
    assert("operations"@.len() == 10);
    assert("result_references"@.len() == 17);
    assert("scope_members"@.len() == 13);
    assert("scope_coverage"@.len() == 14);
    assert("observations"@.len() == 12);
    assert("manifests"@.len() == 9);
}

fn read_operations(rows: &Vec<StoredOperation>, identity: &SessionIdentity) -> (r: Result<
    Vec<OperationEntry>,
    JournalError,
>)
    ensures
        match r {
            Ok(v) => operations_kept(rows@, *identity, v@) && table::first_fault(
                rows@,
                operation_unread(*identity),
            ) is None,
            Err(e) => {
                &&& table::first_fault(rows@, operation_unread(*identity)) == Some(e.fault())
                &&& forall|v: Seq<OperationEntry>|
                    !#[trigger] operations_kept(rows@, *identity, v)
            },
        },
{
    let mut out: Vec<OperationEntry> = Vec::new();
    let mut i: usize = 0;
    proof {
        table::lemma_first_fault_whole(rows@, operation_unread(*identity));
    }
    while i < rows.len()
        invariant
            i <= rows@.len(),
            operations_kept(rows@.take(i as int), *identity, out@),
            table::first_fault(rows@.take(i as int), operation_unread(*identity)) is None,
        decreases rows@.len() - i,
    {
        proof {
            table::lemma_first_fault_step(rows@, operation_unread(*identity), i as int);
        }
        match read_operation(&rows[i], identity) {
            Ok(e) => {
                let ghost before = out@;
                out.push(e);
                proof {
                    assert forall|j: int| 0 <= j < i + 1 implies operation_kept(
                        #[trigger] rows@.take(i + 1)[j],
                        *identity,
                        out@[j],
                    ) by {
                        if j < i {
                            assert(rows@.take(i as int)[j] == rows@[j]);
                            assert(before[j] == out@[j]);
                        }
                    }
                }
            },
            Err(e) => {
                proof {
                    assert forall|v: Seq<OperationEntry>|
                        !#[trigger] operations_kept(rows@, *identity, v) by {
                        if operations_kept(rows@, *identity, v) {
                            assert(operation_kept(rows@[i as int], *identity, v[i as int]));
                        }
                    }
                }
                return Err(e);
            },
        }
        i += 1;
    }
    assert(rows@.take(i as int) =~= rows@);
    Ok(out)
}

/// The parts of a namespace about work fit into headers.
pub open spec fn keyed(identity: SessionIdentity, work: WorkKey) -> bool {
    observations::names_session(identity) && work.valid() && work.wire().len() <= MAX_HEADER
}

/// The parts of a namespace about a scope fit into headers.
pub open spec fn scope_keyed(identity: SessionIdentity, scope: Number, entity: Option<Id>) -> bool {
    observations::names_session(identity) && scope.valid() && entity.valid() && scope.wire().len()
        <= MAX_HEADER && entity.wire().len() <= MAX_HEADER
}

/// The row holds the observation.
pub open spec fn observation_kept(s: StoredWork, identity: SessionIdentity, o: ObservedWork) -> bool {
    &&& keyed(identity, s.work)
    &&& o.view.work == s.work
    &&& kept(
        observations::work_key(identity, s.work, "observations"@),
        true,
        MAX_CONTROL_LIMIT,
        s.image@,
        o,
    )
}

pub open spec fn observations_kept(
    rows: Seq<StoredWork>,
    identity: SessionIdentity,
    values: Seq<ObservedWork>,
) -> bool {
    &&& rows.len() == values.len()
    &&& forall|i: int|
        0 <= i < rows.len() ==> observation_kept(#[trigger] rows[i], identity, values[i])
}

/// The row holds the manifest.
pub open spec fn manifest_kept(s: StoredWork, identity: SessionIdentity, m: Manifest) -> bool {
    &&& keyed(identity, s.work)
    &&& m.work == s.work
    &&& kept(
        observations::work_key(identity, s.work, "manifests"@),
        true,
        MAX_CONTROL_LIMIT,
        s.image@,
        m,
    )
}

pub open spec fn manifests_kept(
    rows: Seq<StoredWork>,
    identity: SessionIdentity,
    values: Seq<Manifest>,
) -> bool {
    &&& rows.len() == values.len()
    &&& forall|i: int|
        0 <= i < rows.len() ==> manifest_kept(#[trigger] rows[i], identity, values[i])
}

/// The row holds the selection.
pub open spec fn reference_kept(s: StoredReference, identity: SessionIdentity, e: ReferenceEntry) -> bool {
    &&& keyed(identity, s.work)
    &&& e.work == s.work
    &&& e.choice.index == s.index
    &&& kept(
        observations::work_key(identity, s.work, "result_references"@),
        false,
        MAX_HEADER,
        s.image@,
        e.choice,
    )
}

pub open spec fn references_kept(
    rows: Seq<StoredReference>,
    identity: SessionIdentity,
    values: Seq<ReferenceEntry>,
) -> bool {
    &&& rows.len() == values.len()
    &&& forall|i: int|
        0 <= i < rows.len() ==> reference_kept(#[trigger] rows[i], identity, values[i])
}

/// The row holds what is known of the scope.
pub open spec fn scope_kept(s: StoredScope, identity: SessionIdentity, v: ScopeObservation) -> bool {
    &&& scope_keyed(identity, s.scope, None)
    &&& v.scope == s.scope
    &&& kept(
        scopes::scope_key(identity, "scopes"@, s.scope, None),
        false,
        MAX_HEADER,
        s.image@,
        v,
    )
}

pub open spec fn scopes_kept(
    rows: Seq<StoredScope>,
    identity: SessionIdentity,
    values: Seq<ScopeObservation>,
) -> bool {
    &&& rows.len() == values.len()
    &&& forall|i: int|
        0 <= i < rows.len() ==> scope_kept(#[trigger] rows[i], identity, values[i])
}

/// The row holds the member.
pub open spec fn member_kept(s: StoredMember, identity: SessionIdentity, v: ScopeMember) -> bool {
    &&& scope_keyed(identity, s.scope, Some(s.entity))
    &&& v.work.scope == s.scope
    &&& v.work.entity == s.entity
    &&& kept(
        scopes::scope_key(identity, "scope_members"@, s.scope, Some(s.entity)),
        false,
        MAX_HEADER,
        s.image@,
        v,
    )
}

pub open spec fn members_kept(
    rows: Seq<StoredMember>,
    identity: SessionIdentity,
    values: Seq<ScopeMember>,
) -> bool {
    &&& rows.len() == values.len()
    &&& forall|i: int|
        0 <= i < rows.len() ==> member_kept(#[trigger] rows[i], identity, values[i])
}

/// The row holds the closure of the scope.
pub open spec fn summary_kept(s: StoredScope, identity: SessionIdentity, v: ScopeSummary) -> bool {
    &&& scope_keyed(identity, s.scope, None)
    &&& v.scope == s.scope
    &&& kept(
        scopes::scope_key(identity, "scope_coverage"@, s.scope, None),
        false,
        MAX_HEADER,
        s.image@,
        v,
    )
}

pub open spec fn summaries_kept(
    rows: Seq<StoredScope>,
    identity: SessionIdentity,
    values: Seq<ScopeSummary>,
) -> bool {
    &&& rows.len() == values.len()
    &&& forall|i: int|
        0 <= i < rows.len() ==> summary_kept(#[trigger] rows[i], identity, values[i])
}

/// All rows hold what is written down.
pub open spec fn rows_kept(file: JournalFile, t: Notes) -> bool {
    let identity = t.bound->0.identity;
    &&& operations_kept(file.operations@, identity, t.operations)
    &&& observations_kept(file.observations@, identity, t.observations)
    &&& manifests_kept(file.manifests@, identity, t.manifests)
    &&& references_kept(file.references@, identity, t.references)
    &&& scopes_kept(file.scopes@, identity, t.scopes)
    &&& members_kept(file.members@, identity, t.members)
    &&& summaries_kept(file.coverage@, identity, t.coverage)
}

/// The storage is that of a journal with this creation and these limits.
pub open spec fn header_kept(file: JournalFile, creation: Creation, limits: JournalLimits) -> bool {
    &&& creation.valid() && limits.valid()
    &&& file.application == APPLICATION
    &&& file.format == FORMAT
    &&& file.configuration@ == storage::sealed(
        encode_utf8("configuration"@),
        storage::configuration_wire(creation, limits),
    )
}

pub open spec fn bound_kept(file: JournalFile, creation: Creation, bound: Option<BoundSession>) -> bool {
    match (file.binding, bound) {
        (Some(image), Some(b)) => binding_kept(image@, creation, b),
        (None, None) => true,
        _ => false,
    }
}

/// The storage holds the notes.
pub open spec fn holds(file: JournalFile, t: Notes) -> bool {
    &&& header_kept(file, t.creation, t.limits)
    &&& bound_kept(file, t.creation, t.bound)
    &&& rows_kept(file, t)
    &&& t.ordered()
}

/// Two entries hold the same operation and the same answer.
pub open spec fn same_entry(a: OperationEntry, b: OperationEntry) -> bool {
    &&& a.row == b.row
    &&& a.intent.agrees(b.intent)
    &&& a.receipt.agrees(&b.receipt)
}

/// The notes say the same.
pub open spec fn same_notes(a: Notes, b: Notes) -> bool {
    &&& a.bound is Some == b.bound is Some
    &&& a.bound is Some ==> a.bound->0.agrees(b.bound->0)
    &&& a.operations.len() == b.operations.len()
    &&& a.observations.len() == b.observations.len()
    &&& a.manifests.len() == b.manifests.len()
    &&& a.references.len() == b.references.len()
    &&& a.scopes.len() == b.scopes.len()
    &&& a.members.len() == b.members.len()
    &&& a.coverage.len() == b.coverage.len()
    &&& forall|i: int|
        0 <= i < a.operations.len() ==> same_entry(#[trigger] a.operations[i], b.operations[i])
    &&& forall|i: int|
        0 <= i < a.observations.len() ==> (#[trigger] a.observations[i]).agrees(&b.observations[i])
    &&& forall|i: int|
        0 <= i < a.manifests.len() ==> (#[trigger] a.manifests[i]).agrees(&b.manifests[i])
    &&& forall|i: int|
        0 <= i < a.references.len() ==> (#[trigger] a.references[i]).work == b.references[i].work
            && a.references[i].choice.agrees(&b.references[i].choice)
    &&& forall|i: int| 0 <= i < a.scopes.len() ==> (#[trigger] a.scopes[i]).agrees(&b.scopes[i])
    &&& forall|i: int| 0 <= i < a.members.len() ==> (#[trigger] a.members[i]).agrees(&b.members[i])
    &&& forall|i: int|
        0 <= i < a.coverage.len() ==> (#[trigger] a.coverage[i]).agrees(&b.coverage[i])
}

/// What is stored determines what is read: notes that were stored and the notes that are read back say
/// the same.
pub proof fn law_storage_determines_notes(file: JournalFile, a: Notes, b: Notes)
    requires
        holds(file, a),
        holds(file, b),
    ensures
        same_notes(a, b),
{
    reveal(kept);
    let x = a.bound->0.identity;
    let y = b.bound->0.identity;
    if a.bound is Some {
        messages::law_frame_roundtrip(a.bound->0.stored(), b.bound->0.stored(), IMAGE_LIMIT);
    }
    assert forall|i: int| 0 <= i < a.operations.len() implies same_entry(
        #[trigger] a.operations[i],
        b.operations[i],
    ) by {
        let row = file.operations@[i];
        assert(operation_kept(row, x, a.operations[i]));
        assert(operation_kept(row, y, b.operations[i]));
        storage::law_intent_image_determines_intent(
            a.operations[i].intent,
            b.operations[i].intent,
            x,
            y,
            row.intent@,
        );
        if row.receipt is Some {
            wire::law_encoding_is_bijective(
                a.operations[i].receipt->0,
                b.operations[i].receipt->0,
            );
        }
    }
    assert forall|i: int| 0 <= i < a.observations.len() implies (
    #[trigger] a.observations[i]).agrees(&b.observations[i]) by {
        assert(observation_kept(file.observations@[i], x, a.observations[i]));
        assert(observation_kept(file.observations@[i], y, b.observations[i]));
        wire::law_encoding_is_bijective(a.observations[i], b.observations[i]);
    }
    assert forall|i: int| 0 <= i < a.manifests.len() implies (#[trigger] a.manifests[i]).agrees(
        &b.manifests[i],
    ) by {
        assert(manifest_kept(file.manifests@[i], x, a.manifests[i]));
        assert(manifest_kept(file.manifests@[i], y, b.manifests[i]));
        wire::law_encoding_is_bijective(a.manifests[i], b.manifests[i]);
    }
    assert forall|i: int| 0 <= i < a.references.len() implies (#[trigger] a.references[i]).work
        == b.references[i].work && a.references[i].choice.agrees(&b.references[i].choice) by {
        assert(reference_kept(file.references@[i], x, a.references[i]));
        assert(reference_kept(file.references@[i], y, b.references[i]));
        wire::law_encoding_is_bijective(a.references[i].choice, b.references[i].choice);
    }
    assert forall|i: int| 0 <= i < a.scopes.len() implies (#[trigger] a.scopes[i]).agrees(
        &b.scopes[i],
    ) by {
        assert(scope_kept(file.scopes@[i], x, a.scopes[i]));
        assert(scope_kept(file.scopes@[i], y, b.scopes[i]));
        wire::law_encoding_is_bijective(a.scopes[i], b.scopes[i]);
    }
    assert forall|i: int| 0 <= i < a.members.len() implies (#[trigger] a.members[i]).agrees(
        &b.members[i],
    ) by {
        assert(member_kept(file.members@[i], x, a.members[i]));
        assert(member_kept(file.members@[i], y, b.members[i]));
        wire::law_encoding_is_bijective(a.members[i], b.members[i]);
    }
    assert forall|i: int| 0 <= i < a.coverage.len() implies (#[trigger] a.coverage[i]).agrees(
        &b.coverage[i],
    ) by {
        assert(summary_kept(file.coverage@[i], x, a.coverage[i]));
        assert(summary_kept(file.coverage@[i], y, b.coverage[i]));
        wire::law_encoding_is_bijective(a.coverage[i], b.coverage[i]);
    }
}

/// The storage, with its binding read as given, holds no notes.
pub open spec fn unheld(
    file: JournalFile,
    creation: Creation,
    limits: JournalLimits,
    bound: Option<BoundSession>,
) -> bool {
    &&& bound_kept(file, creation, bound)
    &&& forall|t: Notes|
        t.creation == creation && t.limits == limits && t.bound == bound ==> !#[trigger] holds(
            file,
            t,
        )
}

/// The storage is not that of a journal with this creation and these limits, or its binding or a row
/// cannot be read.
pub open spec fn unreadable(file: JournalFile, creation: Creation, limits: JournalLimits) -> bool {
    ||| !header_kept(file, creation, limits)
    ||| forall|b: Option<BoundSession>| !#[trigger] bound_kept(file, creation, b)
    ||| exists|b: Option<BoundSession>| #[trigger] unheld(file, creation, limits, b)
}

/// Identities that agree name the same session.
proof fn lemma_same_session(a: SessionIdentity, b: SessionIdentity)
    requires
        a.agrees(b),
    ensures
        a.generation == b.generation,
        a.authority.wire() == b.authority.wire(),
        a.owner.wire() == b.owner.wire(),
        a.authority.valid() == b.authority.valid(),
        a.owner.valid() == b.owner.valid(),
        observations::names_session(a) == observations::names_session(b),
        a.fields().wire() == b.fields().wire(),
{
    Wire::agrees_carries(&a.authority, &b.authority);
    Wire::agrees_carries(&a.owner, &b.owner);
    Wire::agrees_carries(&a.fields(), &b.fields());
}

/// An image of an intent is one for every identity that names the session.
proof fn lemma_intent_rebound(intent: storage::Intent, a: SessionIdentity, b: SessionIdentity, image: Seq<u8>)
    requires
        a.agrees(b),
        storage::images(intent, a, image),
    ensures
        storage::images(intent, b, image),
{
    lemma_same_session(a, b);
}

/// What was written can be read: no row of it, nor its binding, is objected to.
pub proof fn law_written_journals_are_readable(file: JournalFile, t: Notes)
    requires
        holds(file, t),
    ensures
        !unreadable(file, t.creation, t.limits),
{
    assert forall|b: Option<BoundSession>| !#[trigger] unheld(file, t.creation, t.limits, b) by {
        if bound_kept(file, t.creation, b) {
            let other = Notes { bound: b, ..t };
            let x = t.bound->0.identity;
            let y = b->0.identity;
            if b is Some {
                messages::law_frame_roundtrip(t.bound->0.stored(), b->0.stored(), IMAGE_LIMIT);
                lemma_same_session(x, y);
                assert forall|i: int| 0 <= i < file.operations@.len() implies operation_kept(
                    #[trigger] file.operations@[i],
                    y,
                    t.operations[i],
                ) by {
                    let row = file.operations@[i];
                    assert(operation_kept(row, x, t.operations[i]));
                    lemma_intent_rebound(t.operations[i].intent, x, y, row.intent@);
                }
                assert forall|i: int| 0 <= i < file.observations@.len() implies observation_kept(
                    #[trigger] file.observations@[i],
                    y,
                    t.observations[i],
                ) by {
                    assert(observation_kept(file.observations@[i], x, t.observations[i]));
                }
                assert forall|i: int| 0 <= i < file.manifests@.len() implies manifest_kept(
                    #[trigger] file.manifests@[i],
                    y,
                    t.manifests[i],
                ) by {
                    assert(manifest_kept(file.manifests@[i], x, t.manifests[i]));
                }
                assert forall|i: int| 0 <= i < file.references@.len() implies reference_kept(
                    #[trigger] file.references@[i],
                    y,
                    t.references[i],
                ) by {
                    assert(reference_kept(file.references@[i], x, t.references[i]));
                }
                assert forall|i: int| 0 <= i < file.scopes@.len() implies scope_kept(
                    #[trigger] file.scopes@[i],
                    y,
                    t.scopes[i],
                ) by {
                    assert(scope_kept(file.scopes@[i], x, t.scopes[i]));
                }
                assert forall|i: int| 0 <= i < file.members@.len() implies member_kept(
                    #[trigger] file.members@[i],
                    y,
                    t.members[i],
                ) by {
                    assert(member_kept(file.members@[i], x, t.members[i]));
                }
                assert forall|i: int| 0 <= i < file.coverage@.len() implies summary_kept(
                    #[trigger] file.coverage@[i],
                    y,
                    t.coverage[i],
                ) by {
                    assert(summary_kept(file.coverage@[i], x, t.coverage[i]));
                }
                assert(rows_kept(file, other));
            } else {
                assert(other == t);
            }
            assert(holds(file, other));
        }
    }
    assert(bound_kept(file, t.creation, t.bound));
}

/// What one image holds twice is the same.
proof fn lemma_equal_records(
    a: ScopeObservation,
    b: ScopeObservation,
    c: ScopeSummary,
    d: ScopeSummary,
    r: ReferenceChoice,
    s: ReferenceChoice,
)
    ensures
        a.agrees(&b) ==> a == b,
        c.agrees(&d) ==> c == d,
        r.agrees(&s) ==> r == s,
{
    if a.agrees(&b) && a.seal is Some {
        labels::lemma_digest_of(a.seal->0);
        labels::lemma_digest_of(b.seal->0);
    }
    labels::lemma_digest_of(c.seal);
    labels::lemma_digest_of(d.seal);
    labels::lemma_digest_of(c.status_root);
    labels::lemma_digest_of(d.status_root);
    labels::lemma_digest_of(r.manifest);
    labels::lemma_digest_of(s.manifest);
}

proof fn lemma_equal_receipts(a: OperationReceipt, b: OperationReceipt)
    requires
        a.agrees(&b),
    ensures
        a == b,
{
    labels::lemma_digest_of(a.request_digest);
    labels::lemma_digest_of(b.request_digest);
    assert(a.operation.0 =~= b.operation.0) by {
        assert forall|i: int| 0 <= i < 16 implies a.operation.0[i] == b.operation.0[i] by {
            assert(a.operation.0@[i] == b.operation.0@[i]);
        }
    }
    match (a.body, b.body) {
        (Outcome::Declared { seal: x, .. }, Outcome::Declared { seal: y, .. }) => {
            if x is Some && y is Some {
                labels::lemma_digest_of(x->0);
                labels::lemma_digest_of(y->0);
            }
        },
        _ => {},
    }
}

/// Notes in one storage say the same.
proof fn lemma_read_alike(file: JournalFile, a: Notes, b: Notes)
    requires
        holds(file, a),
        holds(file, b),
        a.creation == b.creation,
        a.limits == b.limits,
    ensures
        alike::alike(a, b),
        a.references == b.references,
        a.coverage == b.coverage,
{
    reveal(alike::framed);
    reveal(alike::seen);
    reveal(alike::alike);
    law_storage_determines_notes(file, a, b);
    assert forall|i: int| 0 <= i < a.operations.len() implies alike::alike_entries(
        #[trigger] a.operations[i],
        b.operations[i],
    ) by {
        assert(same_entry(a.operations[i], b.operations[i]));
        if a.operations[i].receipt is Some {
            lemma_equal_receipts(a.operations[i].receipt->0, b.operations[i].receipt->0);
        }
    }
    let c = a.coverage[0];
    let r = a.references[0].choice;
    assert forall|i: int| 0 <= i < a.scopes.len() implies a.scopes[i] == b.scopes[i] by {
        assert(a.scopes[i].agrees(&b.scopes[i]));
        lemma_equal_records(a.scopes[i], b.scopes[i], c, c, r, r);
    }
    assert(a.scopes =~= b.scopes);
    let s = a.scopes[0];
    assert forall|i: int| 0 <= i < a.coverage.len() implies a.coverage[i] == b.coverage[i] by {
        assert(a.coverage[i].agrees(&b.coverage[i]));
        lemma_equal_records(s, s, a.coverage[i], b.coverage[i], r, r);
    }
    assert(a.coverage =~= b.coverage);
    assert forall|i: int| 0 <= i < a.references.len() implies a.references[i] == b.references[i] by {
        assert(a.references[i].choice.agrees(&b.references[i].choice));
        lemma_equal_records(s, s, c, c, a.references[i].choice, b.references[i].choice);
    }
    assert(a.references =~= b.references);
    assert forall|i: int| 0 <= i < a.members.len() implies a.members[i] == b.members[i] by {
        assert(a.members[i].agrees(&b.members[i]));
    }
    assert(a.members =~= b.members);
}

/// A journal that passed the audit when it was stored is opened again, as the same notes: nothing of
/// it is unreadable, and whatever is read passes the audit too.
pub proof fn law_audited_journals_open_again(file: JournalFile, t: Notes, read: Notes)
    requires
        holds(file, t),
        t.audit_fault() is None,
    ensures
        !unreadable(file, t.creation, t.limits),
        holds(file, read) && read.creation == t.creation && read.limits == t.limits ==> {
            &&& read.audit_fault() is None
            &&& same_notes(t, read)
            &&& t.distinct() ==> read.distinct()
        },
{
    reveal(journal::works_distinct);
    law_written_journals_are_readable(file, t);
    if holds(file, read) && read.creation == t.creation && read.limits == t.limits {
        law_storage_determines_notes(file, t, read);
        lemma_read_alike(file, t, read);
        assert(t.operations.len() <= t.limits.operations.0) by {
            reveal(Notes::audit_fault);
        }
        alike::law_alike_notes_are_audited_alike(t, read);
        if t.distinct() {
            assert forall|i: int, j: int| 0 <= i < j < read.observations.len() implies (
            #[trigger] read.observations[i]).view.work != (
            #[trigger] read.observations[j]).view.work by {
                assert(t.observations[i].agrees(&read.observations[i]));
                assert(t.observations[j].agrees(&read.observations[j]));
            }
            assert forall|i: int, j: int| 0 <= i < j < read.manifests.len() implies (
            #[trigger] read.manifests[i]).work != (#[trigger] read.manifests[j]).work by {
                assert(t.manifests[i].agrees(&read.manifests[i]));
                assert(t.manifests[j].agrees(&read.manifests[j]));
            }
        }
    }
}

fn read_observation(s: &StoredWork, identity: &SessionIdentity) -> (r: Result<ObservedWork, JournalError>)
    ensures
        match r {
            Ok(v) => observation_kept(*s, *identity, v),
            Err(e) => {
                &&& observation_unread(*identity)(*s) == Some(e.fault())
                &&& forall|v: ObservedWork| !#[trigger] observation_kept(*s, *identity, v)
            },
        },
{
    let key = key_bytes(identity, &s.work, "observations")?;
    proof {
        lemma_narrow_tables();
    }
    let ghost tried = exists|v: ObservedWork| #[trigger] observation_kept(*s, *identity, v);
    let ghost w = choose|v: ObservedWork| #[trigger] observation_kept(*s, *identity, v);
    let value: ObservedWork = match read_kept(key.as_slice(), "observations", MAX_CONTROL_LIMIT, s.image.as_slice()) {
        Ok(value) => value,
        Err(e) => {
            assert(tried ==> observation_kept(*s, *identity, w));
            return Err(e);
        },
    };
    proof {
        reveal(kept);
        if tried {
            wire::law_encoding_is_bijective(value, w);
        }
    }
    assert(kept(
        observations::work_key(*identity, s.work, "observations"@),
        true,
        MAX_CONTROL_LIMIT,
        s.image@,
        value,
    ));
    if !(value.view.work == s.work) {
        return Err(JournalError::Corrupt("observations index changed"));
    }
    Ok(value)
}

fn read_observations(rows: &Vec<StoredWork>, identity: &SessionIdentity) -> (r: Result<Vec<ObservedWork>, JournalError>)
    ensures
        match r {
            Ok(v) => observations_kept(rows@, *identity, v@) && table::first_fault(
                rows@,
                observation_unread(*identity),
            ) is None,
            Err(e) => {
                &&& table::first_fault(rows@, observation_unread(*identity)) == Some(e.fault())
                &&& forall|v: Seq<ObservedWork>| !#[trigger] observations_kept(rows@, *identity, v)
            },
        },
{
    let mut out: Vec<ObservedWork> = Vec::new();
    let mut i: usize = 0;
    proof {
        table::lemma_first_fault_whole(rows@, observation_unread(*identity));
    }
    while i < rows.len()
        invariant
            i <= rows@.len(),
            observations_kept(rows@.take(i as int), *identity, out@),
            table::first_fault(rows@.take(i as int), observation_unread(*identity)) is None,
        decreases rows@.len() - i,
    {
        proof {
            table::lemma_first_fault_step(rows@, observation_unread(*identity), i as int);
        }
        match read_observation(&rows[i], identity) {
            Ok(value) => {
                let ghost before = out@;
                out.push(value);
                proof {
                    assert forall|j: int| 0 <= j < i + 1 implies observation_kept(
                        #[trigger] rows@.take(i + 1)[j],
                        *identity,
                        out@[j],
                    ) by {
                        if j < i {
                            assert(rows@.take(i as int)[j] == rows@[j]);
                            assert(before[j] == out@[j]);
                        }
                    }
                }
            },
            Err(e) => {
                proof {
                    assert forall|v: Seq<ObservedWork>| !#[trigger] observations_kept(rows@, *identity, v) by {
                        if observations_kept(rows@, *identity, v) {
                            assert(observation_kept(rows@[i as int], *identity, v[i as int]));
                        }
                    }
                }
                return Err(e);
            },
        }
        i += 1;
    }
    assert(rows@.take(i as int) =~= rows@);
    Ok(out)
}

fn write_observation(v: &ObservedWork, identity: &SessionIdentity) -> (r: Result<StoredWork, JournalError>)
    ensures
        match r {
            Ok(s) => observation_kept(s, *identity, *v) && observation_faults(*identity)(*v) is None,
            Err(e) => {
                &&& observation_faults(*identity)(*v) == Some(e.fault())
                &&& forall|s: StoredWork| !#[trigger] observation_kept(s, *identity, *v)
            },
        },
{
    proof {
        lemma_narrow_tables();
    }
    let ghost tried = exists|s: StoredWork| #[trigger] observation_kept(s, *identity, *v);
    let ghost w = choose|s: StoredWork| #[trigger] observation_kept(s, *identity, *v);
    let key = match key_bytes(identity, &v.view.work, "observations") {
        Ok(key) => key,
        Err(e) => {
            assert(tried ==> observation_kept(w, *identity, *v));
            return Err(e);
        },
    };
    match write_kept(key.as_slice(), "observations", MAX_CONTROL_LIMIT, v) {
        Ok(image) => Ok(StoredWork { work: v.view.work, image }),
        Err(e) => {
            assert(tried ==> observation_kept(w, *identity, *v));
            Err(e)
        },
    }
}

fn write_observations(values: &Vec<ObservedWork>, identity: &SessionIdentity) -> (r: Result<Vec<StoredWork>, JournalError>)
    ensures
        match r {
            Ok(rows) => observations_kept(rows@, *identity, values@) && table::first_fault(
                values@,
                observation_faults(*identity),
            ) is None,
            Err(e) => {
                &&& table::first_fault(values@, observation_faults(*identity)) == Some(e.fault())
                &&& forall|rows: Seq<StoredWork>| !#[trigger] observations_kept(rows, *identity, values@)
            },
        },
{
    let mut out: Vec<StoredWork> = Vec::new();
    let mut i: usize = 0;
    proof {
        table::lemma_first_fault_whole(values@, observation_faults(*identity));
    }
    while i < values.len()
        invariant
            i <= values@.len(),
            observations_kept(out@, *identity, values@.take(i as int)),
            table::first_fault(values@.take(i as int), observation_faults(*identity)) is None,
        decreases values@.len() - i,
    {
        proof {
            table::lemma_first_fault_step(values@, observation_faults(*identity), i as int);
        }
        match write_observation(&values[i], identity) {
            Ok(row) => {
                let ghost before = out@;
                out.push(row);
                proof {
                    assert forall|j: int| 0 <= j < i + 1 implies observation_kept(
                        #[trigger] out@[j],
                        *identity,
                        values@.take(i + 1)[j],
                    ) by {
                        if j < i {
                            assert(values@.take(i as int)[j] == values@[j]);
                            assert(before[j] == out@[j]);
                        }
                    }
                }
            },
            Err(e) => {
                proof {
                    assert forall|rows: Seq<StoredWork>| !#[trigger] observations_kept(
                        rows,
                        *identity,
                        values@,
                    ) by {
                        if observations_kept(rows, *identity, values@) {
                            assert(observation_kept(rows[i as int], *identity, values@[i as int]));
                        }
                    }
                }
                return Err(e);
            },
        }
        i += 1;
    }
    assert(values@.take(i as int) =~= values@);
    Ok(out)
}

fn read_manifest(s: &StoredWork, identity: &SessionIdentity) -> (r: Result<Manifest, JournalError>)
    ensures
        match r {
            Ok(v) => manifest_kept(*s, *identity, v),
            Err(e) => {
                &&& manifest_unread(*identity)(*s) == Some(e.fault())
                &&& forall|v: Manifest| !#[trigger] manifest_kept(*s, *identity, v)
            },
        },
{
    let key = key_bytes(identity, &s.work, "manifests")?;
    proof {
        lemma_narrow_tables();
    }
    let ghost tried = exists|v: Manifest| #[trigger] manifest_kept(*s, *identity, v);
    let ghost w = choose|v: Manifest| #[trigger] manifest_kept(*s, *identity, v);
    let value: Manifest = match read_kept(key.as_slice(), "manifests", MAX_CONTROL_LIMIT, s.image.as_slice()) {
        Ok(value) => value,
        Err(e) => {
            assert(tried ==> manifest_kept(*s, *identity, w));
            return Err(e);
        },
    };
    proof {
        reveal(kept);
        if tried {
            wire::law_encoding_is_bijective(value, w);
        }
    }
    assert(kept(
        observations::work_key(*identity, s.work, "manifests"@),
        true,
        MAX_CONTROL_LIMIT,
        s.image@,
        value,
    ));
    if !(value.work == s.work) {
        return Err(JournalError::Corrupt("manifests index changed"));
    }
    Ok(value)
}

fn read_manifests(rows: &Vec<StoredWork>, identity: &SessionIdentity) -> (r: Result<Vec<Manifest>, JournalError>)
    ensures
        match r {
            Ok(v) => manifests_kept(rows@, *identity, v@) && table::first_fault(
                rows@,
                manifest_unread(*identity),
            ) is None,
            Err(e) => {
                &&& table::first_fault(rows@, manifest_unread(*identity)) == Some(e.fault())
                &&& forall|v: Seq<Manifest>| !#[trigger] manifests_kept(rows@, *identity, v)
            },
        },
{
    let mut out: Vec<Manifest> = Vec::new();
    let mut i: usize = 0;
    proof {
        table::lemma_first_fault_whole(rows@, manifest_unread(*identity));
    }
    while i < rows.len()
        invariant
            i <= rows@.len(),
            manifests_kept(rows@.take(i as int), *identity, out@),
            table::first_fault(rows@.take(i as int), manifest_unread(*identity)) is None,
        decreases rows@.len() - i,
    {
        proof {
            table::lemma_first_fault_step(rows@, manifest_unread(*identity), i as int);
        }
        match read_manifest(&rows[i], identity) {
            Ok(value) => {
                let ghost before = out@;
                out.push(value);
                proof {
                    assert forall|j: int| 0 <= j < i + 1 implies manifest_kept(
                        #[trigger] rows@.take(i + 1)[j],
                        *identity,
                        out@[j],
                    ) by {
                        if j < i {
                            assert(rows@.take(i as int)[j] == rows@[j]);
                            assert(before[j] == out@[j]);
                        }
                    }
                }
            },
            Err(e) => {
                proof {
                    assert forall|v: Seq<Manifest>| !#[trigger] manifests_kept(rows@, *identity, v) by {
                        if manifests_kept(rows@, *identity, v) {
                            assert(manifest_kept(rows@[i as int], *identity, v[i as int]));
                        }
                    }
                }
                return Err(e);
            },
        }
        i += 1;
    }
    assert(rows@.take(i as int) =~= rows@);
    Ok(out)
}

fn write_manifest(v: &Manifest, identity: &SessionIdentity) -> (r: Result<StoredWork, JournalError>)
    ensures
        match r {
            Ok(s) => manifest_kept(s, *identity, *v) && manifest_faults(*identity)(*v) is None,
            Err(e) => {
                &&& manifest_faults(*identity)(*v) == Some(e.fault())
                &&& forall|s: StoredWork| !#[trigger] manifest_kept(s, *identity, *v)
            },
        },
{
    proof {
        lemma_narrow_tables();
    }
    let ghost tried = exists|s: StoredWork| #[trigger] manifest_kept(s, *identity, *v);
    let ghost w = choose|s: StoredWork| #[trigger] manifest_kept(s, *identity, *v);
    let key = match key_bytes(identity, &v.work, "manifests") {
        Ok(key) => key,
        Err(e) => {
            assert(tried ==> manifest_kept(w, *identity, *v));
            return Err(e);
        },
    };
    match write_kept(key.as_slice(), "manifests", MAX_CONTROL_LIMIT, v) {
        Ok(image) => Ok(StoredWork { work: v.work, image }),
        Err(e) => {
            assert(tried ==> manifest_kept(w, *identity, *v));
            Err(e)
        },
    }
}

fn write_manifests(values: &Vec<Manifest>, identity: &SessionIdentity) -> (r: Result<Vec<StoredWork>, JournalError>)
    ensures
        match r {
            Ok(rows) => manifests_kept(rows@, *identity, values@) && table::first_fault(
                values@,
                manifest_faults(*identity),
            ) is None,
            Err(e) => {
                &&& table::first_fault(values@, manifest_faults(*identity)) == Some(e.fault())
                &&& forall|rows: Seq<StoredWork>| !#[trigger] manifests_kept(rows, *identity, values@)
            },
        },
{
    let mut out: Vec<StoredWork> = Vec::new();
    let mut i: usize = 0;
    proof {
        table::lemma_first_fault_whole(values@, manifest_faults(*identity));
    }
    while i < values.len()
        invariant
            i <= values@.len(),
            manifests_kept(out@, *identity, values@.take(i as int)),
            table::first_fault(values@.take(i as int), manifest_faults(*identity)) is None,
        decreases values@.len() - i,
    {
        proof {
            table::lemma_first_fault_step(values@, manifest_faults(*identity), i as int);
        }
        match write_manifest(&values[i], identity) {
            Ok(row) => {
                let ghost before = out@;
                out.push(row);
                proof {
                    assert forall|j: int| 0 <= j < i + 1 implies manifest_kept(
                        #[trigger] out@[j],
                        *identity,
                        values@.take(i + 1)[j],
                    ) by {
                        if j < i {
                            assert(values@.take(i as int)[j] == values@[j]);
                            assert(before[j] == out@[j]);
                        }
                    }
                }
            },
            Err(e) => {
                proof {
                    assert forall|rows: Seq<StoredWork>| !#[trigger] manifests_kept(
                        rows,
                        *identity,
                        values@,
                    ) by {
                        if manifests_kept(rows, *identity, values@) {
                            assert(manifest_kept(rows[i as int], *identity, values@[i as int]));
                        }
                    }
                }
                return Err(e);
            },
        }
        i += 1;
    }
    assert(values@.take(i as int) =~= values@);
    Ok(out)
}

fn read_reference(s: &StoredReference, identity: &SessionIdentity) -> (r: Result<ReferenceEntry, JournalError>)
    ensures
        match r {
            Ok(v) => reference_kept(*s, *identity, v),
            Err(e) => {
                &&& reference_unread(*identity)(*s) == Some(e.fault())
                &&& forall|v: ReferenceEntry| !#[trigger] reference_kept(*s, *identity, v)
            },
        },
{
    let key = key_bytes(identity, &s.work, "result_references")?;
    proof {
        lemma_narrow_tables();
    }
    let ghost tried = exists|v: ReferenceEntry| #[trigger] reference_kept(*s, *identity, v);
    let ghost w = choose|v: ReferenceEntry| #[trigger] reference_kept(*s, *identity, v);
    let value: ReferenceChoice = match read_kept(key.as_slice(), "result_references", MAX_HEADER, s.image.as_slice()) {
        Ok(value) => value,
        Err(e) => {
            assert(tried ==> reference_kept(*s, *identity, w));
            return Err(e);
        },
    };
    proof {
        reveal(kept);
        if tried {
            wire::law_encoding_is_bijective(value, w.choice);
        }
    }
    assert(kept(
        observations::work_key(*identity, s.work, "result_references"@),
        false,
        MAX_HEADER,
        s.image@,
        value,
    ));
    if !(value.index == s.index) {
        return Err(JournalError::Corrupt("references index changed"));
    }
    Ok(ReferenceEntry { work: s.work, choice: value })
}

fn read_references(rows: &Vec<StoredReference>, identity: &SessionIdentity) -> (r: Result<Vec<ReferenceEntry>, JournalError>)
    ensures
        match r {
            Ok(v) => references_kept(rows@, *identity, v@) && table::first_fault(
                rows@,
                reference_unread(*identity),
            ) is None,
            Err(e) => {
                &&& table::first_fault(rows@, reference_unread(*identity)) == Some(e.fault())
                &&& forall|v: Seq<ReferenceEntry>| !#[trigger] references_kept(rows@, *identity, v)
            },
        },
{
    let mut out: Vec<ReferenceEntry> = Vec::new();
    let mut i: usize = 0;
    proof {
        table::lemma_first_fault_whole(rows@, reference_unread(*identity));
    }
    while i < rows.len()
        invariant
            i <= rows@.len(),
            references_kept(rows@.take(i as int), *identity, out@),
            table::first_fault(rows@.take(i as int), reference_unread(*identity)) is None,
        decreases rows@.len() - i,
    {
        proof {
            table::lemma_first_fault_step(rows@, reference_unread(*identity), i as int);
        }
        match read_reference(&rows[i], identity) {
            Ok(value) => {
                let ghost before = out@;
                out.push(value);
                proof {
                    assert forall|j: int| 0 <= j < i + 1 implies reference_kept(
                        #[trigger] rows@.take(i + 1)[j],
                        *identity,
                        out@[j],
                    ) by {
                        if j < i {
                            assert(rows@.take(i as int)[j] == rows@[j]);
                            assert(before[j] == out@[j]);
                        }
                    }
                }
            },
            Err(e) => {
                proof {
                    assert forall|v: Seq<ReferenceEntry>| !#[trigger] references_kept(rows@, *identity, v) by {
                        if references_kept(rows@, *identity, v) {
                            assert(reference_kept(rows@[i as int], *identity, v[i as int]));
                        }
                    }
                }
                return Err(e);
            },
        }
        i += 1;
    }
    assert(rows@.take(i as int) =~= rows@);
    Ok(out)
}

fn write_reference(v: &ReferenceEntry, identity: &SessionIdentity) -> (r: Result<StoredReference, JournalError>)
    ensures
        match r {
            Ok(s) => reference_kept(s, *identity, *v) && reference_faults(*identity)(*v) is None,
            Err(e) => {
                &&& reference_faults(*identity)(*v) == Some(e.fault())
                &&& forall|s: StoredReference| !#[trigger] reference_kept(s, *identity, *v)
            },
        },
{
    proof {
        lemma_narrow_tables();
    }
    let ghost tried = exists|s: StoredReference| #[trigger] reference_kept(s, *identity, *v);
    let ghost w = choose|s: StoredReference| #[trigger] reference_kept(s, *identity, *v);
    let key = match key_bytes(identity, &v.work, "result_references") {
        Ok(key) => key,
        Err(e) => {
            assert(tried ==> reference_kept(w, *identity, *v));
            return Err(e);
        },
    };
    match write_kept(key.as_slice(), "result_references", MAX_HEADER, &v.choice) {
        Ok(image) => Ok(StoredReference { work: v.work, index: v.choice.index, image }),
        Err(e) => {
            assert(tried ==> reference_kept(w, *identity, *v));
            Err(e)
        },
    }
}

fn write_references(values: &Vec<ReferenceEntry>, identity: &SessionIdentity) -> (r: Result<Vec<StoredReference>, JournalError>)
    ensures
        match r {
            Ok(rows) => references_kept(rows@, *identity, values@) && table::first_fault(
                values@,
                reference_faults(*identity),
            ) is None,
            Err(e) => {
                &&& table::first_fault(values@, reference_faults(*identity)) == Some(e.fault())
                &&& forall|rows: Seq<StoredReference>| !#[trigger] references_kept(rows, *identity, values@)
            },
        },
{
    let mut out: Vec<StoredReference> = Vec::new();
    let mut i: usize = 0;
    proof {
        table::lemma_first_fault_whole(values@, reference_faults(*identity));
    }
    while i < values.len()
        invariant
            i <= values@.len(),
            references_kept(out@, *identity, values@.take(i as int)),
            table::first_fault(values@.take(i as int), reference_faults(*identity)) is None,
        decreases values@.len() - i,
    {
        proof {
            table::lemma_first_fault_step(values@, reference_faults(*identity), i as int);
        }
        match write_reference(&values[i], identity) {
            Ok(row) => {
                let ghost before = out@;
                out.push(row);
                proof {
                    assert forall|j: int| 0 <= j < i + 1 implies reference_kept(
                        #[trigger] out@[j],
                        *identity,
                        values@.take(i + 1)[j],
                    ) by {
                        if j < i {
                            assert(values@.take(i as int)[j] == values@[j]);
                            assert(before[j] == out@[j]);
                        }
                    }
                }
            },
            Err(e) => {
                proof {
                    assert forall|rows: Seq<StoredReference>| !#[trigger] references_kept(
                        rows,
                        *identity,
                        values@,
                    ) by {
                        if references_kept(rows, *identity, values@) {
                            assert(reference_kept(rows[i as int], *identity, values@[i as int]));
                        }
                    }
                }
                return Err(e);
            },
        }
        i += 1;
    }
    assert(values@.take(i as int) =~= values@);
    Ok(out)
}

fn read_scope(s: &StoredScope, identity: &SessionIdentity) -> (r: Result<ScopeObservation, JournalError>)
    ensures
        match r {
            Ok(v) => scope_kept(*s, *identity, v),
            Err(e) => {
                &&& scope_unread(*identity)(*s) == Some(e.fault())
                &&& forall|v: ScopeObservation| !#[trigger] scope_kept(*s, *identity, v)
            },
        },
{
    let key = namespace(identity, "scopes", s.scope, None)?;
    proof {
        lemma_narrow_tables();
    }
    let ghost tried = exists|v: ScopeObservation| #[trigger] scope_kept(*s, *identity, v);
    let ghost w = choose|v: ScopeObservation| #[trigger] scope_kept(*s, *identity, v);
    let value: ScopeObservation = match read_kept(key.as_slice(), "scopes", MAX_HEADER, s.image.as_slice()) {
        Ok(value) => value,
        Err(e) => {
            assert(tried ==> scope_kept(*s, *identity, w));
            return Err(e);
        },
    };
    proof {
        reveal(kept);
        if tried {
            wire::law_encoding_is_bijective(value, w);
        }
    }
    assert(kept(
        scopes::scope_key(*identity, "scopes"@, s.scope, None),
        false,
        MAX_HEADER,
        s.image@,
        value,
    ));
    if !(value.scope == s.scope) {
        return Err(JournalError::Corrupt("scopes index changed"));
    }
    Ok(value)
}

fn read_scopes(rows: &Vec<StoredScope>, identity: &SessionIdentity) -> (r: Result<Vec<ScopeObservation>, JournalError>)
    ensures
        match r {
            Ok(v) => scopes_kept(rows@, *identity, v@) && table::first_fault(
                rows@,
                scope_unread(*identity),
            ) is None,
            Err(e) => {
                &&& table::first_fault(rows@, scope_unread(*identity)) == Some(e.fault())
                &&& forall|v: Seq<ScopeObservation>| !#[trigger] scopes_kept(rows@, *identity, v)
            },
        },
{
    let mut out: Vec<ScopeObservation> = Vec::new();
    let mut i: usize = 0;
    proof {
        table::lemma_first_fault_whole(rows@, scope_unread(*identity));
    }
    while i < rows.len()
        invariant
            i <= rows@.len(),
            scopes_kept(rows@.take(i as int), *identity, out@),
            table::first_fault(rows@.take(i as int), scope_unread(*identity)) is None,
        decreases rows@.len() - i,
    {
        proof {
            table::lemma_first_fault_step(rows@, scope_unread(*identity), i as int);
        }
        match read_scope(&rows[i], identity) {
            Ok(value) => {
                let ghost before = out@;
                out.push(value);
                proof {
                    assert forall|j: int| 0 <= j < i + 1 implies scope_kept(
                        #[trigger] rows@.take(i + 1)[j],
                        *identity,
                        out@[j],
                    ) by {
                        if j < i {
                            assert(rows@.take(i as int)[j] == rows@[j]);
                            assert(before[j] == out@[j]);
                        }
                    }
                }
            },
            Err(e) => {
                proof {
                    assert forall|v: Seq<ScopeObservation>| !#[trigger] scopes_kept(rows@, *identity, v) by {
                        if scopes_kept(rows@, *identity, v) {
                            assert(scope_kept(rows@[i as int], *identity, v[i as int]));
                        }
                    }
                }
                return Err(e);
            },
        }
        i += 1;
    }
    assert(rows@.take(i as int) =~= rows@);
    Ok(out)
}

fn write_scope(v: &ScopeObservation, identity: &SessionIdentity) -> (r: Result<StoredScope, JournalError>)
    ensures
        match r {
            Ok(s) => scope_kept(s, *identity, *v) && scope_faults(*identity)(*v) is None,
            Err(e) => {
                &&& scope_faults(*identity)(*v) == Some(e.fault())
                &&& forall|s: StoredScope| !#[trigger] scope_kept(s, *identity, *v)
            },
        },
{
    proof {
        lemma_narrow_tables();
    }
    let ghost tried = exists|s: StoredScope| #[trigger] scope_kept(s, *identity, *v);
    let ghost w = choose|s: StoredScope| #[trigger] scope_kept(s, *identity, *v);
    let key = match namespace(identity, "scopes", v.scope, None) {
        Ok(key) => key,
        Err(e) => {
            assert(tried ==> scope_kept(w, *identity, *v));
            return Err(e);
        },
    };
    match write_kept(key.as_slice(), "scopes", MAX_HEADER, v) {
        Ok(image) => Ok(StoredScope { scope: v.scope, image }),
        Err(e) => {
            assert(tried ==> scope_kept(w, *identity, *v));
            Err(e)
        },
    }
}

fn write_scopes(values: &Vec<ScopeObservation>, identity: &SessionIdentity) -> (r: Result<Vec<StoredScope>, JournalError>)
    ensures
        match r {
            Ok(rows) => scopes_kept(rows@, *identity, values@) && table::first_fault(
                values@,
                scope_faults(*identity),
            ) is None,
            Err(e) => {
                &&& table::first_fault(values@, scope_faults(*identity)) == Some(e.fault())
                &&& forall|rows: Seq<StoredScope>| !#[trigger] scopes_kept(rows, *identity, values@)
            },
        },
{
    let mut out: Vec<StoredScope> = Vec::new();
    let mut i: usize = 0;
    proof {
        table::lemma_first_fault_whole(values@, scope_faults(*identity));
    }
    while i < values.len()
        invariant
            i <= values@.len(),
            scopes_kept(out@, *identity, values@.take(i as int)),
            table::first_fault(values@.take(i as int), scope_faults(*identity)) is None,
        decreases values@.len() - i,
    {
        proof {
            table::lemma_first_fault_step(values@, scope_faults(*identity), i as int);
        }
        match write_scope(&values[i], identity) {
            Ok(row) => {
                let ghost before = out@;
                out.push(row);
                proof {
                    assert forall|j: int| 0 <= j < i + 1 implies scope_kept(
                        #[trigger] out@[j],
                        *identity,
                        values@.take(i + 1)[j],
                    ) by {
                        if j < i {
                            assert(values@.take(i as int)[j] == values@[j]);
                            assert(before[j] == out@[j]);
                        }
                    }
                }
            },
            Err(e) => {
                proof {
                    assert forall|rows: Seq<StoredScope>| !#[trigger] scopes_kept(
                        rows,
                        *identity,
                        values@,
                    ) by {
                        if scopes_kept(rows, *identity, values@) {
                            assert(scope_kept(rows[i as int], *identity, values@[i as int]));
                        }
                    }
                }
                return Err(e);
            },
        }
        i += 1;
    }
    assert(values@.take(i as int) =~= values@);
    Ok(out)
}

fn read_member(s: &StoredMember, identity: &SessionIdentity) -> (r: Result<ScopeMember, JournalError>)
    ensures
        match r {
            Ok(v) => member_kept(*s, *identity, v),
            Err(e) => {
                &&& member_unread(*identity)(*s) == Some(e.fault())
                &&& forall|v: ScopeMember| !#[trigger] member_kept(*s, *identity, v)
            },
        },
{
    let key = namespace(identity, "scope_members", s.scope, Some(s.entity))?;
    proof {
        lemma_narrow_tables();
    }
    let ghost tried = exists|v: ScopeMember| #[trigger] member_kept(*s, *identity, v);
    let ghost w = choose|v: ScopeMember| #[trigger] member_kept(*s, *identity, v);
    let value: ScopeMember = match read_kept(key.as_slice(), "scope_members", MAX_HEADER, s.image.as_slice()) {
        Ok(value) => value,
        Err(e) => {
            assert(tried ==> member_kept(*s, *identity, w));
            return Err(e);
        },
    };
    proof {
        reveal(kept);
        if tried {
            wire::law_encoding_is_bijective(value, w);
        }
    }
    assert(kept(
        scopes::scope_key(*identity, "scope_members"@, s.scope, Some(s.entity)),
        false,
        MAX_HEADER,
        s.image@,
        value,
    ));
    if !(value.work.scope == s.scope && value.work.entity == s.entity) {
        return Err(JournalError::Corrupt("members index changed"));
    }
    Ok(value)
}

fn read_members(rows: &Vec<StoredMember>, identity: &SessionIdentity) -> (r: Result<Vec<ScopeMember>, JournalError>)
    ensures
        match r {
            Ok(v) => members_kept(rows@, *identity, v@) && table::first_fault(
                rows@,
                member_unread(*identity),
            ) is None,
            Err(e) => {
                &&& table::first_fault(rows@, member_unread(*identity)) == Some(e.fault())
                &&& forall|v: Seq<ScopeMember>| !#[trigger] members_kept(rows@, *identity, v)
            },
        },
{
    let mut out: Vec<ScopeMember> = Vec::new();
    let mut i: usize = 0;
    proof {
        table::lemma_first_fault_whole(rows@, member_unread(*identity));
    }
    while i < rows.len()
        invariant
            i <= rows@.len(),
            members_kept(rows@.take(i as int), *identity, out@),
            table::first_fault(rows@.take(i as int), member_unread(*identity)) is None,
        decreases rows@.len() - i,
    {
        proof {
            table::lemma_first_fault_step(rows@, member_unread(*identity), i as int);
        }
        match read_member(&rows[i], identity) {
            Ok(value) => {
                let ghost before = out@;
                out.push(value);
                proof {
                    assert forall|j: int| 0 <= j < i + 1 implies member_kept(
                        #[trigger] rows@.take(i + 1)[j],
                        *identity,
                        out@[j],
                    ) by {
                        if j < i {
                            assert(rows@.take(i as int)[j] == rows@[j]);
                            assert(before[j] == out@[j]);
                        }
                    }
                }
            },
            Err(e) => {
                proof {
                    assert forall|v: Seq<ScopeMember>| !#[trigger] members_kept(rows@, *identity, v) by {
                        if members_kept(rows@, *identity, v) {
                            assert(member_kept(rows@[i as int], *identity, v[i as int]));
                        }
                    }
                }
                return Err(e);
            },
        }
        i += 1;
    }
    assert(rows@.take(i as int) =~= rows@);
    Ok(out)
}

fn write_member(v: &ScopeMember, identity: &SessionIdentity) -> (r: Result<StoredMember, JournalError>)
    ensures
        match r {
            Ok(s) => member_kept(s, *identity, *v) && member_faults(*identity)(*v) is None,
            Err(e) => {
                &&& member_faults(*identity)(*v) == Some(e.fault())
                &&& forall|s: StoredMember| !#[trigger] member_kept(s, *identity, *v)
            },
        },
{
    proof {
        lemma_narrow_tables();
    }
    let ghost tried = exists|s: StoredMember| #[trigger] member_kept(s, *identity, *v);
    let ghost w = choose|s: StoredMember| #[trigger] member_kept(s, *identity, *v);
    let key = match namespace(identity, "scope_members", v.work.scope, Some(v.work.entity)) {
        Ok(key) => key,
        Err(e) => {
            assert(tried ==> member_kept(w, *identity, *v));
            return Err(e);
        },
    };
    match write_kept(key.as_slice(), "scope_members", MAX_HEADER, v) {
        Ok(image) => Ok(StoredMember { scope: v.work.scope, entity: v.work.entity, image }),
        Err(e) => {
            assert(tried ==> member_kept(w, *identity, *v));
            Err(e)
        },
    }
}

fn write_members(values: &Vec<ScopeMember>, identity: &SessionIdentity) -> (r: Result<Vec<StoredMember>, JournalError>)
    ensures
        match r {
            Ok(rows) => members_kept(rows@, *identity, values@) && table::first_fault(
                values@,
                member_faults(*identity),
            ) is None,
            Err(e) => {
                &&& table::first_fault(values@, member_faults(*identity)) == Some(e.fault())
                &&& forall|rows: Seq<StoredMember>| !#[trigger] members_kept(rows, *identity, values@)
            },
        },
{
    let mut out: Vec<StoredMember> = Vec::new();
    let mut i: usize = 0;
    proof {
        table::lemma_first_fault_whole(values@, member_faults(*identity));
    }
    while i < values.len()
        invariant
            i <= values@.len(),
            members_kept(out@, *identity, values@.take(i as int)),
            table::first_fault(values@.take(i as int), member_faults(*identity)) is None,
        decreases values@.len() - i,
    {
        proof {
            table::lemma_first_fault_step(values@, member_faults(*identity), i as int);
        }
        match write_member(&values[i], identity) {
            Ok(row) => {
                let ghost before = out@;
                out.push(row);
                proof {
                    assert forall|j: int| 0 <= j < i + 1 implies member_kept(
                        #[trigger] out@[j],
                        *identity,
                        values@.take(i + 1)[j],
                    ) by {
                        if j < i {
                            assert(values@.take(i as int)[j] == values@[j]);
                            assert(before[j] == out@[j]);
                        }
                    }
                }
            },
            Err(e) => {
                proof {
                    assert forall|rows: Seq<StoredMember>| !#[trigger] members_kept(
                        rows,
                        *identity,
                        values@,
                    ) by {
                        if members_kept(rows, *identity, values@) {
                            assert(member_kept(rows[i as int], *identity, values@[i as int]));
                        }
                    }
                }
                return Err(e);
            },
        }
        i += 1;
    }
    assert(values@.take(i as int) =~= values@);
    Ok(out)
}

fn read_summary(s: &StoredScope, identity: &SessionIdentity) -> (r: Result<ScopeSummary, JournalError>)
    ensures
        match r {
            Ok(v) => summary_kept(*s, *identity, v),
            Err(e) => {
                &&& summary_unread(*identity)(*s) == Some(e.fault())
                &&& forall|v: ScopeSummary| !#[trigger] summary_kept(*s, *identity, v)
            },
        },
{
    let key = namespace(identity, "scope_coverage", s.scope, None)?;
    proof {
        lemma_narrow_tables();
    }
    let ghost tried = exists|v: ScopeSummary| #[trigger] summary_kept(*s, *identity, v);
    let ghost w = choose|v: ScopeSummary| #[trigger] summary_kept(*s, *identity, v);
    let value: ScopeSummary = match read_kept(key.as_slice(), "scope_coverage", MAX_HEADER, s.image.as_slice()) {
        Ok(value) => value,
        Err(e) => {
            assert(tried ==> summary_kept(*s, *identity, w));
            return Err(e);
        },
    };
    proof {
        reveal(kept);
        if tried {
            wire::law_encoding_is_bijective(value, w);
        }
    }
    assert(kept(
        scopes::scope_key(*identity, "scope_coverage"@, s.scope, None),
        false,
        MAX_HEADER,
        s.image@,
        value,
    ));
    if !(value.scope == s.scope) {
        return Err(JournalError::Corrupt("coverage index changed"));
    }
    Ok(value)
}

fn read_coverage(rows: &Vec<StoredScope>, identity: &SessionIdentity) -> (r: Result<Vec<ScopeSummary>, JournalError>)
    ensures
        match r {
            Ok(v) => summaries_kept(rows@, *identity, v@) && table::first_fault(
                rows@,
                summary_unread(*identity),
            ) is None,
            Err(e) => {
                &&& table::first_fault(rows@, summary_unread(*identity)) == Some(e.fault())
                &&& forall|v: Seq<ScopeSummary>| !#[trigger] summaries_kept(rows@, *identity, v)
            },
        },
{
    let mut out: Vec<ScopeSummary> = Vec::new();
    let mut i: usize = 0;
    proof {
        table::lemma_first_fault_whole(rows@, summary_unread(*identity));
    }
    while i < rows.len()
        invariant
            i <= rows@.len(),
            summaries_kept(rows@.take(i as int), *identity, out@),
            table::first_fault(rows@.take(i as int), summary_unread(*identity)) is None,
        decreases rows@.len() - i,
    {
        proof {
            table::lemma_first_fault_step(rows@, summary_unread(*identity), i as int);
        }
        match read_summary(&rows[i], identity) {
            Ok(value) => {
                let ghost before = out@;
                out.push(value);
                proof {
                    assert forall|j: int| 0 <= j < i + 1 implies summary_kept(
                        #[trigger] rows@.take(i + 1)[j],
                        *identity,
                        out@[j],
                    ) by {
                        if j < i {
                            assert(rows@.take(i as int)[j] == rows@[j]);
                            assert(before[j] == out@[j]);
                        }
                    }
                }
            },
            Err(e) => {
                proof {
                    assert forall|v: Seq<ScopeSummary>| !#[trigger] summaries_kept(rows@, *identity, v) by {
                        if summaries_kept(rows@, *identity, v) {
                            assert(summary_kept(rows@[i as int], *identity, v[i as int]));
                        }
                    }
                }
                return Err(e);
            },
        }
        i += 1;
    }
    assert(rows@.take(i as int) =~= rows@);
    Ok(out)
}

fn write_summary(v: &ScopeSummary, identity: &SessionIdentity) -> (r: Result<StoredScope, JournalError>)
    ensures
        match r {
            Ok(s) => summary_kept(s, *identity, *v) && summary_faults(*identity)(*v) is None,
            Err(e) => {
                &&& summary_faults(*identity)(*v) == Some(e.fault())
                &&& forall|s: StoredScope| !#[trigger] summary_kept(s, *identity, *v)
            },
        },
{
    proof {
        lemma_narrow_tables();
    }
    let ghost tried = exists|s: StoredScope| #[trigger] summary_kept(s, *identity, *v);
    let ghost w = choose|s: StoredScope| #[trigger] summary_kept(s, *identity, *v);
    let key = match namespace(identity, "scope_coverage", v.scope, None) {
        Ok(key) => key,
        Err(e) => {
            assert(tried ==> summary_kept(w, *identity, *v));
            return Err(e);
        },
    };
    match write_kept(key.as_slice(), "scope_coverage", MAX_HEADER, v) {
        Ok(image) => Ok(StoredScope { scope: v.scope, image }),
        Err(e) => {
            assert(tried ==> summary_kept(w, *identity, *v));
            Err(e)
        },
    }
}

fn write_coverage(values: &Vec<ScopeSummary>, identity: &SessionIdentity) -> (r: Result<Vec<StoredScope>, JournalError>)
    ensures
        match r {
            Ok(rows) => summaries_kept(rows@, *identity, values@) && table::first_fault(
                values@,
                summary_faults(*identity),
            ) is None,
            Err(e) => {
                &&& table::first_fault(values@, summary_faults(*identity)) == Some(e.fault())
                &&& forall|rows: Seq<StoredScope>| !#[trigger] summaries_kept(rows, *identity, values@)
            },
        },
{
    let mut out: Vec<StoredScope> = Vec::new();
    let mut i: usize = 0;
    proof {
        table::lemma_first_fault_whole(values@, summary_faults(*identity));
    }
    while i < values.len()
        invariant
            i <= values@.len(),
            summaries_kept(out@, *identity, values@.take(i as int)),
            table::first_fault(values@.take(i as int), summary_faults(*identity)) is None,
        decreases values@.len() - i,
    {
        proof {
            table::lemma_first_fault_step(values@, summary_faults(*identity), i as int);
        }
        match write_summary(&values[i], identity) {
            Ok(row) => {
                let ghost before = out@;
                out.push(row);
                proof {
                    assert forall|j: int| 0 <= j < i + 1 implies summary_kept(
                        #[trigger] out@[j],
                        *identity,
                        values@.take(i + 1)[j],
                    ) by {
                        if j < i {
                            assert(values@.take(i as int)[j] == values@[j]);
                            assert(before[j] == out@[j]);
                        }
                    }
                }
            },
            Err(e) => {
                proof {
                    assert forall|rows: Seq<StoredScope>| !#[trigger] summaries_kept(
                        rows,
                        *identity,
                        values@,
                    ) by {
                        if summaries_kept(rows, *identity, values@) {
                            assert(summary_kept(rows[i as int], *identity, values@[i as int]));
                        }
                    }
                }
                return Err(e);
            },
        }
        i += 1;
    }
    assert(values@.take(i as int) =~= values@);
    Ok(out)
}

fn write_operation(e: &OperationEntry, identity: &SessionIdentity) -> (r: Result<
    StoredOperation,
    JournalError,
>)
    ensures
        match r {
            Ok(s) => operation_kept(s, *identity, *e) && operation_faults(*identity)(*e) is None,
            Err(x) => {
                &&& operation_faults(*identity)(*e) == Some(x.fault())
                &&& forall|s: StoredOperation| !#[trigger] operation_kept(s, *identity, *e)
            },
        },
{
    let ghost tried = exists|s: StoredOperation| #[trigger] operation_kept(s, *identity, *e);
    let ghost w = choose|s: StoredOperation| #[trigger] operation_kept(s, *identity, *e);
    proof {
        lemma_narrow_tables();
        assert(tried ==> operation_kept(w, *identity, *e));
    }
    if e.row < 1 || e.row > MAX_NUMBER {
        return Err(JournalError::Corrupt("invalid operation cursor"));
    }
    protocol(e.intent.operation.check())?;
    let intent = intent_image(&e.intent, identity)?;
    assert(tried ==> w.intent@.len() == intent@.len());
    check_narrow(intent.len())?;
    let receipt = match &e.receipt {
        Some(receipt) => match write_kept(
            &e.intent.operation.0,
            "operations",
            MAX_HEADER,
            receipt,
        ) {
            Ok(image) => Some(image),
            Err(x) => {
                assert(tried ==> kept(
                    e.intent.operation.0@,
                    false,
                    MAX_HEADER,
                    w.receipt->0@,
                    *receipt,
                ));
                return Err(x);
            },
        },
        None => None,
    };
    Ok(StoredOperation { row: e.row, operation: e.intent.operation, intent, receipt })
}

fn write_operations(values: &Vec<OperationEntry>, identity: &SessionIdentity) -> (r: Result<
    Vec<StoredOperation>,
    JournalError,
>)
    ensures
        match r {
            Ok(rows) => operations_kept(rows@, *identity, values@) && table::first_fault(
                values@,
                operation_faults(*identity),
            ) is None,
            Err(e) => {
                &&& table::first_fault(values@, operation_faults(*identity)) == Some(e.fault())
                &&& forall|rows: Seq<StoredOperation>|
                    !#[trigger] operations_kept(rows, *identity, values@)
            },
        },
{
    let mut out: Vec<StoredOperation> = Vec::new();
    let mut i: usize = 0;
    proof {
        table::lemma_first_fault_whole(values@, operation_faults(*identity));
    }
    while i < values.len()
        invariant
            i <= values@.len(),
            operations_kept(out@, *identity, values@.take(i as int)),
            table::first_fault(values@.take(i as int), operation_faults(*identity)) is None,
        decreases values@.len() - i,
    {
        proof {
            table::lemma_first_fault_step(values@, operation_faults(*identity), i as int);
        }
        match write_operation(&values[i], identity) {
            Ok(row) => {
                let ghost before = out@;
                out.push(row);
                proof {
                    assert forall|j: int| 0 <= j < i + 1 implies operation_kept(
                        #[trigger] out@[j],
                        *identity,
                        values@.take(i + 1)[j],
                    ) by {
                        if j < i {
                            assert(values@.take(i as int)[j] == values@[j]);
                            assert(before[j] == out@[j]);
                        }
                    }
                }
            },
            Err(e) => {
                proof {
                    assert forall|rows: Seq<StoredOperation>|
                        !#[trigger] operations_kept(rows, *identity, values@) by {
                        if operations_kept(rows, *identity, values@) {
                            assert(operation_kept(rows[i as int], *identity, values@[i as int]));
                        }
                    }
                }
                return Err(e);
            },
        }
        i += 1;
    }
    assert(values@.take(i as int) =~= values@);
    Ok(out)
}

fn write_binding(b: &BoundSession, creation: &Creation) -> (r: Result<Vec<u8>, JournalError>)
    ensures
        match r {
            Ok(image) => binding_kept(image@, *creation, *b) && binding_fault(*b, *creation) is None,
            Err(e) => {
                &&& binding_fault(*b, *creation) == Some(e.fault())
                &&& forall|image: Seq<u8>| !#[trigger] binding_kept(image, *creation, *b)
            },
        },
{
    let control = Control::Session(
        Session::Binding {
            request: Id(1),
            authority: b.identity.authority.duplicate(),
            owner: b.identity.owner.duplicate(),
            generation: b.identity.generation,
            creation_sequence: b.creation_sequence,
            policy: b.policy,
            limits: b.limits,
        },
    );
    proof {
        Id(1).agrees_reflexive();
        b.identity.generation.agrees_reflexive();
        b.creation_sequence.agrees_reflexive();
        b.policy.agrees_reflexive();
        b.limits.agrees_reflexive();
        assert(control.agrees(b.stored()));
        storage::lemma_control_carries(control, b.stored(), IMAGE_LIMIT);
    }
    if !b.identity.authority.same(&creation.authority) || !b.identity.owner.same(&creation.owner)
        || b.creation_sequence != creation.creation_sequence || b.policy != creation.policy {
        return Err(
            storage::refuse(
                ErrorCode::IntegrityError,
                "session binding disagrees with persisted creation",
            ),
        );
    }
    let bytes = protocol(control.encode(IMAGE_LIMIT))?;
    let image = seal("binding".as_bytes(), bytes.as_slice());
    assert(image@.take(image@.len() - 32) =~= bytes@);
    match check_narrow(image.len()) {
        Ok(_) => Ok(image),
        Err(e) => {
            proof {
                assert forall|other: Seq<u8>| !#[trigger] binding_kept(other, *creation, *b) by {
                    if binding_kept(other, *creation, *b) {
                        assert(other.len() == bytes@.len() + 32);
                    }
                }
            }
            Err(e)
        },
    }
}

fn rows_ascend(rows: &Vec<OperationEntry>) -> (r: bool)
    ensures
        r == forall|i: int, j: int|
            0 <= i < j < rows@.len() ==> (#[trigger] rows@[i]).row < (#[trigger] rows@[j]).row,
{
    let mut i: usize = 0;
    while i < rows.len()
        invariant
            i <= rows@.len(),
            forall|j: int, k: int|
                0 <= j < k < i ==> (#[trigger] rows@[j]).row < (#[trigger] rows@[k]).row,
        decreases rows@.len() - i,
    {
        if i > 0 && rows[i - 1].row >= rows[i].row {
            assert(!(rows@[i - 1].row < rows@[i as int].row));
            return false;
        }
        proof {
            assert forall|j: int, k: int| 0 <= j < k < i + 1 implies (#[trigger] rows@[j]).row < (
            #[trigger] rows@[k]).row by {
                if k == i && j < i - 1 {
                    assert(rows@[j].row < rows@[i - 1].row);
                }
            }
        }
        i += 1;
    }
    true
}

fn scopes_ascend(rows: &Vec<ScopeObservation>) -> (r: bool)
    ensures
        r == forall|i: int, j: int|
            0 <= i < j < rows@.len() ==> (#[trigger] rows@[i]).scope.0 < (
            #[trigger] rows@[j]).scope.0,
{
    let mut i: usize = 0;
    while i < rows.len()
        invariant
            i <= rows@.len(),
            forall|j: int, k: int|
                0 <= j < k < i ==> (#[trigger] rows@[j]).scope.0 < (#[trigger] rows@[k]).scope.0,
        decreases rows@.len() - i,
    {
        if i > 0 && rows[i - 1].scope.0 >= rows[i].scope.0 {
            assert(!(rows@[i - 1].scope.0 < rows@[i as int].scope.0));
            return false;
        }
        proof {
            assert forall|j: int, k: int| 0 <= j < k < i + 1 implies (#[trigger] rows@[j]).scope.0 < (
            #[trigger] rows@[k]).scope.0 by {
                if k == i && j < i - 1 {
                    assert(rows@[j].scope.0 < rows@[i - 1].scope.0);
                }
            }
        }
        i += 1;
    }
    true
}

fn members_ascend(rows: &Vec<ScopeMember>) -> (r: bool)
    ensures
        r == forall|i: int, j: int|
            0 <= i < j < rows@.len() ==> known::before((#[trigger] rows@[i]).work, (
            #[trigger] rows@[j]).work),
{
    let mut i: usize = 0;
    while i < rows.len()
        invariant
            i <= rows@.len(),
            forall|j: int, k: int|
                0 <= j < k < i ==> known::before((#[trigger] rows@[j]).work, (
                #[trigger] rows@[k]).work),
        decreases rows@.len() - i,
    {
        if i > 0 {
            let a = rows[i - 1].work;
            let b = rows[i].work;
            if !(a.scope.0 < b.scope.0 || (a.scope.0 == b.scope.0 && a.entity.0 < b.entity.0)) {
                assert(!known::before(rows@[i - 1].work, rows@[i as int].work));
                return false;
            }
        }
        proof {
            assert forall|j: int, k: int| 0 <= j < k < i + 1 implies known::before(
                (#[trigger] rows@[j]).work,
                (#[trigger] rows@[k]).work,
            ) by {
                if k == i && j < i - 1 {
                    assert(known::before(rows@[j].work, rows@[i - 1].work));
                }
            }
        }
        i += 1;
    }
    true
}

fn observations_differ(rows: &Vec<ObservedWork>) -> (r: bool)
    ensures
        r == forall|i: int, j: int|
            0 <= i < j < rows@.len() ==> (#[trigger] rows@[i]).view.work != (
            #[trigger] rows@[j]).view.work,
{
    let mut j: usize = 0;
    while j < rows.len()
        invariant
            j <= rows@.len(),
            forall|i: int, k: int|
                0 <= i < k < j ==> (#[trigger] rows@[i]).view.work != (#[trigger] rows@[k]).view.work,
        decreases rows@.len() - j,
    {
        let mut i: usize = 0;
        while i < j
            invariant
                i <= j < rows@.len(),
                forall|n: int|
                    0 <= n < i ==> (#[trigger] rows@[n]).view.work != rows@[j as int].view.work,
            decreases j - i,
        {
            if rows[i].view.work == rows[j].view.work {
                assert(rows@[i as int].view.work == rows@[j as int].view.work);
                return false;
            }
            i += 1;
        }
        j += 1;
    }
    true
}

fn manifests_differ(rows: &Vec<Manifest>) -> (r: bool)
    ensures
        r == forall|i: int, j: int|
            0 <= i < j < rows@.len() ==> (#[trigger] rows@[i]).work != (#[trigger] rows@[j]).work,
{
    let mut j: usize = 0;
    while j < rows.len()
        invariant
            j <= rows@.len(),
            forall|i: int, k: int|
                0 <= i < k < j ==> (#[trigger] rows@[i]).work != (#[trigger] rows@[k]).work,
        decreases rows@.len() - j,
    {
        let mut i: usize = 0;
        while i < j
            invariant
                i <= j < rows@.len(),
                forall|n: int| 0 <= n < i ==> (#[trigger] rows@[n]).work != rows@[j as int].work,
            decreases j - i,
        {
            if rows[i].work == rows[j].work {
                assert(rows@[i as int].work == rows@[j as int].work);
                return false;
            }
            i += 1;
        }
        j += 1;
    }
    true
}

/// Rows of two readings of one file stand in the same order.
proof fn lemma_same_order(file: JournalFile, a: Notes, b: Notes)
    requires
        rows_kept(file, a),
        rows_kept(file, b),
        a.bound == b.bound,
        a.creation == b.creation,
        a.limits == b.limits,
        a.ordered(),
    ensures
        b.ordered(),
{
    reveal(kept);
    reveal(journal::works_distinct);
    assert forall|i: int, j: int| 0 <= i < j < b.observations.len() implies (
    #[trigger] b.observations[i]).view.work != (#[trigger] b.observations[j]).view.work by {
        assert(observation_kept(file.observations@[i], a.bound->0.identity, a.observations[i]));
        assert(observation_kept(file.observations@[j], a.bound->0.identity, a.observations[j]));
        assert(observation_kept(file.observations@[i], a.bound->0.identity, b.observations[i]));
        assert(observation_kept(file.observations@[j], a.bound->0.identity, b.observations[j]));
        assert(a.observations[i].view.work != a.observations[j].view.work);
    }
    assert forall|i: int, j: int| 0 <= i < j < b.manifests.len() implies (
    #[trigger] b.manifests[i]).work != (#[trigger] b.manifests[j]).work by {
        assert(manifest_kept(file.manifests@[i], a.bound->0.identity, a.manifests[i]));
        assert(manifest_kept(file.manifests@[j], a.bound->0.identity, a.manifests[j]));
        assert(manifest_kept(file.manifests@[i], a.bound->0.identity, b.manifests[i]));
        assert(manifest_kept(file.manifests@[j], a.bound->0.identity, b.manifests[j]));
        assert(a.manifests[i].work != a.manifests[j].work);
    }
    assert forall|i: int, j: int| 0 <= i < j < b.operations.len() implies (
    #[trigger] b.operations[i]).row < (#[trigger] b.operations[j]).row by {
        assert(operation_kept(file.operations@[i], a.bound->0.identity, a.operations[i]));
        assert(operation_kept(file.operations@[j], a.bound->0.identity, a.operations[j]));
        assert(operation_kept(file.operations@[i], a.bound->0.identity, b.operations[i]));
        assert(operation_kept(file.operations@[j], a.bound->0.identity, b.operations[j]));
        assert(a.operations[i].row < a.operations[j].row);
    }
    assert forall|i: int| 0 <= i < b.operations.len() implies 1 <= (
    #[trigger] b.operations[i]).row <= MAX_NUMBER by {
        assert(operation_kept(file.operations@[i], a.bound->0.identity, b.operations[i]));
    }
    assert forall|i: int| 0 <= i < b.scopes.len() implies (#[trigger] b.scopes[i]).valid() by {
        assert(scope_kept(file.scopes@[i], a.bound->0.identity, b.scopes[i]));
    }
    assert forall|i: int, j: int| 0 <= i < j < b.scopes.len() implies (
    #[trigger] b.scopes[i]).scope.0 < (#[trigger] b.scopes[j]).scope.0 by {
        assert(scope_kept(file.scopes@[i], a.bound->0.identity, a.scopes[i]));
        assert(scope_kept(file.scopes@[j], a.bound->0.identity, a.scopes[j]));
        assert(scope_kept(file.scopes@[i], a.bound->0.identity, b.scopes[i]));
        assert(scope_kept(file.scopes@[j], a.bound->0.identity, b.scopes[j]));
        assert(a.scopes[i].scope.0 < a.scopes[j].scope.0);
    }
    assert forall|i: int| 0 <= i < b.members.len() implies (#[trigger] b.members[i]).valid() by {
        assert(member_kept(file.members@[i], a.bound->0.identity, b.members[i]));
    }
    assert forall|i: int, j: int| 0 <= i < j < b.members.len() implies known::before(
        (#[trigger] b.members[i]).work,
        (#[trigger] b.members[j]).work,
    ) by {
        assert(member_kept(file.members@[i], a.bound->0.identity, a.members[i]));
        assert(member_kept(file.members@[j], a.bound->0.identity, a.members[j]));
        assert(member_kept(file.members@[i], a.bound->0.identity, b.members[i]));
        assert(member_kept(file.members@[j], a.bound->0.identity, b.members[j]));
        assert(known::before(a.members[i].work, a.members[j].work));
    }
}

impl Journal {
    fn in_order(&self) -> (r: bool)
        requires
            self@.creation.valid(),
            self@.limits.valid(),
            self@.bound matches Some(b) ==> b.identity.generation.valid(),
            forall|i: int|
                0 <= i < self@.operations.len() ==> 1 <= (#[trigger] self@.operations[i]).row
                    <= MAX_NUMBER,
            forall|i: int| 0 <= i < self@.scopes.len() ==> (#[trigger] self@.scopes[i]).valid(),
            forall|i: int| 0 <= i < self@.members.len() ==> (#[trigger] self@.members[i]).valid(),
        ensures
            r == self@.ordered(),
    {
        let placed = self.bound.is_some() || (self.operations.len() == 0
            && self.observations.len() == 0 && self.manifests.len() == 0 && self.references.len()
            == 0 && self.scopes.len() == 0 && self.members.len() == 0 && self.coverage.len() == 0);
        proof {
            reveal(journal::works_distinct);
        }
        placed && rows_ascend(&self.operations) && scopes_ascend(&self.scopes) && members_ascend(
            &self.members,
        ) && observations_differ(&self.observations) && manifests_differ(&self.manifests)
    }

    /// Reads every row of a journal back.
    fn read_rows(
        file: &JournalFile,
        creation: Creation,
        limits: JournalLimits,
        bound: BoundSession,
    ) -> (r: Result<Journal, JournalError>)
        requires
            header_kept(*file, creation, limits),
            bound_kept(*file, creation, Some(bound)),
        ensures
            match r {
                Ok(j) => holds(*file, j@) && j@.creation == creation && j@.limits == limits,
                Err(e) => unheld(*file, creation, limits, Some(bound)) && e.fault() == (
                match rows_unread(*file, bound.identity) {
                    Some(f) => f,
                    None => Fault::Corrupt,
                }),
            },
    {
        let operations = read_operations(&file.operations, &bound.identity)?;
        let observations = read_observations(&file.observations, &bound.identity)?;
        let manifests = read_manifests(&file.manifests, &bound.identity)?;
        let references = read_references(&file.references, &bound.identity)?;
        let scopes = read_scopes(&file.scopes, &bound.identity)?;
        let members = read_members(&file.members, &bound.identity)?;
        let coverage = read_coverage(&file.coverage, &bound.identity)?;
        let ghost b = bound;
        let journal = Journal {
            creation,
            limits,
            bound: Some(bound),
            operations,
            observations,
            manifests,
            references,
            scopes,
            members,
            coverage,
        };
        proof {
            reveal(kept);
            let identity = b.identity;
            assert(rows_kept(*file, journal@));
            assert forall|i: int| 0 <= i < journal@.operations.len() implies 1 <= (
            #[trigger] journal@.operations[i]).row <= MAX_NUMBER by {
                assert(operation_kept(file.operations@[i], identity, journal@.operations[i]));
            }
            assert forall|i: int| 0 <= i < journal@.scopes.len() implies (
            #[trigger] journal@.scopes[i]).valid() by {
                assert(scope_kept(file.scopes@[i], identity, journal@.scopes[i]));
            }
            assert forall|i: int| 0 <= i < journal@.members.len() implies (
            #[trigger] journal@.members[i]).valid() by {
                assert(member_kept(file.members@[i], identity, journal@.members[i]));
            }
        }
        if !journal.in_order() {
            proof {
                assert forall|t: Notes|
                    t.creation == creation && t.limits == limits && t.bound == Some(b)
                        implies !#[trigger] holds(*file, t) by {
                    if holds(*file, t) {
                        lemma_same_order(*file, t, journal@);
                    }
                }
            }
            return Err(JournalError::Corrupt("journal rows out of order"));
        }
        Ok(journal)
    }

    /// Existing history only. The expected authority/owner/creation policy and
    /// quotas come from trusted application configuration, never a locator.
    pub fn open(file: &JournalFile, creation: Creation, limits: JournalLimits) -> (r: Result<
        Journal,
        JournalError,
    >)
        ensures
            match r {
                Ok(j) => {
                    &&& holds(*file, j@)
                    &&& j@.creation == creation && j@.limits == limits
                    &&& j@.well_formed()
                },
                Err(e) => {
                    ||| {
                        &&& unreadable(*file, creation, limits)
                        &&& reading_fault(*file, creation, limits, e.fault())
                    }
                    ||| exists|t: Notes| #[trigger]
                        holds(*file, t) && t.creation == creation && t.limits == limits
                            && t.audit_fault() == Some(e.fault())
                },
            },
    {
        let expected = configuration(&creation, &limits)?;
        if file.application != APPLICATION || file.format != FORMAT || !same_octets(
            file.configuration.as_slice(),
            expected.as_slice(),
        ) {
            return Err(JournalError::Corrupt("journal format, identity or policy changed"));
        }
        let journal = match &file.binding {
            Some(image) => {
                let bound = match read_binding(image.as_slice(), &creation) {
                    Ok(bound) => bound,
                    Err(e) => {
                        proof {
                            assert forall|b: Option<BoundSession>|
                                !#[trigger] bound_kept(*file, creation, b) by {
                                if bound_kept(*file, creation, b) {
                                    assert(binding_kept(image@, creation, b->0));
                                }
                            }
                        }
                        return Err(e);
                    },
                };
                Journal::read_rows(file, creation, limits, bound)?
            },
            None => {
                assert(bound_kept(*file, creation, None));
                if file.operations.len() != 0 || file.observations.len() != 0
                    || file.manifests.len() != 0 || file.references.len() != 0 || file.scopes.len()
                    != 0 || file.members.len() != 0 || file.coverage.len() != 0 {
                    assert(unheld(*file, creation, limits, None));
                    return Err(JournalError::Corrupt("journal count or binding missing"));
                }
                let journal = Journal::initialize(creation, limits)?;
                assert(rows_kept(*file, journal@));
                assert(holds(*file, journal@));
                journal
            },
        };
        assert(holds(*file, journal@));
        journal.audit()?;
        proof {
            durability::law_read_journal_is_compact(*file, journal@);
        }
        Ok(journal)
    }

    /// The journal as it is stored. Everything that a well-formed journal holds can be written down.
    pub fn images(&self) -> (r: Result<JournalFile, JournalError>)
        requires
            self@.well_formed(),
        ensures
            r matches Ok(file) && holds(file, self@),
    {
        proof {
            durability::law_journal_can_be_written(self@);
        }
        let configuration = configuration(&self.creation, &self.limits)?;
        match &self.bound {
            Some(bound) => {
                let binding = write_binding(bound, &self.creation)?;
                let operations = write_operations(&self.operations, &bound.identity)?;
                let observations = write_observations(&self.observations, &bound.identity)?;
                let manifests = write_manifests(&self.manifests, &bound.identity)?;
                let references = write_references(&self.references, &bound.identity)?;
                let scopes = write_scopes(&self.scopes, &bound.identity)?;
                let members = write_members(&self.members, &bound.identity)?;
                let coverage = write_coverage(&self.coverage, &bound.identity)?;
                Ok(
                    JournalFile {
                        application: APPLICATION,
                        format: FORMAT,
                        configuration,
                        binding: Some(binding),
                        operations,
                        observations,
                        manifests,
                        references,
                        scopes,
                        members,
                        coverage,
                    },
                )
            },
            None => Ok(
                JournalFile {
                    application: APPLICATION,
                    format: FORMAT,
                    configuration,
                    binding: None,
                    operations: Vec::new(),
                    observations: Vec::new(),
                    manifests: Vec::new(),
                    references: Vec::new(),
                    scopes: Vec::new(),
                    members: Vec::new(),
                    coverage: Vec::new(),
                },
            ),
        }
    }
}

} // verus!
