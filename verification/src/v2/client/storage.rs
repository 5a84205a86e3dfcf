//! The images that a journal keeps, each with a checksum over its namespace.

use super::super::authority::store::Fault;
use super::super::commitments::{Mutation, SessionIdentity};
use super::super::correlation::{self, request_id};
use super::super::error::{Error, ErrorCode, MAX_CONTROL_LIMIT, MAX_HEADER};
use super::super::labels::OperationId;
use super::super::messages::{self, Control, Scope, Session, Work};
use super::super::numbers::{Id, Literal, Producer};
use super::super::records::{AdmitParameters, InputHeader, OperationReceipt, Outcome};
use super::super::wire::{self, decode, encode, same_octets, Wire, Writer};
use super::records::{Creation, JournalLimits};
use crate::cbor;
use crate::hashing::{self, hash_finish, hash_start, hash_update};
use crate::text::push_all;
use vstd::prelude::*;
use vstd::slice::slice_subrange;
use vstd::utf8::*;

verus! {

pub const IMAGE_LIMIT: usize = 4101;

pub const BLOB_LIMIT: usize = 4134;

/// Why a journal did not do what it was asked.
#[derive(Debug, Clone, Copy, PartialEq, Eq)]
pub enum JournalError {
    /// Refused with a code that the caller acts on.
    Protocol(Error),
    /// What is written down contradicts itself.
    Corrupt(&'static str),
}

impl JournalError {
    pub open spec fn fault(self) -> Fault {
        match self {
            JournalError::Protocol(e) => Fault::Refused(e.code),
            JournalError::Corrupt(_) => Fault::Corrupt,
        }
    }
}

pub fn refuse(code: ErrorCode, detail: &'static str) -> (r: JournalError)
    ensures
        r.fault() == Fault::Refused(code),
{
    JournalError::Protocol(Error::new(code, detail))
}

/// Immutable parameters loaded from a committed intent. Request/stream numbers
/// are deliberately not persisted: they belong to a particular connection.
#[derive(Debug, Clone, PartialEq, Eq)]
pub struct Intent {
    pub operation: OperationId,
    pub mutation: Mutation,
}

impl Intent {
    /// The intents hold the same parameters.
    pub open spec fn agrees(self, other: Intent) -> bool {
        self.operation.0@ == other.operation.0@ && self.mutation.agrees(other.mutation)
    }

    /// The request that asks for the mutation, where it is not an admission.
    pub open spec fn request(self, request: Id) -> Control {
        let operation = self.operation;
        match self.mutation {
            Mutation::Declare { scope, entity_ids, seal } => Control::Scope(
                Scope::Declare { request, operation, scope, entity_ids, seal },
            ),
            Mutation::ScopeCancel { scope } => Control::Scope(
                Scope::Cancel { request, operation, scope },
            ),
            Mutation::Retry { work, expected_attempt } => Control::Work(
                Work::Retry { request, operation, work, expected_attempt },
            ),
            Mutation::Cancel { work } => Control::Work(Work::Cancel { request, operation, work }),
            Mutation::Skip { work } => Control::Work(Work::Skip { request, operation, work }),
            Mutation::Admit(_) => arbitrary(),
        }
    }

    /// The header that opens the input stream of an admission.
    pub open spec fn header(self, generation: Id) -> InputHeader {
        InputHeader {
            kind: Literal,
            generation,
            operation: self.operation,
            parameters: self.mutation->Admit_0,
        }
    }

    pub fn duplicate(&self) -> (r: Self)
        ensures
            r.agrees(*self),
    {
        Intent { operation: self.operation, mutation: copy_mutation(&self.mutation) }
    }

    pub fn control(&self, request: Id) -> (r: Result<Control, Error>)
        ensures
            match r {
                Ok(c) => !(self.mutation is Admit) && self.request(request).sendable(IMAGE_LIMIT)
                    && c.agrees(self.request(request)),
                Err(e) => e.code == ErrorCode::FrameError && (self.mutation is Admit
                    || !self.request(request).sendable(IMAGE_LIMIT)),
            },
    {
        let operation = self.operation;
        let control = match &self.mutation {
            Mutation::Declare { scope, entity_ids, seal } => Control::Scope(
                Scope::Declare {
                    request,
                    operation,
                    scope: *scope,
                    entity_ids: entity_ids.duplicate(),
                    seal: *seal,
                },
            ),
            Mutation::ScopeCancel { scope } => Control::Scope(
                Scope::Cancel { request, operation, scope: *scope },
            ),
            Mutation::Retry { work, expected_attempt } => Control::Work(
                Work::Retry {
                    request,
                    operation,
                    work: *work,
                    expected_attempt: *expected_attempt,
                },
            ),
            Mutation::Cancel { work } => Control::Work(
                Work::Cancel { request, operation, work: *work },
            ),
            Mutation::Skip { work } => Control::Work(
                Work::Skip { request, operation, work: *work },
            ),
            Mutation::Admit(_) => {
                return Err(Error::frame("input intent requires an object stream"));
            },
        };
        proof {
            assert(control.agrees(self.request(request)));
            lemma_control_carries(control, self.request(request), IMAGE_LIMIT);
        }
        control.encode(IMAGE_LIMIT)?;
        Ok(control)
    }

    pub fn input(&self, generation: Id) -> (r: Result<InputHeader, Error>)
        ensures
            match r {
                Ok(h) => self.mutation is Admit && h.agrees(&self.header(generation))
                    && self.header(generation).valid() && self.header(generation).wire().len()
                    <= MAX_HEADER,
                Err(e) => e.code == ErrorCode::FrameError && !(self.mutation is Admit
                    && self.header(generation).valid() && self.header(generation).wire().len()
                    <= MAX_HEADER),
            },
    {
        match &self.mutation {
            Mutation::Admit(parameters) => {
                let header = InputHeader {
                    kind: Literal,
                    generation,
                    operation: self.operation,
                    parameters: parameters.duplicate(),
                };
                proof {
                    assert(header.agrees(&self.header(generation)));
                    InputHeader::agrees_carries(&header, &self.header(generation));
                }
                header.encode()?;
                Ok(header)
            },
            _ => Err(Error::frame("control intent is not input admission")),
        }
    }
}

pub fn copy_mutation(mutation: &Mutation) -> (r: Mutation)
    ensures
        r.agrees(*mutation),
{
    match mutation {
        Mutation::Admit(p) => Mutation::Admit(p.duplicate()),
        Mutation::Declare { scope, entity_ids, seal } => {
            let copy = entity_ids.duplicate();
            assert(copy@ =~= entity_ids@);
            Mutation::Declare { scope: *scope, entity_ids: copy, seal: *seal }
        },
        Mutation::Retry { work, expected_attempt } => Mutation::Retry {
            work: *work,
            expected_attempt: *expected_attempt,
        },
        Mutation::Cancel { work } => Mutation::Cancel { work: *work },
        Mutation::Skip { work } => Mutation::Skip { work: *work },
        Mutation::ScopeCancel { scope } => Mutation::ScopeCancel { scope: *scope },
    }
}

/// Messages with the same contents have the same frames and may be sent under the same limits.
pub proof fn lemma_control_carries(a: Control, b: Control, limit: usize)
    requires
        a.agrees(b),
        a is Scope || a is Work || a is Session || a is Drain || a is Result,
    ensures
        a.frame_wire() == b.frame_wire(),
        a.sendable(limit) == b.sendable(limit),
        a.type_code() == b.type_code(),
{
    match (a, b) {
        (Control::Session(x), Control::Session(y)) => Session::agrees_carries(&x, &y),
        (Control::Scope(x), Control::Scope(y)) => Scope::agrees_carries(&x, &y),
        (Control::Work(x), Control::Work(y)) => Work::agrees_carries(&x, &y),
        (Control::Result(x), Control::Result(y)) => messages::ResultMessage::agrees_carries(&x, &y),
        (Control::Drain(x), Control::Drain(y)) => messages::Drain::agrees_carries(&x, &y),
        _ => {},
    }
}

/// The checksum over a namespace and the octets kept in it.
pub open spec fn checksum(namespace: Seq<u8>, bytes: Seq<u8>) -> Seq<u8> {
    hashing::sha256(
        encode_utf8("pipestream-client-journal-v1"@) + cbor::be_bytes(namespace.len(), 8)
            + namespace + bytes,
    )
}

/// Octets with the checksum behind them.
pub open spec fn sealed(namespace: Seq<u8>, bytes: Seq<u8>) -> Seq<u8> {
    bytes + checksum(namespace, bytes)
}

/// The image is that of some octets in the namespace.
pub open spec fn is_sealed(namespace: Seq<u8>, image: Seq<u8>) -> bool {
    image.len() >= 33 && image == sealed(namespace, image.take(image.len() - 32))
}

pub fn push_be(out: &mut Vec<u8>, n: u64, width: usize)
    ensures
        final(out)@ == old(out)@ + cbor::be_bytes(n as nat, width as nat),
    decreases width,
{
    let ghost before = out@;
    if width > 0 {
        push_be(out, n / 256, width - 1);
        out.push((n % 256) as u8);
        assert(out@ =~= before + cbor::be_bytes(n as nat, width as nat));
    } else {
        assert(out@ =~= before + cbor::be_bytes(n as nat, 0));
    }
}

pub fn seal(namespace: &[u8], bytes: &[u8]) -> (image: Vec<u8>)
    ensures
        image@ == sealed(namespace@, bytes@),
        image@.len() == bytes@.len() + 32,
{
    let mut hasher = hash_start();
    hash_update(&mut hasher, "pipestream-client-journal-v1".as_bytes());
    let mut length: Vec<u8> = Vec::new();
    push_be(&mut length, namespace.len() as u64, 8);
    hash_update(&mut hasher, length.as_slice());
    hash_update(&mut hasher, namespace);
    hash_update(&mut hasher, bytes);
    proof {
        assert(length@ =~= cbor::be_bytes(namespace@.len(), 8));
        assert(hashing::absorbed(hasher) =~= encode_utf8("pipestream-client-journal-v1"@)
            + cbor::be_bytes(namespace@.len(), 8) + namespace@ + bytes@);
    }
    let digest = hash_finish(&hasher);
    let mut image: Vec<u8> = Vec::new();
    push_all(&mut image, bytes);
    push_all(&mut image, &digest);
    assert(image@ =~= sealed(namespace@, bytes@));
    image
}

/// The octets of an image whose checksum holds in the namespace.
pub fn unseal<'a>(namespace: &[u8], image: &'a [u8]) -> (r: Result<&'a [u8], JournalError>)
    ensures
        match r {
            Ok(b) => is_sealed(namespace@, image@) && b@ == image@.take(image@.len() - 32),
            Err(e) => !is_sealed(namespace@, image@) && e.fault() == Fault::Corrupt,
        },
{
    if image.len() < 33 {
        return Err(JournalError::Corrupt("journal image checksum changed"));
    }
    let bytes = slice_subrange(image, 0, image.len() - 32);
    assert(bytes@ =~= image@.take(image@.len() - 32));
    let again = seal(namespace, bytes);
    if !same_octets(again.as_slice(), image) {
        return Err(JournalError::Corrupt("journal image checksum changed"));
    }
    Ok(bytes)
}

/// Unsealing in the same namespace gives back what was sealed.
pub proof fn law_unseal_inverts_seal(namespace: Seq<u8>, bytes: Seq<u8>, image: Seq<u8>)
    requires
        image == sealed(namespace, bytes),
        image.len() == bytes.len() + 32,
        bytes.len() > 0,
    ensures
        is_sealed(namespace, image),
        image.take(image.len() - 32) == bytes,
{
    assert(image.take(image.len() - 32) =~= bytes);
}

/// How long an image of a table may be.
pub open spec fn image_bound(wide: bool) -> usize {
    if wide {
        (MAX_CONTROL_LIMIT + 5 + 32) as usize
    } else {
        BLOB_LIMIT
    }
}

/// The tables of observed work and of manifests hold wider images than the others.
pub open spec fn wide_table(table: Seq<char>) -> bool {
    table == "observations"@ || table == "manifests"@
}

pub fn blob_limit(table: &str) -> (r: usize)
    ensures
        r == image_bound(wide_table(table@)),
{
    if same_octets(table.as_bytes(), "observations".as_bytes()) || same_octets(
        table.as_bytes(),
        "manifests".as_bytes(),
    ) {
        proof {
            lemma_same_text(table@);
        }
        MAX_CONTROL_LIMIT + 5 + 32
    } else {
        BLOB_LIMIT
    }
}

proof fn lemma_same_text(table: Seq<char>)
    ensures
        encode_utf8(table) == encode_utf8("observations"@) ==> table == "observations"@,
        encode_utf8(table) == encode_utf8("manifests"@) ==> table == "manifests"@,
{
    encode_utf8_decode_utf8(table);
    encode_utf8_decode_utf8("observations"@);
    encode_utf8_decode_utf8("manifests"@);
}

/// Refuses an image that the table may not hold.
pub fn check_image(table: &str, length: usize) -> (r: Result<(), JournalError>)
    ensures
        match r {
            Ok(_) => 33 <= length <= image_bound(wide_table(table@)),
            Err(e) => !(33 <= length <= image_bound(wide_table(table@))) && e.fault()
                == Fault::Corrupt,
        },
{
    if length < 33 || length > blob_limit(table) {
        return Err(JournalError::Corrupt("journal image length invalid"));
    }
    Ok(())
}

/// The octets of the configuration: what the journal was opened with.
pub open spec fn configuration_wire(creation: Creation, limits: JournalLimits) -> Seq<u8> {
    cbor::head(4, 2) + (creation, limits).wire()
}

/// The image that binds a journal to its creation and its limits.
pub fn configuration(creation: &Creation, limits: &JournalLimits) -> (r: Result<
    Vec<u8>,
    JournalError,
>)
    ensures
        match r {
            Ok(b) => creation.valid() && limits.valid() && b@ == sealed(
                encode_utf8("configuration"@),
                configuration_wire(*creation, *limits),
            ),
            Err(e) => !(creation.valid() && limits.valid()) && e.fault() == Fault::Refused(
                ErrorCode::FrameError,
            ),
        },
{
    match creation.check() {
        Ok(_) => {},
        Err(e) => {
            return Err(JournalError::Protocol(e));
        },
    }
    match limits.check() {
        Ok(_) => {},
        Err(e) => {
            return Err(JournalError::Protocol(e));
        },
    }
    let mut w = Writer::new();
    w.array(2);
    creation.write(&mut w);
    limits.write(&mut w);
    let bytes = w.finish();
    assert(bytes@ =~= configuration_wire(*creation, *limits));
    Ok(seal("configuration".as_bytes(), bytes.as_slice()))
}

/// A binding without the request number of the connection that it came over.
pub open spec fn normalized(control: Control) -> Control {
    match control {
        Control::Session(
            Session::Binding {
                request,
                authority,
                owner,
                generation,
                creation_sequence,
                policy,
                limits,
            },
        ) => Control::Session(
            Session::Binding {
                request: Id(1),
                authority,
                owner,
                generation,
                creation_sequence,
                policy,
                limits,
            },
        ),
        _ => control,
    }
}

pub open spec fn is_binding(control: Control) -> bool {
    control matches Control::Session(s) && s is Binding
}

pub fn binding(control: &Control) -> (r: Result<Control, JournalError>)
    ensures
        match r {
            Ok(c) => control.sendable(IMAGE_LIMIT) && is_binding(*control) && c.agrees(
                normalized(*control),
            ) && is_binding(c),
            Err(e) => !(control.sendable(IMAGE_LIMIT) && is_binding(*control)) && e.fault()
                == Fault::Refused(
                if !control.sendable(IMAGE_LIMIT) {
                    control.encode_refusal(IMAGE_LIMIT)
                } else {
                    ErrorCode::FrameError
                },
            ),
        },
{
    match control.encode(IMAGE_LIMIT) {
        Ok(_) => {},
        Err(e) => {
            return Err(JournalError::Protocol(e));
        },
    }
    match control {
        Control::Session(
            Session::Binding {
                request,
                authority,
                owner,
                generation,
                creation_sequence,
                policy,
                limits,
            },
        ) => Ok(
            Control::Session(
                Session::Binding {
                    request: Id(1),
                    authority: authority.duplicate(),
                    owner: owner.duplicate(),
                    generation: *generation,
                    creation_sequence: *creation_sequence,
                    policy: *policy,
                    limits: *limits,
                },
            ),
        ),
        _ => Err(refuse(ErrorCode::FrameError, "expected session binding")),
    }
}

/// What an intent's image holds before its commitment.
pub open spec fn intent_body(intent: Intent, generation: Id) -> Seq<u8> {
    if intent.mutation is Admit {
        seq![0u8] + intent.header(generation).wire()
    } else {
        seq![1u8] + intent.request(Id(1)).frame_wire()
    }
}

/// The octets of an intent, with the commitment that binds them to the session.
pub open spec fn intent_octets(intent: Intent, identity: SessionIdentity) -> Seq<u8> {
    intent_body(intent, identity.generation) + intent.mutation.operation_digest(
        identity,
        Producer(0),
        intent.operation,
    )
}

/// Why an intent cannot be written down, if it cannot.
pub open spec fn intent_fault(intent: Intent, identity: SessionIdentity) -> Option<Fault> {
    let header = intent.header(identity.generation);
    if !intent.mutation.committable(identity, Producer(0), intent.operation) {
        Some(Fault::Refused(ErrorCode::FrameError))
    } else if intent.mutation is Admit && !(header.valid() && header.wire().len() <= MAX_HEADER) {
        Some(Fault::Refused(ErrorCode::FrameError))
    } else if !(intent.mutation is Admit) && !(intent.request(Id(1)).sendable(IMAGE_LIMIT)
        && intent.request(Id(1)).sendable(MAX_HEADER)) {
        Some(Fault::Refused(ErrorCode::FrameError))
    } else if intent_body(intent, identity.generation).len() + 32 > IMAGE_LIMIT {
        Some(Fault::Refused(ErrorCode::LimitExceeded))
    } else {
        None
    }
}

/// The image of an intent.
pub open spec fn images(intent: Intent, identity: SessionIdentity, image: Seq<u8>) -> bool {
    &&& intent_fault(intent, identity) is None
    &&& image == sealed(intent.operation.0@, intent_octets(intent, identity))
    &&& intent_octets(intent, identity).len() == intent_body(intent, identity.generation).len() + 32
    &&& image.len() == intent_octets(intent, identity).len() + 32
}

pub fn intent_image(intent: &Intent, identity: &SessionIdentity) -> (r: Result<
    Vec<u8>,
    JournalError,
>)
    ensures
        match r {
            Ok(b) => images(*intent, *identity, b@),
            Err(e) => intent_fault(*intent, *identity) == Some(e.fault()),
        },
{
    let digest = match intent.mutation.digest(identity, Producer(0), intent.operation) {
        Ok(digest) => digest,
        Err(e) => {
            return Err(JournalError::Protocol(e));
        },
    };
    let mut bytes: Vec<u8> = Vec::new();
    match &intent.mutation {
        Mutation::Admit(_) => {
            let header = match intent.input(identity.generation) {
                Ok(header) => header,
                Err(e) => {
                    return Err(JournalError::Protocol(e));
                },
            };
            proof {
                InputHeader::agrees_carries(&header, &intent.header(identity.generation));
            }
            let encoded = match header.encode() {
                Ok(encoded) => encoded,
                Err(e) => {
                    return Err(JournalError::Protocol(e));
                },
            };
            bytes.push(0);
            push_all(&mut bytes, encoded.as_slice());
        },
        _ => {
            let control = match intent.control(Id(1)) {
                Ok(control) => control,
                Err(e) => {
                    return Err(JournalError::Protocol(e));
                },
            };
            proof {
                lemma_control_carries(control, intent.request(Id(1)), MAX_HEADER);
            }
            let encoded = match control.encode(MAX_HEADER) {
                Ok(encoded) => encoded,
                Err(e) => {
                    return Err(JournalError::Protocol(e));
                },
            };
            bytes.push(1);
            push_all(&mut bytes, encoded.as_slice());
        },
    }
    assert(bytes@ =~= intent_body(*intent, identity.generation));
    // Identity-bound checksum catches accidentally transplanted intent records.
    push_all(&mut bytes, &digest.0);
    assert(bytes@ =~= intent_octets(*intent, *identity));
    if bytes.len() > IMAGE_LIMIT {
        return Err(refuse(ErrorCode::LimitExceeded, "client intent exceeds record bound"));
    }
    Ok(seal(&intent.operation.0, bytes.as_slice()))
}

/// Parameters that hold the same contents commit to the same operation.
pub proof fn lemma_mutation_carries(a: Mutation, b: Mutation)
    requires
        a.agrees(b),
    ensures
        a.codes() == b.codes(),
        a.parameters_wire() == b.parameters_wire(),
        a.valid() == b.valid(),
{
    match (a, b) {
        (Mutation::Admit(x), Mutation::Admit(y)) => AdmitParameters::agrees_carries(&x, &y),
        (
            Mutation::Declare { scope: s, entity_ids: i, seal: f },
            Mutation::Declare { scope: t, entity_ids: j, seal: g },
        ) => {
            i.agrees_reflexive();
            assert(i.agrees(&j));
            Vec::<Id>::agrees_carries(&i, &j);
        },
        _ => {},
    }
}

/// Intents with the same contents have the same image.
pub proof fn lemma_intent_carries(a: Intent, b: Intent, identity: SessionIdentity)
    requires
        a.agrees(b),
    ensures
        intent_fault(a, identity) == intent_fault(b, identity),
        intent_octets(a, identity) == intent_octets(b, identity),
        intent_body(a, identity.generation) == intent_body(b, identity.generation),
{
    lemma_mutation_carries(a.mutation, b.mutation);
    assert(a.operation.0 =~= b.operation.0);
    if a.mutation is Admit {
        let x = a.header(identity.generation);
        let y = b.header(identity.generation);
        AdmitParameters::agrees_carries(&a.mutation->Admit_0, &b.mutation->Admit_0);
        assert(x.agrees(&y));
        InputHeader::agrees_carries(&x, &y);
    } else {
        match (a.mutation, b.mutation) {
            (
                Mutation::Declare { scope: s, entity_ids: i, seal: f },
                Mutation::Declare { scope: t, entity_ids: j, seal: g },
            ) => {
                i.agrees_reflexive();
                assert(i.agrees(&j));
            },
            _ => {},
        }
        assert(a.request(Id(1)).agrees(b.request(Id(1))));
        lemma_control_carries(a.request(Id(1)), b.request(Id(1)), IMAGE_LIMIT);
        lemma_control_carries(a.request(Id(1)), b.request(Id(1)), MAX_HEADER);
    }
}

/// What a request asks for, where it is a mutation.
fn mutation_of(control: Control) -> (r: Option<Intent>)
    ensures
        match r {
            Some(i) => !(i.mutation is Admit) && correlation::request_number(control) is Some
                && control == i.request(correlation::request_number(control)->0),
            None => forall|i: Intent, request: Id|
                !(i.mutation is Admit) ==> control != #[trigger] i.request(request),
        },
{
    match control {
        Control::Scope(Scope::Declare { request, operation, scope, entity_ids, seal }) => Some(
            Intent { operation, mutation: Mutation::Declare { scope, entity_ids, seal } },
        ),
        Control::Scope(Scope::Cancel { request, operation, scope }) => Some(
            Intent { operation, mutation: Mutation::ScopeCancel { scope } },
        ),
        Control::Work(Work::Retry { request, operation, work, expected_attempt }) => Some(
            Intent { operation, mutation: Mutation::Retry { work, expected_attempt } },
        ),
        Control::Work(Work::Cancel { request, operation, work }) => Some(
            Intent { operation, mutation: Mutation::Cancel { work } },
        ),
        Control::Work(Work::Skip { request, operation, work }) => Some(
            Intent { operation, mutation: Mutation::Skip { work } },
        ),
        _ => None,
    }
}

/// Requests with the same contents ask for the same.
proof fn lemma_request_determines(a: Intent, request: Id, c: Control)
    requires
        c.agrees(a.request(request)),
        !(a.mutation is Admit),
    ensures
        correlation::request_number(c) == Some(request),
        exists|b: Intent|
            !(b.mutation is Admit) && b.agrees(a) && c == #[trigger] b.request(request),
{
    match (a.mutation, c) {
        (
            Mutation::Declare { scope: s, entity_ids: i, seal: f },
            Control::Scope(Scope::Declare { request: q, operation, scope, entity_ids, seal }),
        ) => {
            assert(entity_ids@ =~= i@) by {
                assert(entity_ids.agrees(&i));
            }
            let b = Intent { operation, mutation: Mutation::Declare { scope, entity_ids, seal } };
            assert(b.agrees(a) && c == b.request(request));
        },
        (
            Mutation::ScopeCancel { scope: s },
            Control::Scope(Scope::Cancel { request: q, operation, scope }),
        ) => {
            let b = Intent { operation, mutation: Mutation::ScopeCancel { scope } };
            assert(b.agrees(a) && c == b.request(request));
        },
        (
            Mutation::Retry { work: w, expected_attempt: n },
            Control::Work(Work::Retry { request: q, operation, work, expected_attempt }),
        ) => {
            let b = Intent { operation, mutation: Mutation::Retry { work, expected_attempt } };
            assert(b.agrees(a) && c == b.request(request));
        },
        (
            Mutation::Cancel { work: w },
            Control::Work(Work::Cancel { request: q, operation, work }),
        ) => {
            let b = Intent { operation, mutation: Mutation::Cancel { work } };
            assert(b.agrees(a) && c == b.request(request));
        },
        (Mutation::Skip { work: w }, Control::Work(Work::Skip { request: q, operation, work })) => {
            let b = Intent { operation, mutation: Mutation::Skip { work } };
            assert(b.agrees(a) && c == b.request(request));
        },
        _ => {},
    }
}

/// The image is that of some intent of the operation.
pub open spec fn imaged(operation: OperationId, identity: SessionIdentity, image: Seq<u8>) -> bool {
    exists|i: Intent|
        i.operation.0@ == operation.0@ && #[trigger] images(i, identity, image)
}

/// The octets are the frame of an intent's request.
pub open spec fn frames(i: Intent, body: Seq<u8>) -> bool {
    &&& !(i.mutation is Admit)
    &&& i.request(Id(1)).sendable(MAX_HEADER)
    &&& i.request(Id(1)).frame_wire() == body
}

/// Intents with one frame hold the same parameters.
proof fn lemma_frame_determines(a: Intent, b: Intent, body: Seq<u8>)
    requires
        frames(a, body),
        frames(b, body),
    ensures
        a.agrees(b),
{
    messages::law_frame_roundtrip(a.request(Id(1)), b.request(Id(1)), MAX_HEADER);
    lemma_request_determines(b, Id(1), a.request(Id(1)));
    let c = choose|c: Intent|
        !(c.mutation is Admit) && c.agrees(b) && a.request(Id(1)) == #[trigger] c.request(Id(1));
    assert(c == a);
}

/// The octets are the frame of a control message.
pub open spec fn framed(control: Control, body: Seq<u8>) -> bool {
    control.sendable(MAX_HEADER) && control.frame_wire() == body
}

/// The octets encode an input header.
pub open spec fn headed(header: InputHeader, body: Seq<u8>) -> bool {
    header.valid() && header.wire().len() <= MAX_HEADER && header.wire() == body
}

/// What is wrong with the octets of an intent that reads as `i`, where they are no octets of it.
pub open spec fn reading_fault(
    i: Intent,
    operation: OperationId,
    identity: SessionIdentity,
) -> Fault {
    match intent_fault(i, identity) {
        Some(f) if i.operation.0@ == operation.0@ => f,
        _ => Fault::Corrupt,
    }
}

/// What is wrong with the sealed octets of an intent that cannot be read back: a request that is
/// no frame, or a header that is no encoding, is refused as that; all else is damage.
pub open spec fn octets_fault(
    bytes: Seq<u8>,
    operation: OperationId,
    identity: SessionIdentity,
    fault: Fault,
) -> bool {
    let body = bytes.subrange(1, bytes.len() - 32);
    if bytes.len() > 33 && bytes[0] == 0 {
        &&& (forall|h: InputHeader| !#[trigger] headed(h, body)) ==> fault == Fault::Refused(
            ErrorCode::FrameError,
        )
        &&& forall|h: InputHeader| #[trigger]
            headed(h, body) ==> fault == if h.generation == identity.generation {
                reading_fault(
                    Intent { operation: h.operation, mutation: Mutation::Admit(h.parameters) },
                    operation,
                    identity,
                )
            } else {
                Fault::Corrupt
            }
    } else if bytes.len() > 33 && bytes[0] == 1 {
        &&& (forall|c: Control| !#[trigger] framed(c, body)) ==> fault == Fault::Refused(
            messages::frame_refusal(body, MAX_HEADER),
        )
        &&& (exists|c: Control| #[trigger] framed(c, body)) && (forall|i: Intent|
            !#[trigger] frames(i, body)) ==> fault == Fault::Corrupt
        &&& forall|i: Intent| #[trigger]
            frames(i, body) ==> fault == reading_fault(i, operation, identity)
    } else {
        fault == Fault::Corrupt
    }
}

/// What is wrong with octets has one name.
pub proof fn lemma_octets_fault_unique(
    bytes: Seq<u8>,
    operation: OperationId,
    identity: SessionIdentity,
    a: Fault,
    b: Fault,
)
    requires
        octets_fault(bytes, operation, identity, a),
        octets_fault(bytes, operation, identity, b),
    ensures
        a == b,
{
    let body = bytes.subrange(1, bytes.len() - 32);
    if exists|h: InputHeader| #[trigger] headed(h, body) {
        let h = choose|h: InputHeader| #[trigger] headed(h, body);
        assert(headed(h, body));
    }
    if exists|i: Intent| #[trigger] frames(i, body) {
        let i = choose|i: Intent| #[trigger] frames(i, body);
        assert(frames(i, body));
    }
}

/// What is wrong with an image that is that of no intent of the operation.
pub open spec fn unread_intent(
    operation: OperationId,
    identity: SessionIdentity,
    image: Seq<u8>,
) -> Fault {
    if is_sealed(operation.0@, image) {
        choose|fault: Fault|
            #[trigger] octets_fault(image.take(image.len() - 32), operation, identity, fault)
    } else {
        Fault::Corrupt
    }
}

/// Reads the request of an intent back.
fn decode_request(body: &[u8]) -> (r: Result<Intent, JournalError>)
    ensures
        match r {
            Ok(i) => frames(i, body@),
            Err(e) => {
                &&& forall|i: Intent| !#[trigger] frames(i, body@)
                &&& if exists|c: Control| #[trigger] framed(c, body@) {
                    e.fault() == Fault::Corrupt
                } else {
                    e.fault() == Fault::Refused(messages::frame_refusal(body@, MAX_HEADER))
                }
            },
        },
{
    let ghost found = exists|i: Intent| #[trigger] frames(i, body@);
    let ghost w = choose|i: Intent| #[trigger] frames(i, body@);
    let control = match Control::decode(body, MAX_HEADER) {
        Ok(control) => control,
        Err(e) => {
            assert(found ==> w.request(Id(1)).frame_wire() == body@);
            return Err(JournalError::Protocol(e));
        },
    };
    let ghost read = control;
    assert(framed(read, body@));
    proof {
        if found {
            messages::law_frame_roundtrip(read, w.request(Id(1)), MAX_HEADER);
            lemma_request_determines(w, Id(1), read);
        }
    }
    let canonical = match request_id(&control) {
        Some(id) => id.0 == 1,
        None => false,
    };
    if !canonical {
        return Err(JournalError::Corrupt("noncanonical intent request number"));
    }
    match mutation_of(control) {
        Some(intent) => {
            assert(read == intent.request(Id(1)));
            Ok(intent)
        },
        None => Err(JournalError::Corrupt("stored request is not a mutation")),
    }
}

/// Headers with one encoding read as the same intent.
proof fn lemma_headers_read_alike(
    header: InputHeader,
    body: Seq<u8>,
    operation: OperationId,
    identity: SessionIdentity,
)
    requires
        headed(header, body),
    ensures
        forall|h: InputHeader| #[trigger]
            headed(h, body) ==> h.generation == header.generation && reading_fault(
                Intent { operation: h.operation, mutation: Mutation::Admit(h.parameters) },
                operation,
                identity,
            ) == reading_fault(
                Intent { operation: header.operation, mutation: Mutation::Admit(header.parameters) },
                operation,
                identity,
            ),
{
    assert forall|h: InputHeader| #[trigger] headed(h, body) implies h.generation
        == header.generation && reading_fault(
        Intent { operation: h.operation, mutation: Mutation::Admit(h.parameters) },
        operation,
        identity,
    ) == reading_fault(
        Intent { operation: header.operation, mutation: Mutation::Admit(header.parameters) },
        operation,
        identity,
    ) by {
        wire::law_encoding_is_bijective(h, header);
        lemma_intent_carries(
            Intent { operation: h.operation, mutation: Mutation::Admit(h.parameters) },
            Intent { operation: header.operation, mutation: Mutation::Admit(header.parameters) },
            identity,
        );
    }
}

/// Reads an intent back: accepts exactly the images of intents of this operation and session.
pub fn decode_intent(image: &[u8], operation: OperationId, identity: &SessionIdentity) -> (r: Result<
    Intent,
    JournalError,
>)
    ensures
        match r {
            Ok(i) => i.operation == operation && images(i, *identity, image@),
            Err(e) => {
                &&& !imaged(operation, *identity, image@)
                &&& if is_sealed(operation.0@, image@) {
                    octets_fault(image@.take(image@.len() - 32), operation, *identity, e.fault())
                } else {
                    e.fault() == Fault::Corrupt
                }
            },
        },
{
    let ghost found = imaged(operation, *identity, image@);
    let ghost w = choose|i: Intent|
        i.operation.0@ == operation.0@ && #[trigger] images(i, *identity, image@);
    let ghost whole = intent_body(w, identity.generation);
    proof {
        if found {
            lemma_unseal_of_image(w, *identity, image@);
            lemma_body_head(w, identity.generation);
        }
    }
    let bytes = unseal(&operation.0, image)?;
    if bytes.len() <= 33 {
        return Err(JournalError::Corrupt("truncated client intent"));
    }
    let body = slice_subrange(bytes, 1, bytes.len() - 32);
    proof {
        if found {
            assert(bytes@.take(bytes@.len() - 32) =~= whole);
            assert(bytes@[0] == whole[0]);
            assert(body@ =~= whole.skip(1));
        }
    }
    let intent = if bytes[0] == 0 {
        let header = match InputHeader::decode(body) {
            Ok(header) => header,
            Err(e) => {
                return Err(JournalError::Protocol(e));
            },
        };
        proof {
            if found {
                wire::law_encoding_is_bijective(header, w.header(identity.generation));
            }
        }
        assert(headed(header, body@));
        proof {
            lemma_headers_read_alike(header, body@, operation, *identity);
        }
        if header.generation != identity.generation {
            return Err(JournalError::Corrupt("input journal generation changed"));
        }
        Intent { operation: header.operation, mutation: Mutation::Admit(header.parameters) }
    } else if bytes[0] == 1 {
        let intent = match decode_request(body) {
            Ok(intent) => intent,
            Err(e) => {
                assert(found ==> frames(w, body@));
                return Err(e);
            },
        };
        proof {
            if found {
                lemma_frame_determines(intent, w, body@);
            }
            assert forall|i: Intent| #[trigger] frames(i, body@) implies reading_fault(
                i,
                operation,
                *identity,
            ) == reading_fault(intent, operation, *identity) by {
                lemma_frame_determines(i, intent, body@);
                lemma_intent_carries(i, intent, *identity);
            }
            assert(framed(intent.request(Id(1)), body@));
        }
        intent
    } else {
        return Err(JournalError::Corrupt("unknown intent encoding"));
    };
    proof {
        if found {
            assert(intent.agrees(w));
            lemma_intent_carries(intent, w, *identity);
            assert(intent.operation.0 =~= w.operation.0);
            assert(images(intent, *identity, image@));
        }
    }
    if !intent.operation.same(&operation) {
        return Err(JournalError::Corrupt("intent identity or commitment changed"));
    }
    let again = intent_image(&intent, identity)?;
    if !same_octets(again.as_slice(), image) {
        return Err(JournalError::Corrupt("intent identity or commitment changed"));
    }
    assert(intent.operation.0 =~= operation.0);
    Ok(intent)
}

/// Reading an intent's image gives back the intent that was written.
pub proof fn law_intent_image_determines_intent(
    a: Intent,
    b: Intent,
    first: SessionIdentity,
    second: SessionIdentity,
    image: Seq<u8>,
)
    requires
        images(a, first, image),
        images(b, second, image),
        a.operation.0@ == b.operation.0@,
    ensures
        a.agrees(b),
{
    lemma_unseal_of_image(a, first, image);
    lemma_unseal_of_image(b, second, image);
    lemma_body_head(a, first.generation);
    lemma_body_head(b, second.generation);
    let x = intent_body(a, first.generation);
    let y = intent_body(b, second.generation);
    let octets = image.take(image.len() - 32);
    assert(x =~= octets.take(octets.len() - 32));
    assert(y =~= octets.take(octets.len() - 32));
    if a.mutation is Admit {
        wire::law_encoding_is_bijective(a.header(first.generation), b.header(second.generation));
    } else {
        lemma_frame_determines(a, b, x.skip(1));
    }
}

/// An image holds its intent's octets under a checksum that holds.
proof fn lemma_unseal_of_image(i: Intent, identity: SessionIdentity, image: Seq<u8>)
    requires
        images(i, identity, image),
    ensures
        is_sealed(i.operation.0@, image),
        image.take(image.len() - 32) == intent_octets(i, identity),
        intent_octets(i, identity).len() == intent_body(i, identity.generation).len() + 32,
        intent_body(i, identity.generation).len() > 1,
{
    let octets = intent_octets(i, identity);
    let body = intent_body(i, identity.generation);
    if i.mutation is Admit {
        i.header(identity.generation).valid_shaped();
        cbor::lemma_head(4, 4);
    }
    assert(body.len() > 1);
    assert(image.take(image.len() - 32) =~= octets);
}

/// The first octet says what follows.
proof fn lemma_body_head(i: Intent, generation: Id)
    ensures
        i.mutation is Admit ==> intent_body(i, generation)[0] == 0 && intent_body(
            i,
            generation,
        ).skip(1) == i.header(generation).wire(),
        !(i.mutation is Admit) ==> intent_body(i, generation)[0] == 1 && intent_body(
            i,
            generation,
        ).skip(1) == i.request(Id(1)).frame_wire(),
{
    if i.mutation is Admit {
        assert(intent_body(i, generation).skip(1) =~= i.header(generation).wire());
    } else {
        assert(intent_body(i, generation).skip(1) =~= i.request(Id(1)).frame_wire());
    }
}

/// What an intent asked for and what the receipt says was done fit together.
pub open spec fn receipt_fits(mutation: Mutation, body: Outcome) -> bool {
    match (mutation, body) {
        (Mutation::Admit(p), Outcome::Admitted { work, admitted_at, deadline, child, .. }) => {
            &&& p.work == work
            &&& deadline.0 - admitted_at.0 == p.execution_ms.0
            &&& p.mode.0 == 0 ==> child is None
            &&& p.mode.0 != 0 ==> p.mode.0 <= 2 && child is Some && (child->0).producer.0
                == p.mode.0 - 1
        },
        (
            Mutation::Declare { scope, entity_ids, seal },
            Outcome::Declared { scope: actual, producer, accepted_count, seal: digest, .. },
        ) => {
            &&& scope == actual
            &&& producer.0 == 0
            &&& accepted_count.0 == entity_ids@.len()
            &&& seal == (digest is Some)
        },
        (
            Mutation::Retry { work, expected_attempt },
            Outcome::Retried { work: actual, expected_attempt: attempt, .. },
        ) => work == actual && expected_attempt == attempt,
        (Mutation::Cancel { work }, Outcome::Cancelled { work: actual, .. }) => work == actual,
        (Mutation::Skip { work }, Outcome::Skipped { work: actual, .. }) => work == actual,
        (Mutation::ScopeCancel { scope }, Outcome::ScopeCancelled { scope: actual, .. }) => scope
            == actual,
        _ => false,
    }
}

/// Why a receipt does not answer an intent, if it does not.
pub open spec fn receipt_fault(
    intent: Intent,
    identity: SessionIdentity,
    receipt: OperationReceipt,
) -> Option<Fault> {
    if !receipt.valid() {
        Some(Fault::Refused(ErrorCode::FrameError))
    } else if receipt.operation.0@ != intent.operation.0@ {
        Some(Fault::Refused(ErrorCode::IntegrityError))
    } else if !intent.mutation.committable(identity, Producer(0), intent.operation) {
        Some(Fault::Refused(ErrorCode::FrameError))
    } else if receipt.request_digest.0@ != intent.mutation.operation_digest(
        identity,
        Producer(0),
        intent.operation,
    ) {
        Some(Fault::Refused(ErrorCode::IntegrityError))
    } else if !receipt_fits(intent.mutation, receipt.body) {
        Some(Fault::Refused(ErrorCode::IntegrityError))
    } else {
        None
    }
}

pub fn validate_receipt(
    intent: &Intent,
    identity: &SessionIdentity,
    receipt: &OperationReceipt,
) -> (r: Result<(), JournalError>)
    ensures
        match r {
            Ok(_) => receipt_fault(*intent, *identity, *receipt) is None,
            Err(e) => receipt_fault(*intent, *identity, *receipt) == Some(e.fault()),
        },
{
    match receipt.check() {
        Ok(_) => {},
        Err(e) => {
            return Err(JournalError::Protocol(e));
        },
    }
    if !receipt.operation.same(&intent.operation) {
        return Err(
            refuse(ErrorCode::IntegrityError, "receipt operation commitment mismatch"),
        );
    }
    let digest = match intent.mutation.digest(identity, Producer(0), intent.operation) {
        Ok(digest) => digest,
        Err(e) => {
            return Err(JournalError::Protocol(e));
        },
    };
    if !receipt.request_digest.same(&digest) {
        return Err(
            refuse(ErrorCode::IntegrityError, "receipt operation commitment mismatch"),
        );
    }
    let valid = match (&intent.mutation, &receipt.body) {
        (Mutation::Admit(p), Outcome::Admitted { work, admitted_at, deadline, child, .. }) => {
            p.work == *work && deadline.0 >= admitted_at.0 && deadline.0 - admitted_at.0
                == p.execution_ms.0 && (if p.mode.0 == 0 {
                child.is_none()
            } else {
                p.mode.0 <= 2 && match child {
                    Some(c) => c.producer.0 == p.mode.0 - 1,
                    None => false,
                }
            })
        },
        (
            Mutation::Declare { scope, entity_ids, seal },
            Outcome::Declared { scope: actual, producer, accepted_count, seal: digest, .. },
        ) => *scope == *actual && producer.0 == 0 && accepted_count.0 == entity_ids.len() as u64
            && *seal == digest.is_some(),
        (
            Mutation::Retry { work, expected_attempt },
            Outcome::Retried { work: actual, expected_attempt: attempt, .. },
        ) => *work == *actual && *expected_attempt == *attempt,
        (Mutation::Cancel { work }, Outcome::Cancelled { work: actual, .. }) => *work == *actual,
        (Mutation::Skip { work }, Outcome::Skipped { work: actual, .. }) => *work == *actual,
        (Mutation::ScopeCancel { scope }, Outcome::ScopeCancelled { scope: actual, .. }) => *scope
            == *actual,
        _ => false,
    };
    if !valid {
        return Err(
            refuse(
                ErrorCode::IntegrityError,
                "receipt outcome disagrees with immutable intent",
            ),
        );
    }
    Ok(())
}

/// The image of a receipt.
pub fn receipt_image(receipt: &OperationReceipt) -> (r: Result<Vec<u8>, JournalError>)
    ensures
        match r {
            Ok(b) => receipt.valid() && receipt.wire().len() <= MAX_HEADER && b@ == sealed(
                receipt.operation.0@,
                receipt.wire(),
            ) && b@.len() == receipt.wire().len() + 32,
            Err(e) => !(receipt.valid() && receipt.wire().len() <= MAX_HEADER) && e.fault()
                == Fault::Refused(ErrorCode::FrameError),
        },
{
    match encode(receipt, MAX_HEADER) {
        Ok(bytes) => Ok(seal(&receipt.operation.0, bytes.as_slice())),
        Err(e) => Err(JournalError::Protocol(e)),
    }
}

/// Reads any record back from its image in a namespace.
pub fn decode_image<T: Wire>(namespace: &[u8], image: &[u8], limit: usize) -> (r: Result<
    T,
    JournalError,
>)
    requires
        limit > 0,
    ensures
        match r {
            Ok(v) => is_sealed(namespace@, image@) && v.valid() && v.wire() == image@.take(
                image@.len() - 32,
            ) && v.wire().len() <= limit,
            Err(e) => {
                &&& !is_sealed(namespace@, image@) ==> e.fault() == Fault::Corrupt
                &&& is_sealed(namespace@, image@) ==> e.fault() == Fault::Refused(
                    if image@.len() - 32 <= limit {
                        wire::decode_refusal::<T>(image@.take(image@.len() - 32))
                    } else {
                        ErrorCode::FrameError
                    },
                )
                &&& is_sealed(namespace@, image@) ==> forall|v: T|
                    v.valid() && #[trigger] v.wire() == image@.take(image@.len() - 32) ==> image@.len()
                        - 32 > limit
            },
        },
{
    let bytes = unseal(namespace, image)?;
    match decode(bytes, limit) {
        Ok(v) => Ok(v),
        Err(e) => Err(JournalError::Protocol(e)),
    }
}

} // verus!
