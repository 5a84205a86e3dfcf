//! Domain-separated commitments over typed, deterministic protocol records.

use super::error::{require, Error, ErrorCode, MAX_CONTROL_LIMIT, MAX_HEADER, MAX_NUMBER};
use super::labels::{Digest, IdentityLabel, OperationId};
use super::messages::{self, is_increasing};
use super::numbers::{Id, Number, Producer, State};
use super::records::{self, scope_identity, AdmitParameters, Manifest, WorkKey};
use super::wire::{self, encode, read_array_head, Solid, Wire, Writer};
use crate::cbor;
use crate::hashing::{self, hash_finish, hash_start, hash_update, Hasher};
use vstd::prelude::*;
use vstd::utf8::*;

verus! {

/// The digest of `bytes` under a domain name.
pub open spec fn domain_digest(domain: Seq<char>, bytes: Seq<u8>) -> Seq<u8> {
    hashing::sha256(encode_utf8(domain) + bytes)
}

fn hash(domain: &str, bytes: &[u8]) -> (r: Digest)
    ensures
        r.0@ == domain_digest(domain@, bytes@),
{
    let mut hasher = hash_start();
    hash_update(&mut hasher, domain.as_bytes());
    hash_update(&mut hasher, bytes);
    assert(hashing::absorbed(hasher) =~= encode_utf8(domain@) + bytes@);
    Digest(hash_finish(&hasher))
}

/// Stable issuing identity, not a credential or a discovered URI authority.
#[derive(Debug, Clone, PartialEq, Eq)]
pub struct SessionIdentity {
    pub authority: IdentityLabel,
    pub owner: IdentityLabel,
    pub generation: Id,
}

impl SessionIdentity {
    pub open spec fn fields(self) -> (IdentityLabel, (IdentityLabel, Id)) {
        (self.authority, (self.owner, self.generation))
    }

    pub open spec fn valid(self) -> bool {
        self.fields().valid()
    }

    pub open spec fn agrees(self, other: SessionIdentity) -> bool {
        self.fields().agrees(&other.fields())
    }

    /// Checks the three parts and writes them.
    pub fn write(&self, w: &mut Writer) -> (r: Result<(), Error>)
        ensures
            match r {
                Ok(_) => self.valid() && final(w)@ == old(w)@ + self.fields().wire(),
                Err(e) => !self.valid() && e.code == ErrorCode::FrameError,
            },
    {
        self.authority.check()?;
        self.owner.check()?;
        self.generation.check()?;
        self.authority.write(w);
        self.owner.write(w);
        self.generation.write(w);
        proof {
            broadcast use wire::lemma_concat_assoc;

            assert(w@ == old(w)@ + self.fields().wire());
        }
        Ok(())
    }

    pub fn same(&self, other: &Self) -> (r: bool)
        ensures
            r == self.agrees(*other),
    {
        self.authority.same(&other.authority) && self.owner.same(&other.owner)
            && self.generation.same(&other.generation)
    }

    pub fn duplicate(&self) -> (r: Self)
        ensures
            r.agrees(*self),
            self.agrees(r),
    {
        SessionIdentity {
            authority: self.authority.duplicate(),
            owner: self.owner.duplicate(),
            generation: self.generation,
        }
    }
}

#[derive(Debug, Clone, PartialEq, Eq)]
pub enum Mutation {
    Admit(AdmitParameters),
    Declare { scope: Number, entity_ids: Vec<Id>, seal: bool },
    Retry { work: WorkKey, expected_attempt: Id },
    Cancel { work: WorkKey },
    Skip { work: WorkKey },
    ScopeCancel { scope: Number },
}

impl Mutation {
    /// The frame type and the opcode of the request that asks for the mutation.
    pub open spec fn codes(self) -> (nat, nat) {
        match self {
            Mutation::Admit(_) => (4, 0),
            Mutation::Declare { .. } => (3, 0),
            Mutation::Retry { .. } => (4, 6),
            Mutation::Cancel { .. } => (4, 8),
            Mutation::Skip { .. } => (4, 10),
            Mutation::ScopeCancel { .. } => (3, 6),
        }
    }

    /// The encoding of the parameters.
    pub open spec fn parameters_wire(self) -> Seq<u8> {
        match self {
            Mutation::Admit(parameters) => parameters.wire(),
            Mutation::Declare { scope, entity_ids, seal } => cbor::head(4, 3) + (
                scope,
                (entity_ids, seal),
            ).wire(),
            Mutation::Retry { work, expected_attempt } => cbor::head(4, 2) + (
                work,
                expected_attempt,
            ).wire(),
            Mutation::Cancel { work } => cbor::head(4, 1) + work.wire(),
            Mutation::Skip { work } => cbor::head(4, 1) + work.wire(),
            Mutation::ScopeCancel { scope } => cbor::head(4, 1) + scope.wire(),
        }
    }

    /// The parameters are ones that a request may carry.
    pub open spec fn valid(self) -> bool {
        match self {
            Mutation::Admit(parameters) => parameters.valid(),
            Mutation::Declare { scope, entity_ids, seal } => {
                &&& scope.valid()
                &&& entity_ids.valid()
                &&& entity_ids@.len() > 0 || seal
                &&& messages::increasing(entity_ids@)
            },
            Mutation::Retry { work, expected_attempt } => work.valid() && expected_attempt.valid(),
            Mutation::Cancel { work } => work.valid(),
            Mutation::Skip { work } => work.valid(),
            Mutation::ScopeCancel { scope } => scope.valid(),
        }
    }

    pub open spec fn agrees(self, other: Mutation) -> bool {
        match (self, other) {
            (Mutation::Admit(a), Mutation::Admit(b)) => a.agrees(&b),
            (
                Mutation::Declare { scope: s, entity_ids: i, seal: f },
                Mutation::Declare { scope: t, entity_ids: j, seal: g },
            ) => s == t && i@ == j@ && f == g,
            (
                Mutation::Retry { work: a, expected_attempt: m },
                Mutation::Retry { work: b, expected_attempt: n },
            ) => a == b && m == n,
            (Mutation::Cancel { work: a }, Mutation::Cancel { work: b }) => a == b,
            (Mutation::Skip { work: a }, Mutation::Skip { work: b }) => a == b,
            (Mutation::ScopeCancel { scope: s }, Mutation::ScopeCancel { scope: t }) => s == t,
            _ => false,
        }
    }

    /// Who may commit to what: everything is in range, and only the producer of the work admits
    /// it.
    pub open spec fn committable(
        self,
        session: SessionIdentity,
        originator: Producer,
        operation: OperationId,
    ) -> bool {
        &&& session.valid()
        &&& originator.valid()
        &&& operation.valid()
        &&& self.valid()
        &&& self matches Mutation::Admit(p) ==> p.work.producer == originator
    }

    /// The canonical preimage of the operation digest. It leaves out connection request numbers
    /// and raw input octets, and holds the originator's namespace and all parameters.
    pub open spec fn preimage(
        self,
        session: SessionIdentity,
        originator: Producer,
        operation: OperationId,
    ) -> Seq<u8> {
        cbor::head(4, 8) + (session.fields(), (originator, operation)).wire() + cbor::head(
            0,
            self.codes().0,
        ) + cbor::head(0, self.codes().1) + self.parameters_wire()
    }

    pub open spec fn operation_digest(
        self,
        session: SessionIdentity,
        originator: Producer,
        operation: OperationId,
    ) -> Seq<u8> {
        domain_digest(
            "pipestream-operation-v2"@,
            self.preimage(session, originator, operation),
        )
    }

    /// Tests the parameters, and that the producer of the work admits it.
    fn check_parameters(&self, originator: Producer) -> (r: Result<(), Error>)
        ensures
            match r {
                Ok(_) => self.valid() && (self matches Mutation::Admit(p) ==> p.work.producer
                    == originator),
                Err(e) => !(self.valid() && (self matches Mutation::Admit(p) ==> p.work.producer
                    == originator)) && e.code == ErrorCode::FrameError,
            },
    {
        match self {
            Mutation::Admit(parameters) => {
                parameters.check()?;
                require(
                    parameters.work.producer.0 == originator.0,
                    "admission originator differs from input producer",
                )
            },
            Mutation::Declare { scope, entity_ids, seal } => {
                scope.check()?;
                entity_ids.check()?;
                require(
                    (entity_ids.len() > 0 || *seal) && is_increasing(entity_ids),
                    "invalid declaration commitment",
                )
            },
            Mutation::Retry { work, expected_attempt } => {
                work.check()?;
                expected_attempt.check()
            },
            Mutation::Cancel { work } => work.check(),
            Mutation::Skip { work } => work.check(),
            Mutation::ScopeCancel { scope } => scope.check(),
        }
    }

    fn code_numbers(&self) -> (r: (u64, u64))
        ensures
            r.0 == self.codes().0,
            r.1 == self.codes().1,
    {
        match self {
            Mutation::Admit(_) => (4, 0),
            Mutation::Declare { .. } => (3, 0),
            Mutation::Retry { .. } => (4, 6),
            Mutation::Cancel { .. } => (4, 8),
            Mutation::Skip { .. } => (4, 10),
            Mutation::ScopeCancel { .. } => (3, 6),
        }
    }

    fn write_parameters(&self, w: &mut Writer)
        requires
            self.valid(),
        ensures
            final(w)@ == old(w)@ + self.parameters_wire(),
    {
        let ghost before = w@;
        match self {
            Mutation::Admit(parameters) => {
                parameters.write(w);
            },
            Mutation::Declare { scope, entity_ids, seal } => {
                w.array(3);
                scope.write(w);
                entity_ids.write(w);
                seal.write(w);
            },
            Mutation::Retry { work, expected_attempt } => {
                w.array(2);
                work.write(w);
                expected_attempt.write(w);
            },
            Mutation::Cancel { work } => {
                w.array(1);
                work.write(w);
            },
            Mutation::Skip { work } => {
                w.array(1);
                work.write(w);
            },
            Mutation::ScopeCancel { scope } => {
                w.array(1);
                scope.write(w);
            },
        }
        proof {
            broadcast use wire::lemma_concat_assoc;

            assert(w@ == before + self.parameters_wire());
        }
    }

    pub fn commitment_bytes(
        &self,
        session: &SessionIdentity,
        originator: Producer,
        operation: OperationId,
    ) -> (r: Result<Vec<u8>, Error>)
        ensures
            match r {
                Ok(b) => self.committable(*session, originator, operation) && b@ == self.preimage(
                    *session,
                    originator,
                    operation,
                ),
                Err(e) => !self.committable(*session, originator, operation) && e.code
                    == ErrorCode::FrameError,
            },
    {
        originator.check()?;
        operation.check()?;
        let mut w = Writer::new();
        w.array(8);
        session.write(&mut w)?;
        originator.write(&mut w);
        operation.write(&mut w);
        assert(w@ =~= cbor::head(4, 8) + (session.fields(), (originator, operation)).wire());
        self.check_parameters(originator)?;
        let (frame, opcode) = self.code_numbers();
        w.uint(frame);
        w.uint(opcode);
        self.write_parameters(&mut w);
        Ok(w.finish())
    }

    pub fn digest(
        &self,
        session: &SessionIdentity,
        originator: Producer,
        operation: OperationId,
    ) -> (r: Result<Digest, Error>)
        ensures
            match r {
                Ok(d) => self.committable(*session, originator, operation) && d.0@
                    == self.operation_digest(*session, originator, operation),
                Err(e) => !self.committable(*session, originator, operation) && e.code
                    == ErrorCode::FrameError,
            },
    {
        let bytes = self.commitment_bytes(session, originator, operation)?;
        Ok(hash("pipestream-operation-v2", bytes.as_slice()))
    }
}

/// The preimage holds everything: two operations with one preimage have the same session, the
/// same originator, the same identifier and the same parameters.
pub proof fn law_preimage_determines_operation(
    a: (Mutation, SessionIdentity, Producer, OperationId),
    b: (Mutation, SessionIdentity, Producer, OperationId),
)
    requires
        a.0.committable(a.1, a.2, a.3),
        b.0.committable(b.1, b.2, b.3),
        a.0.preimage(a.1, a.2, a.3) == b.0.preimage(b.1, b.2, b.3),
    ensures
        a.0.agrees(b.0),
        a.1.agrees(b.1),
        a.2 == b.2,
        a.3.agrees(&b.3),
{
    let fa = (a.1.fields(), (a.2, a.3));
    let fb = (b.1.fields(), (b.2, b.3));
    fa.valid_shaped();
    fb.valid_shaped();
    let (ma, na) = a.0.codes();
    let (mb, nb) = b.0.codes();
    let pa = a.0.parameters_wire();
    let pb = b.0.parameters_wire();
    let ta = cbor::head(0, ma) + (cbor::head(0, na) + pa);
    let tb = cbor::head(0, mb) + (cbor::head(0, nb) + pb);
    assert(a.0.preimage(a.1, a.2, a.3) =~= cbor::head(4, 8) + (fa.wire() + ta));
    assert(b.0.preimage(b.1, b.2, b.3) =~= cbor::head(4, 8) + (fb.wire() + tb));
    cbor::lemma_head_prefix_free(4, 8, fa.wire() + ta, 4, 8, fb.wire() + tb);
    <((IdentityLabel, (IdentityLabel, Id)), (Producer, OperationId))>::prefix_free(&fa, &fb, ta, tb);
    cbor::lemma_head_prefix_free(0, ma, cbor::head(0, na) + pa, 0, mb, cbor::head(0, nb) + pb);
    cbor::lemma_head_prefix_free(0, na, pa, 0, nb, pb);
    lemma_parameters_determine(a.0, b.0);
}

proof fn lemma_parameters_determine(a: Mutation, b: Mutation)
    requires
        a.valid(),
        b.valid(),
        a.codes() == b.codes(),
        a.parameters_wire() == b.parameters_wire(),
    ensures
        a.agrees(b),
{
    match (a, b) {
        (Mutation::Admit(p), Mutation::Admit(q)) => {
            p.valid_shaped();
            q.valid_shaped();
            wire::lemma_encodes_unique(p, q, p.wire());
        },
        (
            Mutation::Declare { scope: s, entity_ids: i, seal: f },
            Mutation::Declare { scope: t, entity_ids: j, seal: g },
        ) => {
            let x = (s, (i, f));
            let y = (t, (j, g));
            x.valid_shaped();
            y.valid_shaped();
            cbor::lemma_head_prefix_free(4, 3, x.wire(), 4, 3, y.wire());
            wire::lemma_encodes_unique(x, y, x.wire());
            assert(i@ =~= j@);
        },
        (
            Mutation::Retry { work: u, expected_attempt: m },
            Mutation::Retry { work: v, expected_attempt: n },
        ) => {
            let x = (u, m);
            let y = (v, n);
            cbor::lemma_head_prefix_free(4, 2, x.wire(), 4, 2, y.wire());
            wire::lemma_encodes_unique(x, y, x.wire());
        },
        (Mutation::Cancel { work: u }, Mutation::Cancel { work: v }) => {
            cbor::lemma_head_prefix_free(4, 1, u.wire(), 4, 1, v.wire());
            wire::lemma_encodes_unique(u, v, u.wire());
        },
        (Mutation::Skip { work: u }, Mutation::Skip { work: v }) => {
            cbor::lemma_head_prefix_free(4, 1, u.wire(), 4, 1, v.wire());
            wire::lemma_encodes_unique(u, v, u.wire());
        },
        (Mutation::ScopeCancel { scope: s }, Mutation::ScopeCancel { scope: t }) => {
            cbor::lemma_head_prefix_free(4, 1, s.wire(), 4, 1, t.wire());
            wire::lemma_encodes_unique(s, t, s.wire());
        },
        _ => {},
    }
}

impl Manifest {
    pub open spec fn manifest_digest(self) -> Seq<u8> {
        domain_digest("pipestream-result-manifest-v2"@, self.wire())
    }

    pub fn digest(&self) -> (r: Result<Digest, Error>)
        ensures
            match r {
                Ok(d) => self.valid() && self.wire().len() <= MAX_CONTROL_LIMIT && d.0@
                    == self.manifest_digest(),
                Err(e) => e.code == ErrorCode::FrameError && !(self.valid() && self.wire().len()
                    <= MAX_CONTROL_LIMIT),
            },
    {
        let bytes = self.encode()?;
        Ok(hash("pipestream-result-manifest-v2", bytes.as_slice()))
    }
}

/// A scope and its place can be sealed over a membership of the given number.
pub open spec fn placeable(
    session: SessionIdentity,
    scope: Number,
    producer: Producer,
    parent: Option<WorkKey>,
    declared: Number,
) -> bool {
    &&& session.valid()
    &&& scope.valid()
    &&& producer.valid()
    &&& parent.valid()
    &&& declared.valid()
    &&& records::scope_placed(scope, producer, parent)
}

/// A scope, its place and its whole membership can be sealed.
pub open spec fn sealable(
    session: SessionIdentity,
    scope: Number,
    producer: Producer,
    parent: Option<WorkKey>,
    declared: Number,
    ids: Seq<Id>,
) -> bool {
    &&& placeable(session, scope, producer, parent, declared)
    &&& ids.len() == declared.0
    &&& forall|i: int| 0 <= i < ids.len() ==> (#[trigger] ids[i]).valid()
    &&& messages::increasing(ids)
}

/// The canonical preimage of a scope seal. The full membership is no wire batch and may exceed
/// the bound on lists.
pub open spec fn seal_preimage(
    session: SessionIdentity,
    scope: Number,
    producer: Producer,
    parent: Option<WorkKey>,
    ids: Seq<Id>,
) -> Seq<u8> {
    cbor::head(4, 7) + (session.fields(), (scope, (producer, parent))).wire() + cbor::head(
        4,
        ids.len(),
    ) + wire::items_wire(ids)
}

pub open spec fn seal_digest(
    session: SessionIdentity,
    scope: Number,
    producer: Producer,
    parent: Option<WorkKey>,
    ids: Seq<Id>,
) -> Seq<u8> {
    domain_digest(
        "pipestream-scope-seal-v2"@,
        seal_preimage(session, scope, producer, parent, ids),
    )
}

/// What a running seal is made of: where the scope stands, how many members it has, and the
/// members taken in so far.
pub struct SealProgress {
    pub session: SessionIdentity,
    pub scope: Number,
    pub producer: Producer,
    pub parent: Option<WorkKey>,
    pub declared: Number,
    pub ids: Seq<Id>,
}

impl SealProgress {
    /// The next member may follow: it is valid, not beyond the declared number, and above the last.
    pub open spec fn takes(self, id: Id) -> bool {
        id.valid() && self.ids.len() < self.declared.0 && (self.ids.len() > 0 ==> self.ids.last().0
            < id.0)
    }

    /// The members taken in so far may be sealed, up to their number.
    pub open spec fn sound(self) -> bool {
        &&& placeable(self.session, self.scope, self.producer, self.parent, self.declared)
        &&& self.ids.len() <= self.declared.0
        &&& forall|i: int| 0 <= i < self.ids.len() ==> (#[trigger] self.ids[i]).valid()
        &&& messages::increasing(self.ids)
    }
}

/// What the hash of a running seal takes in before the members.
#[verifier::opaque]
spec fn seal_front(p: SealProgress) -> Seq<u8> {
    encode_utf8("pipestream-scope-seal-v2"@) + (cbor::head(4, 7) + (
        p.session.fields(),
        (p.scope, (p.producer, p.parent)),
    ).wire() + cbor::head(4, p.declared.0 as nat))
}

proof fn lemma_members_push(ids: Seq<Id>, id: Id)
    requires
        messages::increasing(ids),
        ids.len() > 0 ==> ids.last().0 < id.0,
    ensures
        messages::increasing(ids.push(id)),
{
    let after = ids.push(id);
    assert forall|j: int, k: int| 0 <= j < k < after.len() implies (#[trigger] after[j]).0 < (
    #[trigger] after[k]).0 by {
        if k == ids.len() && j < ids.len() - 1 {
            assert(ids[j].0 < ids.last().0);
        }
    }
}

/// A seal over a membership that is fed one member at a time. It retains no members.
pub struct ScopeSeal {
    hasher: Hasher,
    declared: u64,
    count: u64,
    previous: u64,
    progress: Ghost<SealProgress>,
}

impl View for ScopeSeal {
    type V = SealProgress;

    closed spec fn view(&self) -> SealProgress {
        self.progress@
    }
}

impl ScopeSeal {
    pub closed spec fn well_formed(self) -> bool {
        let p = self.progress@;
        &&& p.sound()
        &&& self.declared == p.declared.0
        &&& self.count == p.ids.len()
        &&& self.previous == (if p.ids.len() == 0 {
            0
        } else {
            p.ids.last().0
        })
        &&& hashing::absorbed(self.hasher) == seal_front(p) + wire::items_wire(p.ids)
    }

    pub fn new(
        session: &SessionIdentity,
        scope: Number,
        producer: Producer,
        parent: &Option<WorkKey>,
        declared: Number,
    ) -> (r: Result<Self, Error>)
        ensures
            match r {
                Ok(seal) => placeable(*session, scope, producer, *parent, declared)
                    && seal.well_formed() && seal@ == (SealProgress {
                    session: *session,
                    scope,
                    producer,
                    parent: *parent,
                    declared,
                    ids: Seq::empty(),
                }),
                Err(e) => !placeable(*session, scope, producer, *parent, declared) && e.code
                    == ErrorCode::FrameError,
            },
    {
        scope.check()?;
        producer.check()?;
        declared.check()?;
        parent.check()?;
        scope_identity(scope, producer, parent)?;
        let mut w = Writer::new();
        w.array(7);
        session.write(&mut w)?;
        scope.write(&mut w);
        producer.write(&mut w);
        parent.write(&mut w);
        let ghost place = (session.fields(), (scope, (producer, *parent))).wire();
        proof {
            broadcast use wire::lemma_concat_assoc;

            assert(w@ =~= cbor::head(4, 7) + place);
        }
        w.array_u64(declared.0);
        let front = w.finish();
        let mut hasher = hash_start();
        hash_update(&mut hasher, "pipestream-scope-seal-v2".as_bytes());
        hash_update(&mut hasher, front.as_slice());
        let ghost progress = SealProgress {
            session: *session,
            scope,
            producer,
            parent: *parent,
            declared,
            ids: Seq::empty(),
        };
        proof {
            reveal(seal_front);
            assert(hashing::absorbed(hasher) =~= seal_front(progress) + wire::items_wire(
                progress.ids,
            ));
        }
        Ok(
            ScopeSeal {
                hasher,
                declared: declared.0,
                count: 0,
                previous: 0,
                progress: Ghost(progress),
            },
        )
    }

    /// Takes in the next member.
    pub fn push(&mut self, id: Id) -> (r: Result<(), Error>)
        requires
            old(self).well_formed(),
        ensures
            final(self).well_formed(),
            match r {
                Ok(_) => old(self)@.takes(id) && final(self)@ == (SealProgress {
                    ids: old(self)@.ids.push(id),
                    ..old(self)@
                }),
                Err(e) => !old(self)@.takes(id) && e.code == ErrorCode::FrameError && *final(self)
                    == *old(self),
            },
    {
        id.check()?;
        if self.count >= self.declared || id.0 <= self.previous {
            return Err(Error::frame("seal membership count/order mismatch"));
        }
        let mut one = Writer::new();
        one.uint(id.0);
        let ghost p = self.progress@;
        let ghost front = seal_front(p);
        hash_update(&mut self.hasher, one.out.as_slice());
        self.previous = id.0;
        self.count += 1;
        self.progress = Ghost(SealProgress { ids: p.ids.push(id), ..p });
        proof {
            assert(one@ =~= id.wire());
            wire::lemma_items_push(p.ids, id);
            wire::lemma_concat_assoc(front, wire::items_wire(p.ids), id.wire());
            lemma_members_push(p.ids, id);
            assert(seal_front(self.progress@) == front) by {
                reveal(seal_front);
            }
        }
        Ok(())
    }

    /// The seal, once every declared member was taken in.
    pub fn finish(&self) -> (r: Result<Digest, Error>)
        requires
            self.well_formed(),
        ensures
            ({
                let p = self@;
                match r {
                    Ok(d) => sealable(p.session, p.scope, p.producer, p.parent, p.declared, p.ids)
                        && d.0@ == seal_digest(p.session, p.scope, p.producer, p.parent, p.ids),
                    Err(e) => p.ids.len() != p.declared.0 && e.code == ErrorCode::FrameError,
                }
            }),
    {
        require(self.count == self.declared, "truncated seal membership")?;
        proof {
            let p = self.progress@;
            reveal(seal_front);
            assert(hashing::absorbed(self.hasher) =~= encode_utf8("pipestream-scope-seal-v2"@)
                + seal_preimage(p.session, p.scope, p.producer, p.parent, p.ids));
        }
        Ok(Digest(hash_finish(&self.hasher)))
    }
}

/// Seals a scope. The caller supplies the retained declared count; it fails where the membership
/// is truncated, extended or unsorted. The members are hashed one by one.
pub fn scope_seal(
    session: &SessionIdentity,
    scope: Number,
    producer: Producer,
    parent: &Option<WorkKey>,
    declared: Number,
    ids: &Vec<Id>,
) -> (r: Result<Digest, Error>)
    ensures
        match r {
            Ok(d) => sealable(*session, scope, producer, *parent, declared, ids@) && d.0@
                == seal_digest(*session, scope, producer, *parent, ids@),
            Err(e) => !sealable(*session, scope, producer, *parent, declared, ids@) && e.code
                == ErrorCode::FrameError,
        },
{
    let mut seal = ScopeSeal::new(session, scope, producer, parent, declared)?;
    let ghost start = seal@;
    let mut i: usize = 0;
    assert(ids@.take(0) =~= start.ids);
    while i < ids.len()
        invariant
            i <= ids@.len(),
            seal.well_formed(),
            seal@ == (SealProgress { ids: ids@.take(i as int), ..start }),
            start.declared == declared,
        decreases ids@.len() - i,
    {
        proof {
            assert(ids@.take(i + 1) =~= ids@.take(i as int).push(ids@[i as int]));
            if i > 0 {
                assert(ids@.take(i as int).last() == ids@[i - 1]);
            }
        }
        match seal.push(ids[i]) {
            Ok(_) => {},
            Err(e) => {
                assert(i > 0 && ids@[i - 1].0 >= ids@[i as int].0 ==> !messages::increasing(ids@));
                return Err(e);
            },
        }
        i += 1;
    }
    assert(ids@.take(i as int) =~= ids@);
    seal.finish()
}

/// How one member of a closed scope ended.
#[derive(Debug, Clone, PartialEq, Eq)]
pub struct StatusLeaf {
    pub work: WorkKey,
    pub state: State,
    pub attempt: Number,
    pub manifest_digest: Option<Digest>,
    pub child_status_root: Option<Digest>,
}

impl StatusLeaf {
    /// The fields in the order of their encoding.
    pub open spec fn fields(self) -> (WorkKey, (State, (Number, (Option<Digest>, Option<Digest>)))) {
        (self.work, (self.state, (self.attempt, (self.manifest_digest, self.child_status_root))))
    }

    /// What must hold between the fields.
    pub open spec fn rule(self) -> bool {
        &&& self.state.terminal()
        &&& self.attempt.0 == 0 ==> {
            &&& self.state.0 == State::CANCELLED || self.state.0 == State::SKIPPED
            &&& self.child_status_root is None
        }
        &&& self.state.0 != State::SUCCEEDED ==> self.manifest_digest is None
    }
}

impl Wire for StatusLeaf {
    open spec fn wire(&self) -> Seq<u8> {
        cbor::head(4, 5) + self.fields().wire()
    }

    open spec fn shaped(&self) -> bool {
        self.fields().shaped()
    }

    open spec fn valid(&self) -> bool {
        self.fields().valid() && self.rule()
    }

    open spec fn refusal(&self) -> ErrorCode {
        ErrorCode::FrameError
    }

    open spec fn agrees(&self, other: &Self) -> bool {
        self.fields().agrees(&other.fields())
    }

    proof fn valid_shaped(&self) {
        self.fields().valid_shaped();
    }

    proof fn prefix_free(a: &Self, b: &Self, x: Seq<u8>, y: Seq<u8>) {
        let ra = a.fields().wire() + x;
        let rb = b.fields().wire() + y;
        assert(a.wire() + x =~= cbor::head(4, 5) + ra);
        assert(b.wire() + y =~= cbor::head(4, 5) + rb);
        cbor::lemma_head_prefix_free(4, 5, ra, 4, 5, rb);
        <(WorkKey, (State, (Number, (Option<Digest>, Option<Digest>))))>::prefix_free(&a.fields(), &b.fields(), x, y);
    }

    proof fn agrees_reflexive(&self) {
        self.fields().agrees_reflexive();
    }

    proof fn agrees_carries(a: &Self, b: &Self) {
        <(WorkKey, (State, (Number, (Option<Digest>, Option<Digest>))))>::agrees_carries(&a.fields(), &b.fields());
    }

    fn check(&self) -> (r: Result<(), Error>) {
        self.work.check()?;
        self.state.check()?;
        self.attempt.check()?;
        self.manifest_digest.check()?;
        self.child_status_root.check()?;
        require(self.state.is_terminal(), "status leaf is nonterminal")?;
        require(
            self.attempt.0 != 0 || self.state.0 == State::CANCELLED || self.state.0 == State::SKIPPED,
            "invalid inputless status leaf",
        )?;
        require(
            self.attempt.0 != 0 || self.child_status_root.is_none(),
            "inputless status leaf has child",
        )?;
        require(
            self.state.0 == State::SUCCEEDED || self.manifest_digest.is_none(),
            "nonsuccess status manifest",
        )
    }

    fn same(&self, other: &Self) -> (r: bool) {
        self.work.same(&other.work)
            && self.state.same(&other.state)
            && self.attempt.same(&other.attempt)
            && self.manifest_digest.same(&other.manifest_digest)
            && self.child_status_root.same(&other.child_status_root)
    }

    fn duplicate(&self) -> (r: Self) {
        StatusLeaf {
            work: self.work.duplicate(),
            state: self.state.duplicate(),
            attempt: self.attempt.duplicate(),
            manifest_digest: self.manifest_digest.duplicate(),
            child_status_root: self.child_status_root.duplicate(),
        }
    }

    fn write(&self, w: &mut Writer) {
        w.array(5);
        self.work.write(w);
        self.state.write(w);
        self.attempt.write(w);
        self.manifest_digest.write(w);
        self.child_status_root.write(w);
        proof {
            broadcast use wire::lemma_concat_assoc;

            assert(w@ == old(w)@ + self.wire());
        }
    }

    fn read(bytes: &[u8], pos: usize) -> (r: Result<(Self, usize), Error>) {
        proof {
            assert forall|v: StatusLeaf|
                v.shaped() && #[trigger] cbor::at(bytes@, pos as int, v.wire()) implies cbor::at(
                bytes@,
                pos as int,
                cbor::head(4, 5),
            ) && cbor::at(bytes@, pos + cbor::head(4, 5).len(), v.fields().wire()) by {
                cbor::lemma_at_concat(bytes@, pos as int, cbor::head(4, 5), v.fields().wire());
            }
        }
        let start = read_array_head(bytes, pos, 5)?;
        let (fields, next) = <(WorkKey, (State, (Number, (Option<Digest>, Option<Digest>))))>::read(bytes, start)?;
        let (work, (state, (attempt, (manifest_digest, child_status_root)))) = fields;
        Ok((StatusLeaf { work, state, attempt, manifest_digest, child_status_root }, next))
    }
}

impl Solid for StatusLeaf {
    proof fn solid(&self) {
        cbor::lemma_head(4, 5);
        assert(self.wire()[0] == cbor::head(4, 5)[0]);
    }

    proof fn plain(&self) {
    }
}

impl StatusLeaf {
    pub open spec fn leaf_digest(self) -> Seq<u8> {
        domain_digest("pipestream-status-leaf-v2"@, self.wire())
    }

    pub fn commitment_bytes(&self) -> (r: Result<Vec<u8>, Error>)
        ensures
            match r {
                Ok(b) => self.valid() && b@ == self.wire() && b@.len() <= MAX_HEADER,
                Err(e) => e.code == ErrorCode::FrameError && !(self.valid() && self.wire().len()
                    <= MAX_HEADER),
            },
    {
        encode(self, MAX_HEADER)
    }

    pub fn digest(&self) -> (r: Result<Digest, Error>)
        ensures
            match r {
                Ok(d) => self.valid() && d.0@ == self.leaf_digest(),
                Err(e) => e.code == ErrorCode::FrameError && !(self.valid() && self.wire().len()
                    <= MAX_HEADER),
            },
    {
        let bytes = self.commitment_bytes()?;
        Ok(hash("pipestream-status-leaf-v2", bytes.as_slice()))
    }
}

pub open spec fn empty_root() -> Seq<u8> {
    domain_digest("pipestream-status-empty-v2"@, Seq::empty())
}

/// The digest of an inner node.
pub open spec fn node(left: Seq<u8>, right: Seq<u8>) -> Seq<u8> {
    domain_digest("pipestream-status-node-v2"@, left + right)
}

pub fn empty_status_root() -> (r: Digest)
    ensures
        r.0@ == empty_root(),
{
    let nothing: [u8; 0] = [];
    assert(nothing@ =~= Seq::<u8>::empty());
    hash("pipestream-status-empty-v2", nothing.as_slice())
}

pub fn status_node(left: Digest, right: Digest) -> (r: Digest)
    ensures
        r.0@ == node(left.0@, right.0@),
{
    let mut hasher = hash_start();
    hash_update(&mut hasher, "pipestream-status-node-v2".as_bytes());
    hash_update(&mut hasher, left.0.as_slice());
    hash_update(&mut hasher, right.0.as_slice());
    assert(hashing::absorbed(hasher) =~= encode_utf8("pipestream-status-node-v2"@) + (left.0@
        + right.0@));
    Digest(hash_finish(&hasher))
}

/// One level up: the nodes over each full pair.
pub open spec fn pairs(s: Seq<Seq<u8>>) -> Seq<Seq<u8>> {
    Seq::new(s.len() / 2, |i: int| node(s[2 * i], s[2 * i + 1]))
}

/// An odd last subtree is duplicated, never padded with an empty leaf.
pub open spec fn evened(s: Seq<Seq<u8>>) -> Seq<Seq<u8>> {
    if s.len() % 2 == 0 {
        s
    } else {
        s.push(s.last())
    }
}

/// The Merkle root of the leaves, computed level by level.
pub open spec fn merkle_root(s: Seq<Seq<u8>>) -> Seq<u8>
    decreases s.len(),
{
    if s.len() == 0 {
        empty_root()
    } else if s.len() == 1 {
        s[0]
    } else {
        merkle_root(pairs(evened(s)))
    }
}

/// Incremental Merkle fold with at most 63 retained hashes. Odd rightmost
/// subtrees are duplicated at each level, never padded with empty leaves.
pub struct StatusRoot {
    levels: Vec<Option<Digest>>,
    count: u64,
    leaves: Ghost<Seq<Seq<u8>>>,
}

/// The retained hashes stand for the leaves: at each level the last subtree is retained where
/// their number is odd, and the full pairs make up the level above.
spec fn stands_for(levels: Seq<Option<Digest>>, s: Seq<Seq<u8>>) -> bool
    decreases levels.len(),
{
    if levels.len() == 0 {
        s.len() == 0
    } else {
        &&& levels[0] is Some <==> s.len() % 2 == 1
        &&& levels[0] matches Some(d) ==> d.0@ == s.last()
        &&& stands_for(levels.drop_first(), pairs(s))
    }
}

spec fn power(n: nat) -> nat
    decreases n,
{
    if n == 0 {
        1
    } else {
        2 * power((n - 1) as nat)
    }
}

/// A retained top hash covers as many leaves as its level says.
proof fn lemma_top_level(levels: Seq<Option<Digest>>, s: Seq<Seq<u8>>)
    requires
        stands_for(levels, s),
        levels.len() > 0,
        levels.last() is Some,
    ensures
        power((levels.len() - 1) as nat) <= s.len(),
    decreases levels.len(),
{
    if levels.len() > 1 {
        assert(levels.drop_first().last() == levels.last());
        lemma_top_level(levels.drop_first(), pairs(s));
    }
}

proof fn lemma_power_63()
    ensures
        power(63) == 0x8000_0000_0000_0000,
{
    reveal_with_fuel(power, 64);
}

proof fn lemma_power_grows(m: nat, n: nat)
    requires
        m <= n,
    ensures
        power(m) <= power(n),
    decreases n,
{
    if m < n {
        lemma_power_grows(m, (n - 1) as nat);
    }
}

/// Adds a subtree at `level`, carrying upward past retained ones.
fn carry(
    levels: &mut Vec<Option<Digest>>,
    level: usize,
    leaf: Digest,
    Ghost(s): Ghost<Seq<Seq<u8>>>,
)
    requires
        level <= old(levels)@.len(),
        stands_for(old(levels)@.skip(level as int), s),
        old(levels)@.len() > 0 ==> old(levels)@.last() is Some,
    ensures
        stands_for(final(levels)@.skip(level as int), s.push(leaf.0@)),
        final(levels)@.len() >= old(levels)@.len(),
        final(levels)@.len() > level,
        final(levels)@.len() > 0 ==> final(levels)@.last() is Some,
        final(levels)@.take(level as int) == old(levels)@.take(level as int),
    decreases old(levels)@.len() - level,
{
    let ghost before = levels@;
    if level == levels.len() {
        levels.push(Some(leaf));
        proof {
            reveal_with_fuel(stands_for, 2);
            assert(before.skip(level as int) =~= Seq::empty());
            assert(s =~= Seq::empty());
            assert(levels@.skip(level as int) =~= seq![Some(leaf)]);
            assert(levels@.skip(level as int).drop_first() =~= Seq::empty());
            assert(pairs(s.push(leaf.0@)) =~= Seq::empty());
            assert(levels@.take(level as int) =~= before.take(level as int));
        }
        return;
    }
    assert(before.skip(level as int)[0] == before[level as int]);
    assert(before.skip(level as int).drop_first() =~= before.skip(level + 1));
    match levels[level] {
        Some(left) => {
            let combined = status_node(left, leaf);
            let ghost up = pairs(s);
            assert(pairs(s.push(leaf.0@)) =~= up.push(combined.0@)) by {
                assert(s.push(leaf.0@).len() / 2 == up.len() + 1);
                assert forall|i: int| 0 <= i < up.len() + 1 implies pairs(s.push(leaf.0@))[i]
                    == up.push(combined.0@)[i] by {
                    if i < up.len() {
                        assert(s.push(leaf.0@)[2 * i] == s[2 * i]);
                        assert(s.push(leaf.0@)[2 * i + 1] == s[2 * i + 1]);
                    } else {
                        assert(2 * i == s.len() - 1);
                    }
                }
            }
            carry(levels, level + 1, combined, Ghost(up));
            let ghost carried = levels@;
            levels.set(level, None);
            proof {
                assert(levels@.skip(level + 1) =~= carried.skip(level + 1));
                assert(levels@.skip(level as int).drop_first() =~= levels@.skip(level + 1));
                assert(levels@.last() == carried.last());
                assert(levels@.take(level as int) =~= carried.take(level + 1).take(level as int));
                assert(before.take(level + 1).take(level as int) =~= before.take(level as int));
            }
        },
        None => {
            levels.set(level, Some(leaf));
            proof {
                assert(levels@.skip(level + 1) =~= before.skip(level + 1));
                assert(levels@.skip(level as int).drop_first() =~= levels@.skip(level + 1));
                assert(pairs(s.push(leaf.0@)) =~= pairs(s)) by {
                    assert forall|i: int| 0 <= i < s.len() / 2 implies pairs(s.push(leaf.0@))[i]
                        == pairs(s)[i] by {
                        assert(s.push(leaf.0@)[2 * i] == s[2 * i]);
                        assert(s.push(leaf.0@)[2 * i + 1] == s[2 * i + 1]);
                    }
                }
                assert(levels@.take(level as int) =~= before.take(level as int));
            }
        },
    }
}

/// How many of the levels hold a digest.
pub open spec fn occupied(levels: Seq<Option<Digest>>) -> nat
    decreases levels.len(),
{
    if levels.len() == 0 {
        0
    } else {
        occupied(levels.drop_first()) + if levels[0] is Some {
            1nat
        } else {
            0
        }
    }
}

/// How many bits of a number are ones.
pub open spec fn ones(n: nat) -> nat
    decreases n,
{
    if n == 0 {
        0
    } else {
        ones(n / 2) + n % 2
    }
}

/// The levels that stand for the digests hold as many as the number of digests has ones.
proof fn lemma_occupied(levels: Seq<Option<Digest>>, s: Seq<Seq<u8>>)
    requires
        stands_for(levels, s),
    ensures
        occupied(levels) == ones(s.len()),
        occupied(levels) <= levels.len(),
    decreases levels.len(),
{
    if levels.len() > 0 {
        lemma_occupied(levels.drop_first(), pairs(s));
    }
}

/// A subtree lifted by duplicating it with itself.
pub open spec fn lifted(d: Seq<u8>, n: nat) -> Seq<u8>
    decreases n,
{
    if n == 0 {
        d
    } else {
        let below = lifted(d, (n - 1) as nat);
        node(below, below)
    }
}

impl StatusRoot {
    /// The digests pushed so far.
    pub closed spec fn pushed(self) -> Seq<Seq<u8>> {
        self.leaves@
    }

    /// How many hashes are retained.
    pub closed spec fn retained(self) -> nat {
        occupied(self.levels@)
    }

    pub closed spec fn well_formed(self) -> bool {
        &&& self.count == self.leaves@.len()
        &&& self.count <= MAX_NUMBER
        &&& stands_for(self.levels@, self.leaves@)
        &&& self.levels@.len() > 0 ==> self.levels@.last() is Some
    }

    pub fn new() -> (r: Self)
        ensures
            r.well_formed(),
            r.pushed() == Seq::<Seq<u8>>::empty(),
            r.retained() == 0,
    {
        StatusRoot { levels: Vec::new(), count: 0, leaves: Ghost(Seq::empty()) }
    }

    pub fn push(&mut self, leaf: Digest) -> (r: Result<(), Error>)
        requires
            old(self).well_formed(),
        ensures
            final(self).well_formed(),
            final(self).retained() == ones(final(self).pushed().len()),
            final(self).retained() <= 63,
            match r {
                Ok(_) => old(self).pushed().len() < MAX_NUMBER && final(self).pushed() == old(
                    self,
                ).pushed().push(leaf.0@),
                Err(e) => {
                    &&& e.code == ErrorCode::LimitExceeded
                    &&& old(self).pushed().len() == MAX_NUMBER
                    &&& *final(self) == *old(self)
                },
            },
    {
        proof {
            self.lemma_retained();
        }
        if self.count == MAX_NUMBER {
            return Err(Error::new(ErrorCode::LimitExceeded, "status leaf count exhausted"));
        }
        self.count += 1;
        assert(self.levels@.skip(0) =~= self.levels@);
        carry(&mut self.levels, 0, leaf, Ghost(self.leaves@));
        assert(self.levels@.skip(0) =~= self.levels@);
        self.leaves = Ghost(self.leaves@.push(leaf.0@));
        proof {
            self.lemma_retained();
        }
        Ok(())
    }

    proof fn lemma_retained(self)
        requires
            self.well_formed(),
        ensures
            self.levels@.len() <= 63,
            self.retained() == ones(self.leaves@.len()),
            self.retained() <= 63,
    {
        lemma_occupied(self.levels@, self.leaves@);
        if self.levels@.len() > 63 {
            lemma_top_level(self.levels@, self.leaves@);
            lemma_power_63();
            lemma_power_grows(63, (self.levels@.len() - 1) as nat);
        }
    }

    /// The root over all pushed digests.
    pub fn finish(self) -> (r: Digest)
        requires
            self.well_formed(),
        ensures
            r.0@ == merkle_root(self.pushed()),
    {
        let ghost goal = merkle_root(self.leaves@);
        let mut right: Option<(usize, Digest)> = None;
        let mut level: usize = 0;
        let ghost mut s = self.leaves@;
        assert(self.levels@.skip(0) =~= self.levels@);
        while level < self.levels.len()
            invariant
                level <= self.levels@.len(),
                stands_for(self.levels@.skip(level as int), s),
                right matches Some(p) ==> p.0 <= level,
                match right {
                    Some(p) => goal == (if s.len() == 0 {
                        p.1.0@
                    } else {
                        merkle_root(s.push(lifted(p.1.0@, (level - p.0) as nat)))
                    }),
                    None => goal == merkle_root(s),
                },
            decreases self.levels@.len() - level,
        {
            let ghost next = pairs(s);
            proof {
                assert(self.levels@.skip(level as int)[0] == self.levels@[level as int]);
                assert(self.levels@.skip(level as int).drop_first() =~= self.levels@.skip(
                    level + 1,
                ));
            }
            match self.levels[level] {
                Some(left) => {
                    match right {
                        Some((height, digest)) => {
                            let mut root = digest;
                            let mut h: usize = height;
                            while h < level
                                invariant
                                    height <= h <= level,
                                    root.0@ == lifted(digest.0@, (h - height) as nat),
                                decreases level - h,
                            {
                                root = status_node(root, root);
                                h += 1;
                            }
                            let combined = status_node(left, root);
                            proof {
                                let t = s.push(root.0@);
                                assert(evened(t) == t);
                                assert(pairs(t) =~= next.push(combined.0@)) by {
                                    assert forall|i: int| 0 <= i < next.len() + 1 implies pairs(
                                        t,
                                    )[i] == next.push(combined.0@)[i] by {
                                        if i < next.len() {
                                            assert(t[2 * i] == s[2 * i]);
                                            assert(t[2 * i + 1] == s[2 * i + 1]);
                                        } else {
                                            assert(2 * i == s.len() - 1);
                                        }
                                    }
                                }
                                assert(goal == merkle_root(next.push(combined.0@)));
                                if next.len() == 0 {
                                    assert(next.push(combined.0@)[0] == combined.0@);
                                }
                                assert(lifted(combined.0@, 0) == combined.0@);
                            }
                            right = Some((level + 1, combined));
                        },
                        None => {
                            proof {
                                if s.len() == 1 {
                                    assert(next.len() == 0);
                                } else {
                                    let t = evened(s);
                                    let top = lifted(left.0@, 1);
                                    assert(lifted(left.0@, 0) == left.0@);
                                    assert(pairs(t) =~= next.push(top)) by {
                                        assert forall|i: int| 0 <= i < next.len() + 1 implies pairs(
                                            t,
                                        )[i] == next.push(top)[i] by {
                                            if i < next.len() {
                                                assert(t[2 * i] == s[2 * i]);
                                                assert(t[2 * i + 1] == s[2 * i + 1]);
                                            } else {
                                                assert(2 * i == s.len() - 1);
                                            }
                                        }
                                    }
                                    assert(goal == merkle_root(next.push(top)));
                                }
                            }
                            right = Some((level, left));
                        },
                    }
                },
                None => {
                    proof {
                        match right {
                            Some(p) => {
                                if s.len() > 0 {
                                    let r = lifted(p.1.0@, (level - p.0) as nat);
                                    let t = evened(s.push(r));
                                    let top = lifted(p.1.0@, (level + 1 - p.0) as nat);
                                    assert(top == node(r, r));
                                    assert(pairs(t) =~= next.push(top)) by {
                                        assert forall|i: int| 0 <= i < next.len() + 1 implies pairs(
                                            t,
                                        )[i] == next.push(top)[i] by {
                                            if i < next.len() {
                                                assert(t[2 * i] == s[2 * i]);
                                                assert(t[2 * i + 1] == s[2 * i + 1]);
                                            } else {
                                                assert(2 * i == s.len());
                                            }
                                        }
                                    }
                                    assert(goal == merkle_root(next.push(top)));
                                } else {
                                    assert(next.len() == 0);
                                }
                            },
                            None => {
                                if s.len() > 0 {
                                    assert(evened(s) == s);
                                } else {
                                    assert(next =~= s);
                                }
                            },
                        }
                    }
                },
            }
            proof {
                s = next;
            }
            level += 1;
        }
        assert(self.levels@.skip(level as int) =~= Seq::empty());
        match right {
            Some((_, root)) => root,
            None => empty_status_root(),
        }
    }
}

impl Default for StatusRoot {
    fn default() -> (r: Self)
        ensures
            r.well_formed(),
            r.pushed() == Seq::<Seq<u8>>::empty(),
    {
        StatusRoot::new()
    }
}

/// Sealing depends on the membership alone: batches that make up the same membership give the
/// same preimage, and the preimage determines session, place and membership.
pub proof fn law_seal_determines_membership(
    a: (SessionIdentity, Number, Producer, Option<WorkKey>, Seq<Id>),
    b: (SessionIdentity, Number, Producer, Option<WorkKey>, Seq<Id>),
)
    requires
        sealable(a.0, a.1, a.2, a.3, Number(a.4.len() as u64), a.4),
        sealable(b.0, b.1, b.2, b.3, Number(b.4.len() as u64), b.4),
        a.4.len() <= MAX_NUMBER,
        b.4.len() <= MAX_NUMBER,
        seal_preimage(a.0, a.1, a.2, a.3, a.4) == seal_preimage(b.0, b.1, b.2, b.3, b.4),
    ensures
        a.0.agrees(b.0),
        a.1 == b.1,
        a.2 == b.2,
        a.3 == b.3,
        a.4 == b.4,
{
    let fa = (a.0.fields(), (a.1, (a.2, a.3)));
    let fb = (b.0.fields(), (b.1, (b.2, b.3)));
    fa.valid_shaped();
    fb.valid_shaped();
    let ia = cbor::head(4, a.4.len()) + wire::items_wire(a.4);
    let ib = cbor::head(4, b.4.len()) + wire::items_wire(b.4);
    assert(seal_preimage(a.0, a.1, a.2, a.3, a.4) =~= cbor::head(4, 7) + (fa.wire() + ia));
    assert(seal_preimage(b.0, b.1, b.2, b.3, b.4) =~= cbor::head(4, 7) + (fb.wire() + ib));
    cbor::lemma_head_prefix_free(4, 7, fa.wire() + ia, 4, 7, fb.wire() + ib);
    <((IdentityLabel, (IdentityLabel, Id)), (Number, (Producer, Option<WorkKey>)))>::prefix_free(
        &fa,
        &fb,
        ia,
        ib,
    );
    cbor::lemma_head_prefix_free(
        4,
        a.4.len(),
        wire::items_wire(a.4),
        4,
        b.4.len(),
        wire::items_wire(b.4),
    );
    let e = Seq::<u8>::empty();
    assert(wire::items_wire(a.4) + e =~= wire::items_wire(b.4) + e);
    wire::lemma_items_prefix_free(a.4, b.4, e, e);
    assert(a.4 =~= b.4);
}

} // verus!
