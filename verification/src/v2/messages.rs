//! Control messages and their framing.

use super::error::{
    require, Error, ErrorCode, DURABLE_WORK, INITIAL_CONTROL_LIMIT, MAX_CONTROL_LIMIT, MAX_HEADER,
    RESULT_DELIVERY,
};
use super::labels::{Digest, IdentityLabel, OperationId};
use super::negotiation::Capabilities;
use super::numbers::{Id, Number, OutputIndex, PageLimit, Producer, WaitMs};
use super::records::{
    scope_identity, self, InputHeader, Limits, Manifest, OperationReceipt, Policy, Refusal,
    RequestTag, ResultHeader, ScopeEntry, ScopeSummary, WorkKey, WorkView,
};
use super::wire::{self, decode, encode, malformed, read_uint, Solid, Wire, Writer};
use crate::cbor::{self, get_array};
use crate::text::push_all;
use vstd::prelude::*;

verus! {

/// Identifiers in strictly increasing order.
pub open spec fn increasing(ids: Seq<Id>) -> bool {
    forall|i: int, j: int| 0 <= i < j < ids.len() ==> (#[trigger] ids[i]).0 < (#[trigger] ids[j]).0
}

pub fn is_increasing(ids: &Vec<Id>) -> (r: bool)
    ensures
        r == increasing(ids@),
{
    let mut i: usize = 1;
    while i < ids.len()
        invariant
            1 <= i,
            ids@.len() == 0 || i <= ids@.len(),
            forall|j: int, k: int| 0 <= j < k < i && k < ids@.len() ==> (#[trigger] ids@[j]).0 < (#[trigger] ids@[k]).0,
        decreases ids@.len() - i,
    {
        if ids[i - 1].0 >= ids[i].0 {
            assert(ids@[i - 1].0 >= ids@[i as int].0);
            return false;
        }
        assert forall|j: int, k: int| 0 <= j < k < i + 1 && k < ids@.len() implies (
        #[trigger] ids@[j]).0 < (#[trigger] ids@[k]).0 by {
            if k == i && j < i - 1 {
                assert(ids@[j].0 < ids@[i - 1].0);
            }
        }
        i += 1;
    }
    true
}

/// Entries in strictly increasing order of their entity.
pub open spec fn entries_increasing(entries: Seq<ScopeEntry>) -> bool {
    forall|i: int, j: int|
        0 <= i < j < entries.len() ==> (#[trigger] entries[i]).entity.0 < (#[trigger] entries[j]).entity.0
}

pub fn is_page_increasing(entries: &Vec<ScopeEntry>) -> (r: bool)
    ensures
        r == entries_increasing(entries@),
{
    let mut i: usize = 1;
    while i < entries.len()
        invariant
            1 <= i,
            entries@.len() == 0 || i <= entries@.len(),
            forall|j: int, k: int| 0 <= j < k < i && k < entries@.len() ==> (#[trigger] entries@[j]).entity.0
                < (#[trigger] entries@[k]).entity.0,
        decreases entries@.len() - i,
    {
        if entries[i - 1].entity.0 >= entries[i].entity.0 {
            assert(entries@[i - 1].entity.0 >= entries@[i as int].entity.0);
            return false;
        }
        assert forall|j: int, k: int| 0 <= j < k < i + 1 && k < entries@.len() implies (
        #[trigger] entries@[j]).entity.0 < (#[trigger] entries@[k]).entity.0 by {
            if k == i && j < i - 1 {
                assert(entries@[j].entity.0 < entries@[i - 1].entity.0);
            }
        }
        i += 1;
    }
    true
}

fn receipt_kind(receipt: &OperationReceipt, kind: u8) -> (r: Result<(), Error>)
    ensures
        match r {
            Ok(_) => receipt.body.kind_of() == kind,
            Err(e) => receipt.body.kind_of() != kind && e.code == ErrorCode::FrameError,
        },
{
    require(receipt.body.kind() == kind, "wrong typed receipt outcome")
}

/// Session creation and attachment.
#[derive(Debug, Clone, PartialEq, Eq)]
pub enum Session {
    Create { request: Id, creation_sequence: Id, policy: Policy },
    Binding { request: Id, authority: IdentityLabel, owner: IdentityLabel, generation: Id, creation_sequence: Id, policy: Policy, limits: Limits },
    Attach { request: Id, authority: IdentityLabel, owner: IdentityLabel, generation: Id },
    NextSequence { request: Id },
    Sequence { request: Id, next_creation_sequence: Id },
}

impl Session {
    /// The number that announces the variant.
    pub open spec fn tag(self) -> nat {
        match self {
            Session::Create { .. } => 0,
            Session::Binding { .. } => 1,
            Session::Attach { .. } => 2,
            Session::NextSequence { .. } => 3,
            Session::Sequence { .. } => 4,
        }
    }

    /// The number of elements of the encoded array.
    pub open spec fn arity(self) -> nat {
        match self {
            Session::Create { .. } => 4,
            Session::Binding { .. } => 8,
            Session::Attach { .. } => 5,
            Session::NextSequence { .. } => 2,
            Session::Sequence { .. } => 3,
        }
    }

    /// The encoding of the fields.
    pub open spec fn payload(self) -> Seq<u8> {
        match self {
            Session::Create { request, creation_sequence, policy } => (request, (creation_sequence, policy)).wire(),
            Session::Binding { request, authority, owner, generation, creation_sequence, policy, limits } => (request, (authority, (owner, (generation, (creation_sequence, (policy, limits)))))).wire(),
            Session::Attach { request, authority, owner, generation } => (request, (authority, (owner, generation))).wire(),
            Session::NextSequence { request } => request.wire(),
            Session::Sequence { request, next_creation_sequence } => (request, next_creation_sequence).wire(),
        }
    }
}

impl Wire for Session {
    open spec fn wire(&self) -> Seq<u8> {
        cbor::head(4, self.arity()) + (cbor::head(0, self.tag()) + self.payload())
    }

    open spec fn shaped(&self) -> bool {
        match *self {
            Session::Create { request, creation_sequence, policy } => (request, (creation_sequence, policy)).shaped(),
            Session::Binding { request, authority, owner, generation, creation_sequence, policy, limits } => (request, (authority, (owner, (generation, (creation_sequence, (policy, limits)))))).shaped(),
            Session::Attach { request, authority, owner, generation } => (request, (authority, (owner, generation))).shaped(),
            Session::NextSequence { request } => request.shaped(),
            Session::Sequence { request, next_creation_sequence } => (request, next_creation_sequence).shaped(),
        }
    }

    open spec fn valid(&self) -> bool {
        match *self {
            Session::Create { request, creation_sequence, policy } => (request, (creation_sequence, policy)).valid(),
            Session::Binding { request, authority, owner, generation, creation_sequence, policy, limits } => (request, (authority, (owner, (generation, (creation_sequence, (policy, limits)))))).valid(),
            Session::Attach { request, authority, owner, generation } => (request, (authority, (owner, generation))).valid(),
            Session::NextSequence { request } => request.valid(),
            Session::Sequence { request, next_creation_sequence } => (request, next_creation_sequence).valid(),
        }
    }

    open spec fn refusal(&self) -> ErrorCode {
        ErrorCode::FrameError
    }

    open spec fn agrees(&self, other: &Self) -> bool {
        match (*self, *other) {
            (Session::Create { request: a_request, creation_sequence: a_creation_sequence, policy: a_policy }, Session::Create { request: b_request, creation_sequence: b_creation_sequence, policy: b_policy }) => (a_request, (a_creation_sequence, a_policy)).agrees(
                &(b_request, (b_creation_sequence, b_policy)),
            ),
            (Session::Binding { request: a_request, authority: a_authority, owner: a_owner, generation: a_generation, creation_sequence: a_creation_sequence, policy: a_policy, limits: a_limits }, Session::Binding { request: b_request, authority: b_authority, owner: b_owner, generation: b_generation, creation_sequence: b_creation_sequence, policy: b_policy, limits: b_limits }) => (a_request, (a_authority, (a_owner, (a_generation, (a_creation_sequence, (a_policy, a_limits)))))).agrees(
                &(b_request, (b_authority, (b_owner, (b_generation, (b_creation_sequence, (b_policy, b_limits)))))),
            ),
            (Session::Attach { request: a_request, authority: a_authority, owner: a_owner, generation: a_generation }, Session::Attach { request: b_request, authority: b_authority, owner: b_owner, generation: b_generation }) => (a_request, (a_authority, (a_owner, a_generation))).agrees(
                &(b_request, (b_authority, (b_owner, b_generation))),
            ),
            (Session::NextSequence { request: a_request }, Session::NextSequence { request: b_request }) => a_request.agrees(
                &b_request,
            ),
            (Session::Sequence { request: a_request, next_creation_sequence: a_next_creation_sequence }, Session::Sequence { request: b_request, next_creation_sequence: b_next_creation_sequence }) => (a_request, a_next_creation_sequence).agrees(
                &(b_request, b_next_creation_sequence),
            ),
            _ => false,
        }
    }

    proof fn valid_shaped(&self) {
        match *self {
            Session::Create { request, creation_sequence, policy } => (request, (creation_sequence, policy)).valid_shaped(),
            Session::Binding { request, authority, owner, generation, creation_sequence, policy, limits } => (request, (authority, (owner, (generation, (creation_sequence, (policy, limits)))))).valid_shaped(),
            Session::Attach { request, authority, owner, generation } => (request, (authority, (owner, generation))).valid_shaped(),
            Session::NextSequence { request } => request.valid_shaped(),
            Session::Sequence { request, next_creation_sequence } => (request, next_creation_sequence).valid_shaped(),
        }
    }

    proof fn prefix_free(a: &Self, b: &Self, x: Seq<u8>, y: Seq<u8>) {
        wire::lemma_message_prefix(
            (a.arity(), a.tag(), a.payload()),
            x,
            (b.arity(), b.tag(), b.payload()),
            y,
        );
        match (*a, *b) {
            (Session::Create { request: a_request, creation_sequence: a_creation_sequence, policy: a_policy }, Session::Create { request: b_request, creation_sequence: b_creation_sequence, policy: b_policy }) => <(Id, (Id, Policy))>::prefix_free(
                &(a_request, (a_creation_sequence, a_policy)),
                &(b_request, (b_creation_sequence, b_policy)),
                x,
                y,
            ),
            (Session::Binding { request: a_request, authority: a_authority, owner: a_owner, generation: a_generation, creation_sequence: a_creation_sequence, policy: a_policy, limits: a_limits }, Session::Binding { request: b_request, authority: b_authority, owner: b_owner, generation: b_generation, creation_sequence: b_creation_sequence, policy: b_policy, limits: b_limits }) => <(Id, (IdentityLabel, (IdentityLabel, (Id, (Id, (Policy, Limits))))))>::prefix_free(
                &(a_request, (a_authority, (a_owner, (a_generation, (a_creation_sequence, (a_policy, a_limits)))))),
                &(b_request, (b_authority, (b_owner, (b_generation, (b_creation_sequence, (b_policy, b_limits)))))),
                x,
                y,
            ),
            (Session::Attach { request: a_request, authority: a_authority, owner: a_owner, generation: a_generation }, Session::Attach { request: b_request, authority: b_authority, owner: b_owner, generation: b_generation }) => <(Id, (IdentityLabel, (IdentityLabel, Id)))>::prefix_free(
                &(a_request, (a_authority, (a_owner, a_generation))),
                &(b_request, (b_authority, (b_owner, b_generation))),
                x,
                y,
            ),
            (Session::NextSequence { request: a_request }, Session::NextSequence { request: b_request }) => <Id>::prefix_free(
                &a_request,
                &b_request,
                x,
                y,
            ),
            (Session::Sequence { request: a_request, next_creation_sequence: a_next_creation_sequence }, Session::Sequence { request: b_request, next_creation_sequence: b_next_creation_sequence }) => <(Id, Id)>::prefix_free(
                &(a_request, a_next_creation_sequence),
                &(b_request, b_next_creation_sequence),
                x,
                y,
            ),
            _ => {},
        }
    }

    proof fn agrees_reflexive(&self) {
        match *self {
            Session::Create { request, creation_sequence, policy } => (request, (creation_sequence, policy)).agrees_reflexive(),
            Session::Binding { request, authority, owner, generation, creation_sequence, policy, limits } => (request, (authority, (owner, (generation, (creation_sequence, (policy, limits)))))).agrees_reflexive(),
            Session::Attach { request, authority, owner, generation } => (request, (authority, (owner, generation))).agrees_reflexive(),
            Session::NextSequence { request } => request.agrees_reflexive(),
            Session::Sequence { request, next_creation_sequence } => (request, next_creation_sequence).agrees_reflexive(),
        }
    }

    proof fn agrees_carries(a: &Self, b: &Self) {
        match (*a, *b) {
            (Session::Create { request: a_request, creation_sequence: a_creation_sequence, policy: a_policy }, Session::Create { request: b_request, creation_sequence: b_creation_sequence, policy: b_policy }) => {
                <(Id, (Id, Policy))>::agrees_carries(
                    &(a_request, (a_creation_sequence, a_policy)),
                    &(b_request, (b_creation_sequence, b_policy)),
                );
            },
            (Session::Binding { request: a_request, authority: a_authority, owner: a_owner, generation: a_generation, creation_sequence: a_creation_sequence, policy: a_policy, limits: a_limits }, Session::Binding { request: b_request, authority: b_authority, owner: b_owner, generation: b_generation, creation_sequence: b_creation_sequence, policy: b_policy, limits: b_limits }) => {
                <(Id, (IdentityLabel, (IdentityLabel, (Id, (Id, (Policy, Limits))))))>::agrees_carries(
                    &(a_request, (a_authority, (a_owner, (a_generation, (a_creation_sequence, (a_policy, a_limits)))))),
                    &(b_request, (b_authority, (b_owner, (b_generation, (b_creation_sequence, (b_policy, b_limits)))))),
                );
            },
            (Session::Attach { request: a_request, authority: a_authority, owner: a_owner, generation: a_generation }, Session::Attach { request: b_request, authority: b_authority, owner: b_owner, generation: b_generation }) => {
                <(Id, (IdentityLabel, (IdentityLabel, Id)))>::agrees_carries(
                    &(a_request, (a_authority, (a_owner, a_generation))),
                    &(b_request, (b_authority, (b_owner, b_generation))),
                );
            },
            (Session::NextSequence { request: a_request }, Session::NextSequence { request: b_request }) => {
                <Id>::agrees_carries(
                    &a_request,
                    &b_request,
                );
            },
            (Session::Sequence { request: a_request, next_creation_sequence: a_next_creation_sequence }, Session::Sequence { request: b_request, next_creation_sequence: b_next_creation_sequence }) => {
                <(Id, Id)>::agrees_carries(
                    &(a_request, a_next_creation_sequence),
                    &(b_request, b_next_creation_sequence),
                );
            },
            _ => {},
        }
    }

    fn check(&self) -> (r: Result<(), Error>) {
        match self {
            Session::Create { request, creation_sequence, policy } => {
                request.check()?;
                creation_sequence.check()?;
                policy.check()?;
                Ok(())
            },
            Session::Binding { request, authority, owner, generation, creation_sequence, policy, limits } => {
                request.check()?;
                authority.check()?;
                owner.check()?;
                generation.check()?;
                creation_sequence.check()?;
                policy.check()?;
                limits.check()?;
                Ok(())
            },
            Session::Attach { request, authority, owner, generation } => {
                request.check()?;
                authority.check()?;
                owner.check()?;
                generation.check()?;
                Ok(())
            },
            Session::NextSequence { request } => {
                request.check()?;
                Ok(())
            },
            Session::Sequence { request, next_creation_sequence } => {
                request.check()?;
                next_creation_sequence.check()?;
                Ok(())
            },
        }
    }

    fn same(&self, other: &Self) -> (r: bool) {
        match (self, other) {
            (Session::Create { request: a_request, creation_sequence: a_creation_sequence, policy: a_policy }, Session::Create { request: b_request, creation_sequence: b_creation_sequence, policy: b_policy }) => a_request.same(b_request) && a_creation_sequence.same(b_creation_sequence) && a_policy.same(b_policy),
            (Session::Binding { request: a_request, authority: a_authority, owner: a_owner, generation: a_generation, creation_sequence: a_creation_sequence, policy: a_policy, limits: a_limits }, Session::Binding { request: b_request, authority: b_authority, owner: b_owner, generation: b_generation, creation_sequence: b_creation_sequence, policy: b_policy, limits: b_limits }) => a_request.same(b_request) && a_authority.same(b_authority) && a_owner.same(b_owner) && a_generation.same(b_generation) && a_creation_sequence.same(b_creation_sequence) && a_policy.same(b_policy) && a_limits.same(b_limits),
            (Session::Attach { request: a_request, authority: a_authority, owner: a_owner, generation: a_generation }, Session::Attach { request: b_request, authority: b_authority, owner: b_owner, generation: b_generation }) => a_request.same(b_request) && a_authority.same(b_authority) && a_owner.same(b_owner) && a_generation.same(b_generation),
            (Session::NextSequence { request: a_request }, Session::NextSequence { request: b_request }) => a_request.same(b_request),
            (Session::Sequence { request: a_request, next_creation_sequence: a_next_creation_sequence }, Session::Sequence { request: b_request, next_creation_sequence: b_next_creation_sequence }) => a_request.same(b_request) && a_next_creation_sequence.same(b_next_creation_sequence),
            _ => false,
        }
    }

    fn duplicate(&self) -> (r: Self) {
        match self {
            Session::Create { request, creation_sequence, policy } => Session::Create {
                request: request.duplicate(),
                creation_sequence: creation_sequence.duplicate(),
                policy: policy.duplicate(),
            },
            Session::Binding { request, authority, owner, generation, creation_sequence, policy, limits } => Session::Binding {
                request: request.duplicate(),
                authority: authority.duplicate(),
                owner: owner.duplicate(),
                generation: generation.duplicate(),
                creation_sequence: creation_sequence.duplicate(),
                policy: policy.duplicate(),
                limits: limits.duplicate(),
            },
            Session::Attach { request, authority, owner, generation } => Session::Attach {
                request: request.duplicate(),
                authority: authority.duplicate(),
                owner: owner.duplicate(),
                generation: generation.duplicate(),
            },
            Session::NextSequence { request } => Session::NextSequence {
                request: request.duplicate(),
            },
            Session::Sequence { request, next_creation_sequence } => Session::Sequence {
                request: request.duplicate(),
                next_creation_sequence: next_creation_sequence.duplicate(),
            },
        }
    }

    fn write(&self, w: &mut Writer) {
        match self {
            Session::Create { request, creation_sequence, policy } => {
                w.array(4);
                w.uint(0);
                request.write(w);
                creation_sequence.write(w);
                policy.write(w);
                proof {
                    broadcast use wire::lemma_concat_assoc;

                    assert(w@ == old(w)@ + self.wire());
                }
            },
            Session::Binding { request, authority, owner, generation, creation_sequence, policy, limits } => {
                w.array(8);
                w.uint(1);
                request.write(w);
                authority.write(w);
                owner.write(w);
                generation.write(w);
                creation_sequence.write(w);
                policy.write(w);
                limits.write(w);
                proof {
                    broadcast use wire::lemma_concat_assoc;

                    assert(w@ == old(w)@ + self.wire());
                }
            },
            Session::Attach { request, authority, owner, generation } => {
                w.array(5);
                w.uint(2);
                request.write(w);
                authority.write(w);
                owner.write(w);
                generation.write(w);
                proof {
                    broadcast use wire::lemma_concat_assoc;

                    assert(w@ == old(w)@ + self.wire());
                }
            },
            Session::NextSequence { request } => {
                w.array(2);
                w.uint(3);
                request.write(w);
                proof {
                    broadcast use wire::lemma_concat_assoc;

                    assert(w@ == old(w)@ + self.wire());
                }
            },
            Session::Sequence { request, next_creation_sequence } => {
                w.array(3);
                w.uint(4);
                request.write(w);
                next_creation_sequence.write(w);
                proof {
                    broadcast use wire::lemma_concat_assoc;

                    assert(w@ == old(w)@ + self.wire());
                }
            },
        }
    }

    fn read(bytes: &[u8], pos: usize) -> (r: Result<(Self, usize), Error>) {
        let ghost b = bytes@;
        proof {
            assert forall|v: Session|
                v.shaped() && #[trigger] cbor::at(b, pos as int, v.wire()) implies v.opens(b, pos as int) by {
                v.lemma_opens(b, pos as int);
            }
        }
        let (count, middle) = match get_array(bytes, pos) {
            Some(o) => o,
            None => return Err(malformed()),
        };
        let (tag, body) = read_uint(bytes, middle)?;
        match tag {
            0 => {
                require(count == Some(4), "wrong message cardinality")?;
                let (fields, next) = <(Id, (Id, Policy))>::read(bytes, body)?;
                let (request, (creation_sequence, policy)) = fields;
                Ok((Session::Create { request, creation_sequence, policy }, next))
            },
            1 => {
                require(count == Some(8), "wrong message cardinality")?;
                let (fields, next) = <(Id, (IdentityLabel, (IdentityLabel, (Id, (Id, (Policy, Limits))))))>::read(bytes, body)?;
                let (request, (authority, (owner, (generation, (creation_sequence, (policy, limits)))))) = fields;
                Ok((Session::Binding { request, authority, owner, generation, creation_sequence, policy, limits }, next))
            },
            2 => {
                require(count == Some(5), "wrong message cardinality")?;
                let (fields, next) = <(Id, (IdentityLabel, (IdentityLabel, Id)))>::read(bytes, body)?;
                let (request, (authority, (owner, generation))) = fields;
                Ok((Session::Attach { request, authority, owner, generation }, next))
            },
            3 => {
                require(count == Some(2), "wrong message cardinality")?;
                let (fields, next) = <Id>::read(bytes, body)?;
                let request = fields;
                Ok((Session::NextSequence { request }, next))
            },
            4 => {
                require(count == Some(3), "wrong message cardinality")?;
                let (fields, next) = <(Id, Id)>::read(bytes, body)?;
                let (request, next_creation_sequence) = fields;
                Ok((Session::Sequence { request, next_creation_sequence }, next))
            },
            _ => Err(Error::frame("unknown message discriminant")),
        }
    }
}

impl Session {
    /// The value stands at `p`: its array head, its tag and its fields, one behind the other.
    pub open spec fn opens(self, b: Seq<u8>, p: int) -> bool {
        let middle = p + cbor::head(4, self.arity()).len();
        let body = middle + cbor::head(0, self.tag()).len();
        &&& 0 <= p < b.len()
        &&& cbor::major_at(b, p) == 4
        &&& b[p] != 0x9f
        &&& cbor::argument(b, p) == Some((self.arity(), middle))
        &&& cbor::at(b, middle, cbor::head(0, self.tag()))
        &&& cbor::at(b, body, self.payload())
        &&& body + self.payload().len() == p + self.wire().len()
    }

    proof fn lemma_opens(self, b: Seq<u8>, p: int)
        requires
            cbor::at(b, p, self.wire()),
        ensures
            self.opens(b, p),
    {
        let rest = cbor::head(0, self.tag()) + self.payload();
        cbor::lemma_at_concat(b, p, cbor::head(4, self.arity()), rest);
        cbor::lemma_head_at(b, p, 4, self.arity());
        cbor::lemma_at_concat(
            b,
            p + cbor::head(4, self.arity()).len(),
            cbor::head(0, self.tag()),
            self.payload(),
        );
    }
}

impl Solid for Session {
    proof fn solid(&self) {
        cbor::lemma_head(4, self.arity());
        assert(self.wire()[0] == cbor::head(4, self.arity())[0]);
    }

    proof fn plain(&self) {
    }
}

/// Declaration, paging, checkpoints and cancellation of scopes.
#[derive(Debug, Clone, PartialEq, Eq)]
pub enum Scope {
    Declare { request: Id, operation: OperationId, scope: Number, entity_ids: Vec<Id>, seal: bool },
    Declared { request: Id, receipt: OperationReceipt },
    Page { request: Id, scope: Number, after_entity: Number, limit: PageLimit },
    PageResponse { request: Id, scope: Number, producer: Producer, parent: Option<WorkKey>, sealed: bool, seal: Option<Digest>, declared: Number, entries: Vec<ScopeEntry>, more: bool },
    Checkpoint { request: Id, scope: Number, seal: Digest, wait_ms: WaitMs },
    CheckpointResponse { request: Id, summary: ScopeSummary },
    Cancel { request: Id, operation: OperationId, scope: Number },
    Cancelled { request: Id, receipt: OperationReceipt },
}

impl Scope {
    /// The number that announces the variant.
    pub open spec fn tag(self) -> nat {
        match self {
            Scope::Declare { .. } => 0,
            Scope::Declared { .. } => 1,
            Scope::Page { .. } => 2,
            Scope::PageResponse { .. } => 3,
            Scope::Checkpoint { .. } => 4,
            Scope::CheckpointResponse { .. } => 5,
            Scope::Cancel { .. } => 6,
            Scope::Cancelled { .. } => 7,
        }
    }

    /// The number of elements of the encoded array.
    pub open spec fn arity(self) -> nat {
        match self {
            Scope::Declare { .. } => 6,
            Scope::Declared { .. } => 3,
            Scope::Page { .. } => 5,
            Scope::PageResponse { .. } => 10,
            Scope::Checkpoint { .. } => 5,
            Scope::CheckpointResponse { .. } => 3,
            Scope::Cancel { .. } => 4,
            Scope::Cancelled { .. } => 3,
        }
    }

    /// The encoding of the fields.
    pub open spec fn payload(self) -> Seq<u8> {
        match self {
            Scope::Declare { request, operation, scope, entity_ids, seal } => (request, (operation, (scope, (entity_ids, seal)))).wire(),
            Scope::Declared { request, receipt } => (request, receipt).wire(),
            Scope::Page { request, scope, after_entity, limit } => (request, (scope, (after_entity, limit))).wire(),
            Scope::PageResponse { request, scope, producer, parent, sealed, seal, declared, entries, more } => (request, (scope, (producer, (parent, (sealed, (seal, (declared, (entries, more)))))))).wire(),
            Scope::Checkpoint { request, scope, seal, wait_ms } => (request, (scope, (seal, wait_ms))).wire(),
            Scope::CheckpointResponse { request, summary } => (request, summary).wire(),
            Scope::Cancel { request, operation, scope } => (request, (operation, scope)).wire(),
            Scope::Cancelled { request, receipt } => (request, receipt).wire(),
        }
    }

    /// What must hold between the fields.
    pub open spec fn rule(self) -> bool {
        match self {
            Scope::Declare { entity_ids, seal, .. } => {
                &&& entity_ids@.len() > 0 || seal
                &&& increasing(entity_ids@)
            },
            Scope::Declared { receipt, .. } => receipt.body.kind_of() == 1,
            Scope::PageResponse { scope, producer, parent, sealed, seal, declared, entries, more, .. } => {
                &&& records::scope_placed(scope, producer, parent)
                &&& sealed == (seal is Some)
                &&& entries@.len() <= declared.0
                &&& entries_increasing(entries@)
                &&& more ==> 0 < entries@.len() < declared.0
            },
            Scope::Cancelled { receipt, .. } => receipt.body.kind_of() == 4,
            _ => true,
        }
    }
}

impl Wire for Scope {
    open spec fn wire(&self) -> Seq<u8> {
        cbor::head(4, self.arity()) + (cbor::head(0, self.tag()) + self.payload())
    }

    open spec fn shaped(&self) -> bool {
        match *self {
            Scope::Declare { request, operation, scope, entity_ids, seal } => (request, (operation, (scope, (entity_ids, seal)))).shaped(),
            Scope::Declared { request, receipt } => (request, receipt).shaped(),
            Scope::Page { request, scope, after_entity, limit } => (request, (scope, (after_entity, limit))).shaped(),
            Scope::PageResponse { request, scope, producer, parent, sealed, seal, declared, entries, more } => (request, (scope, (producer, (parent, (sealed, (seal, (declared, (entries, more)))))))).shaped(),
            Scope::Checkpoint { request, scope, seal, wait_ms } => (request, (scope, (seal, wait_ms))).shaped(),
            Scope::CheckpointResponse { request, summary } => (request, summary).shaped(),
            Scope::Cancel { request, operation, scope } => (request, (operation, scope)).shaped(),
            Scope::Cancelled { request, receipt } => (request, receipt).shaped(),
        }
    }

    open spec fn valid(&self) -> bool {
        &&& self.rule()
        &&& match *self {
            Scope::Declare { request, operation, scope, entity_ids, seal } => (request, (operation, (scope, (entity_ids, seal)))).valid(),
            Scope::Declared { request, receipt } => (request, receipt).valid(),
            Scope::Page { request, scope, after_entity, limit } => (request, (scope, (after_entity, limit))).valid(),
            Scope::PageResponse { request, scope, producer, parent, sealed, seal, declared, entries, more } => (request, (scope, (producer, (parent, (sealed, (seal, (declared, (entries, more)))))))).valid(),
            Scope::Checkpoint { request, scope, seal, wait_ms } => (request, (scope, (seal, wait_ms))).valid(),
            Scope::CheckpointResponse { request, summary } => (request, summary).valid(),
            Scope::Cancel { request, operation, scope } => (request, (operation, scope)).valid(),
            Scope::Cancelled { request, receipt } => (request, receipt).valid(),
        }
    }

    open spec fn refusal(&self) -> ErrorCode {
        ErrorCode::FrameError
    }

    open spec fn agrees(&self, other: &Self) -> bool {
        match (*self, *other) {
            (Scope::Declare { request: a_request, operation: a_operation, scope: a_scope, entity_ids: a_entity_ids, seal: a_seal }, Scope::Declare { request: b_request, operation: b_operation, scope: b_scope, entity_ids: b_entity_ids, seal: b_seal }) => (a_request, (a_operation, (a_scope, (a_entity_ids, a_seal)))).agrees(
                &(b_request, (b_operation, (b_scope, (b_entity_ids, b_seal)))),
            ),
            (Scope::Declared { request: a_request, receipt: a_receipt }, Scope::Declared { request: b_request, receipt: b_receipt }) => (a_request, a_receipt).agrees(
                &(b_request, b_receipt),
            ),
            (Scope::Page { request: a_request, scope: a_scope, after_entity: a_after_entity, limit: a_limit }, Scope::Page { request: b_request, scope: b_scope, after_entity: b_after_entity, limit: b_limit }) => (a_request, (a_scope, (a_after_entity, a_limit))).agrees(
                &(b_request, (b_scope, (b_after_entity, b_limit))),
            ),
            (Scope::PageResponse { request: a_request, scope: a_scope, producer: a_producer, parent: a_parent, sealed: a_sealed, seal: a_seal, declared: a_declared, entries: a_entries, more: a_more }, Scope::PageResponse { request: b_request, scope: b_scope, producer: b_producer, parent: b_parent, sealed: b_sealed, seal: b_seal, declared: b_declared, entries: b_entries, more: b_more }) => (a_request, (a_scope, (a_producer, (a_parent, (a_sealed, (a_seal, (a_declared, (a_entries, a_more)))))))).agrees(
                &(b_request, (b_scope, (b_producer, (b_parent, (b_sealed, (b_seal, (b_declared, (b_entries, b_more)))))))),
            ),
            (Scope::Checkpoint { request: a_request, scope: a_scope, seal: a_seal, wait_ms: a_wait_ms }, Scope::Checkpoint { request: b_request, scope: b_scope, seal: b_seal, wait_ms: b_wait_ms }) => (a_request, (a_scope, (a_seal, a_wait_ms))).agrees(
                &(b_request, (b_scope, (b_seal, b_wait_ms))),
            ),
            (Scope::CheckpointResponse { request: a_request, summary: a_summary }, Scope::CheckpointResponse { request: b_request, summary: b_summary }) => (a_request, a_summary).agrees(
                &(b_request, b_summary),
            ),
            (Scope::Cancel { request: a_request, operation: a_operation, scope: a_scope }, Scope::Cancel { request: b_request, operation: b_operation, scope: b_scope }) => (a_request, (a_operation, a_scope)).agrees(
                &(b_request, (b_operation, b_scope)),
            ),
            (Scope::Cancelled { request: a_request, receipt: a_receipt }, Scope::Cancelled { request: b_request, receipt: b_receipt }) => (a_request, a_receipt).agrees(
                &(b_request, b_receipt),
            ),
            _ => false,
        }
    }

    proof fn valid_shaped(&self) {
        match *self {
            Scope::Declare { request, operation, scope, entity_ids, seal } => (request, (operation, (scope, (entity_ids, seal)))).valid_shaped(),
            Scope::Declared { request, receipt } => (request, receipt).valid_shaped(),
            Scope::Page { request, scope, after_entity, limit } => (request, (scope, (after_entity, limit))).valid_shaped(),
            Scope::PageResponse { request, scope, producer, parent, sealed, seal, declared, entries, more } => (request, (scope, (producer, (parent, (sealed, (seal, (declared, (entries, more)))))))).valid_shaped(),
            Scope::Checkpoint { request, scope, seal, wait_ms } => (request, (scope, (seal, wait_ms))).valid_shaped(),
            Scope::CheckpointResponse { request, summary } => (request, summary).valid_shaped(),
            Scope::Cancel { request, operation, scope } => (request, (operation, scope)).valid_shaped(),
            Scope::Cancelled { request, receipt } => (request, receipt).valid_shaped(),
        }
    }

    proof fn prefix_free(a: &Self, b: &Self, x: Seq<u8>, y: Seq<u8>) {
        wire::lemma_message_prefix(
            (a.arity(), a.tag(), a.payload()),
            x,
            (b.arity(), b.tag(), b.payload()),
            y,
        );
        match (*a, *b) {
            (Scope::Declare { request: a_request, operation: a_operation, scope: a_scope, entity_ids: a_entity_ids, seal: a_seal }, Scope::Declare { request: b_request, operation: b_operation, scope: b_scope, entity_ids: b_entity_ids, seal: b_seal }) => <(Id, (OperationId, (Number, (Vec<Id>, bool))))>::prefix_free(
                &(a_request, (a_operation, (a_scope, (a_entity_ids, a_seal)))),
                &(b_request, (b_operation, (b_scope, (b_entity_ids, b_seal)))),
                x,
                y,
            ),
            (Scope::Declared { request: a_request, receipt: a_receipt }, Scope::Declared { request: b_request, receipt: b_receipt }) => <(Id, OperationReceipt)>::prefix_free(
                &(a_request, a_receipt),
                &(b_request, b_receipt),
                x,
                y,
            ),
            (Scope::Page { request: a_request, scope: a_scope, after_entity: a_after_entity, limit: a_limit }, Scope::Page { request: b_request, scope: b_scope, after_entity: b_after_entity, limit: b_limit }) => <(Id, (Number, (Number, PageLimit)))>::prefix_free(
                &(a_request, (a_scope, (a_after_entity, a_limit))),
                &(b_request, (b_scope, (b_after_entity, b_limit))),
                x,
                y,
            ),
            (Scope::PageResponse { request: a_request, scope: a_scope, producer: a_producer, parent: a_parent, sealed: a_sealed, seal: a_seal, declared: a_declared, entries: a_entries, more: a_more }, Scope::PageResponse { request: b_request, scope: b_scope, producer: b_producer, parent: b_parent, sealed: b_sealed, seal: b_seal, declared: b_declared, entries: b_entries, more: b_more }) => <(Id, (Number, (Producer, (Option<WorkKey>, (bool, (Option<Digest>, (Number, (Vec<ScopeEntry>, bool))))))))>::prefix_free(
                &(a_request, (a_scope, (a_producer, (a_parent, (a_sealed, (a_seal, (a_declared, (a_entries, a_more)))))))),
                &(b_request, (b_scope, (b_producer, (b_parent, (b_sealed, (b_seal, (b_declared, (b_entries, b_more)))))))),
                x,
                y,
            ),
            (Scope::Checkpoint { request: a_request, scope: a_scope, seal: a_seal, wait_ms: a_wait_ms }, Scope::Checkpoint { request: b_request, scope: b_scope, seal: b_seal, wait_ms: b_wait_ms }) => <(Id, (Number, (Digest, WaitMs)))>::prefix_free(
                &(a_request, (a_scope, (a_seal, a_wait_ms))),
                &(b_request, (b_scope, (b_seal, b_wait_ms))),
                x,
                y,
            ),
            (Scope::CheckpointResponse { request: a_request, summary: a_summary }, Scope::CheckpointResponse { request: b_request, summary: b_summary }) => <(Id, ScopeSummary)>::prefix_free(
                &(a_request, a_summary),
                &(b_request, b_summary),
                x,
                y,
            ),
            (Scope::Cancel { request: a_request, operation: a_operation, scope: a_scope }, Scope::Cancel { request: b_request, operation: b_operation, scope: b_scope }) => <(Id, (OperationId, Number))>::prefix_free(
                &(a_request, (a_operation, a_scope)),
                &(b_request, (b_operation, b_scope)),
                x,
                y,
            ),
            (Scope::Cancelled { request: a_request, receipt: a_receipt }, Scope::Cancelled { request: b_request, receipt: b_receipt }) => <(Id, OperationReceipt)>::prefix_free(
                &(a_request, a_receipt),
                &(b_request, b_receipt),
                x,
                y,
            ),
            _ => {},
        }
    }

    proof fn agrees_reflexive(&self) {
        match *self {
            Scope::Declare { request, operation, scope, entity_ids, seal } => (request, (operation, (scope, (entity_ids, seal)))).agrees_reflexive(),
            Scope::Declared { request, receipt } => (request, receipt).agrees_reflexive(),
            Scope::Page { request, scope, after_entity, limit } => (request, (scope, (after_entity, limit))).agrees_reflexive(),
            Scope::PageResponse { request, scope, producer, parent, sealed, seal, declared, entries, more } => (request, (scope, (producer, (parent, (sealed, (seal, (declared, (entries, more)))))))).agrees_reflexive(),
            Scope::Checkpoint { request, scope, seal, wait_ms } => (request, (scope, (seal, wait_ms))).agrees_reflexive(),
            Scope::CheckpointResponse { request, summary } => (request, summary).agrees_reflexive(),
            Scope::Cancel { request, operation, scope } => (request, (operation, scope)).agrees_reflexive(),
            Scope::Cancelled { request, receipt } => (request, receipt).agrees_reflexive(),
        }
    }

    proof fn agrees_carries(a: &Self, b: &Self) {
        match (*a, *b) {
            (Scope::Declare { request: a_request, operation: a_operation, scope: a_scope, entity_ids: a_entity_ids, seal: a_seal }, Scope::Declare { request: b_request, operation: b_operation, scope: b_scope, entity_ids: b_entity_ids, seal: b_seal }) => {
                <(Id, (OperationId, (Number, (Vec<Id>, bool))))>::agrees_carries(
                    &(a_request, (a_operation, (a_scope, (a_entity_ids, a_seal)))),
                    &(b_request, (b_operation, (b_scope, (b_entity_ids, b_seal)))),
                );
                assert(a_entity_ids@ =~= b_entity_ids@);
            },
            (Scope::Declared { request: a_request, receipt: a_receipt }, Scope::Declared { request: b_request, receipt: b_receipt }) => {
                <(Id, OperationReceipt)>::agrees_carries(
                    &(a_request, a_receipt),
                    &(b_request, b_receipt),
                );
            },
            (Scope::Page { request: a_request, scope: a_scope, after_entity: a_after_entity, limit: a_limit }, Scope::Page { request: b_request, scope: b_scope, after_entity: b_after_entity, limit: b_limit }) => {
                <(Id, (Number, (Number, PageLimit)))>::agrees_carries(
                    &(a_request, (a_scope, (a_after_entity, a_limit))),
                    &(b_request, (b_scope, (b_after_entity, b_limit))),
                );
            },
            (Scope::PageResponse { request: a_request, scope: a_scope, producer: a_producer, parent: a_parent, sealed: a_sealed, seal: a_seal, declared: a_declared, entries: a_entries, more: a_more }, Scope::PageResponse { request: b_request, scope: b_scope, producer: b_producer, parent: b_parent, sealed: b_sealed, seal: b_seal, declared: b_declared, entries: b_entries, more: b_more }) => {
                <(Id, (Number, (Producer, (Option<WorkKey>, (bool, (Option<Digest>, (Number, (Vec<ScopeEntry>, bool))))))))>::agrees_carries(
                    &(a_request, (a_scope, (a_producer, (a_parent, (a_sealed, (a_seal, (a_declared, (a_entries, a_more)))))))),
                    &(b_request, (b_scope, (b_producer, (b_parent, (b_sealed, (b_seal, (b_declared, (b_entries, b_more)))))))),
                );
                assert(a_entries@ =~= b_entries@);
            },
            (Scope::Checkpoint { request: a_request, scope: a_scope, seal: a_seal, wait_ms: a_wait_ms }, Scope::Checkpoint { request: b_request, scope: b_scope, seal: b_seal, wait_ms: b_wait_ms }) => {
                <(Id, (Number, (Digest, WaitMs)))>::agrees_carries(
                    &(a_request, (a_scope, (a_seal, a_wait_ms))),
                    &(b_request, (b_scope, (b_seal, b_wait_ms))),
                );
            },
            (Scope::CheckpointResponse { request: a_request, summary: a_summary }, Scope::CheckpointResponse { request: b_request, summary: b_summary }) => {
                <(Id, ScopeSummary)>::agrees_carries(
                    &(a_request, a_summary),
                    &(b_request, b_summary),
                );
            },
            (Scope::Cancel { request: a_request, operation: a_operation, scope: a_scope }, Scope::Cancel { request: b_request, operation: b_operation, scope: b_scope }) => {
                <(Id, (OperationId, Number))>::agrees_carries(
                    &(a_request, (a_operation, a_scope)),
                    &(b_request, (b_operation, b_scope)),
                );
            },
            (Scope::Cancelled { request: a_request, receipt: a_receipt }, Scope::Cancelled { request: b_request, receipt: b_receipt }) => {
                <(Id, OperationReceipt)>::agrees_carries(
                    &(a_request, a_receipt),
                    &(b_request, b_receipt),
                );
            },
            _ => {},
        }
    }

    fn check(&self) -> (r: Result<(), Error>) {
        match self {
            Scope::Declare { request, operation, scope, entity_ids, seal } => {
                request.check()?;
                operation.check()?;
                scope.check()?;
                entity_ids.check()?;
                seal.check()?;
                require(entity_ids.len() > 0 || *seal, "empty unsealed declaration")?;
                require(is_increasing(entity_ids), "declaration IDs not increasing")
            },
            Scope::Declared { request, receipt } => {
                request.check()?;
                receipt.check()?;
                receipt_kind(receipt, 1)
            },
            Scope::Page { request, scope, after_entity, limit } => {
                request.check()?;
                scope.check()?;
                after_entity.check()?;
                limit.check()?;
                Ok(())
            },
            Scope::PageResponse { request, scope, producer, parent, sealed, seal, declared, entries, more } => {
                request.check()?;
                scope.check()?;
                producer.check()?;
                parent.check()?;
                sealed.check()?;
                seal.check()?;
                declared.check()?;
                entries.check()?;
                more.check()?;
                scope_identity(*scope, *producer, parent)?;
                require(*sealed == seal.is_some(), "page seal flag mismatch")?;
                require(
                    entries.len() as u64 <= declared.0 && is_page_increasing(entries),
                    "invalid scope page entries",
                )?;
                require(
                    !*more || (entries.len() > 0 && (entries.len() as u64) < declared.0),
                    "invalid page continuation",
                )
            },
            Scope::Checkpoint { request, scope, seal, wait_ms } => {
                request.check()?;
                scope.check()?;
                seal.check()?;
                wait_ms.check()?;
                Ok(())
            },
            Scope::CheckpointResponse { request, summary } => {
                request.check()?;
                summary.check()?;
                Ok(())
            },
            Scope::Cancel { request, operation, scope } => {
                request.check()?;
                operation.check()?;
                scope.check()?;
                Ok(())
            },
            Scope::Cancelled { request, receipt } => {
                request.check()?;
                receipt.check()?;
                receipt_kind(receipt, 4)
            },
        }
    }

    fn same(&self, other: &Self) -> (r: bool) {
        match (self, other) {
            (Scope::Declare { request: a_request, operation: a_operation, scope: a_scope, entity_ids: a_entity_ids, seal: a_seal }, Scope::Declare { request: b_request, operation: b_operation, scope: b_scope, entity_ids: b_entity_ids, seal: b_seal }) => a_request.same(b_request) && a_operation.same(b_operation) && a_scope.same(b_scope) && a_entity_ids.same(b_entity_ids) && a_seal.same(b_seal),
            (Scope::Declared { request: a_request, receipt: a_receipt }, Scope::Declared { request: b_request, receipt: b_receipt }) => a_request.same(b_request) && a_receipt.same(b_receipt),
            (Scope::Page { request: a_request, scope: a_scope, after_entity: a_after_entity, limit: a_limit }, Scope::Page { request: b_request, scope: b_scope, after_entity: b_after_entity, limit: b_limit }) => a_request.same(b_request) && a_scope.same(b_scope) && a_after_entity.same(b_after_entity) && a_limit.same(b_limit),
            (Scope::PageResponse { request: a_request, scope: a_scope, producer: a_producer, parent: a_parent, sealed: a_sealed, seal: a_seal, declared: a_declared, entries: a_entries, more: a_more }, Scope::PageResponse { request: b_request, scope: b_scope, producer: b_producer, parent: b_parent, sealed: b_sealed, seal: b_seal, declared: b_declared, entries: b_entries, more: b_more }) => a_request.same(b_request) && a_scope.same(b_scope) && a_producer.same(b_producer) && a_parent.same(b_parent) && a_sealed.same(b_sealed) && a_seal.same(b_seal) && a_declared.same(b_declared) && a_entries.same(b_entries) && a_more.same(b_more),
            (Scope::Checkpoint { request: a_request, scope: a_scope, seal: a_seal, wait_ms: a_wait_ms }, Scope::Checkpoint { request: b_request, scope: b_scope, seal: b_seal, wait_ms: b_wait_ms }) => a_request.same(b_request) && a_scope.same(b_scope) && a_seal.same(b_seal) && a_wait_ms.same(b_wait_ms),
            (Scope::CheckpointResponse { request: a_request, summary: a_summary }, Scope::CheckpointResponse { request: b_request, summary: b_summary }) => a_request.same(b_request) && a_summary.same(b_summary),
            (Scope::Cancel { request: a_request, operation: a_operation, scope: a_scope }, Scope::Cancel { request: b_request, operation: b_operation, scope: b_scope }) => a_request.same(b_request) && a_operation.same(b_operation) && a_scope.same(b_scope),
            (Scope::Cancelled { request: a_request, receipt: a_receipt }, Scope::Cancelled { request: b_request, receipt: b_receipt }) => a_request.same(b_request) && a_receipt.same(b_receipt),
            _ => false,
        }
    }

    fn duplicate(&self) -> (r: Self) {
        match self {
            Scope::Declare { request, operation, scope, entity_ids, seal } => Scope::Declare {
                request: request.duplicate(),
                operation: operation.duplicate(),
                scope: scope.duplicate(),
                entity_ids: entity_ids.duplicate(),
                seal: seal.duplicate(),
            },
            Scope::Declared { request, receipt } => Scope::Declared {
                request: request.duplicate(),
                receipt: receipt.duplicate(),
            },
            Scope::Page { request, scope, after_entity, limit } => Scope::Page {
                request: request.duplicate(),
                scope: scope.duplicate(),
                after_entity: after_entity.duplicate(),
                limit: limit.duplicate(),
            },
            Scope::PageResponse { request, scope, producer, parent, sealed, seal, declared, entries, more } => Scope::PageResponse {
                request: request.duplicate(),
                scope: scope.duplicate(),
                producer: producer.duplicate(),
                parent: parent.duplicate(),
                sealed: sealed.duplicate(),
                seal: seal.duplicate(),
                declared: declared.duplicate(),
                entries: entries.duplicate(),
                more: more.duplicate(),
            },
            Scope::Checkpoint { request, scope, seal, wait_ms } => Scope::Checkpoint {
                request: request.duplicate(),
                scope: scope.duplicate(),
                seal: seal.duplicate(),
                wait_ms: wait_ms.duplicate(),
            },
            Scope::CheckpointResponse { request, summary } => Scope::CheckpointResponse {
                request: request.duplicate(),
                summary: summary.duplicate(),
            },
            Scope::Cancel { request, operation, scope } => Scope::Cancel {
                request: request.duplicate(),
                operation: operation.duplicate(),
                scope: scope.duplicate(),
            },
            Scope::Cancelled { request, receipt } => Scope::Cancelled {
                request: request.duplicate(),
                receipt: receipt.duplicate(),
            },
        }
    }

    #[verifier::rlimit(60)]
    fn write(&self, w: &mut Writer) {
        match self {
            Scope::Declare { request, operation, scope, entity_ids, seal } => {
                w.array(6);
                w.uint(0);
                request.write(w);
                operation.write(w);
                scope.write(w);
                entity_ids.write(w);
                seal.write(w);
                proof {
                    broadcast use wire::lemma_concat_assoc;

                    assert(w@ == old(w)@ + self.wire());
                }
            },
            Scope::Declared { request, receipt } => {
                w.array(3);
                w.uint(1);
                request.write(w);
                receipt.write(w);
                proof {
                    broadcast use wire::lemma_concat_assoc;

                    assert(w@ == old(w)@ + self.wire());
                }
            },
            Scope::Page { request, scope, after_entity, limit } => {
                w.array(5);
                w.uint(2);
                request.write(w);
                scope.write(w);
                after_entity.write(w);
                limit.write(w);
                proof {
                    broadcast use wire::lemma_concat_assoc;

                    assert(w@ == old(w)@ + self.wire());
                }
            },
            Scope::PageResponse { request, scope, producer, parent, sealed, seal, declared, entries, more } => {
                w.array(10);
                w.uint(3);
                request.write(w);
                scope.write(w);
                producer.write(w);
                parent.write(w);
                sealed.write(w);
                seal.write(w);
                declared.write(w);
                entries.write(w);
                more.write(w);
                proof {
                    broadcast use wire::lemma_concat_assoc;

                    assert(w@ == old(w)@ + self.wire());
                }
            },
            Scope::Checkpoint { request, scope, seal, wait_ms } => {
                w.array(5);
                w.uint(4);
                request.write(w);
                scope.write(w);
                seal.write(w);
                wait_ms.write(w);
                proof {
                    broadcast use wire::lemma_concat_assoc;

                    assert(w@ == old(w)@ + self.wire());
                }
            },
            Scope::CheckpointResponse { request, summary } => {
                w.array(3);
                w.uint(5);
                request.write(w);
                summary.write(w);
                proof {
                    broadcast use wire::lemma_concat_assoc;

                    assert(w@ == old(w)@ + self.wire());
                }
            },
            Scope::Cancel { request, operation, scope } => {
                w.array(4);
                w.uint(6);
                request.write(w);
                operation.write(w);
                scope.write(w);
                proof {
                    broadcast use wire::lemma_concat_assoc;

                    assert(w@ == old(w)@ + self.wire());
                }
            },
            Scope::Cancelled { request, receipt } => {
                w.array(3);
                w.uint(7);
                request.write(w);
                receipt.write(w);
                proof {
                    broadcast use wire::lemma_concat_assoc;

                    assert(w@ == old(w)@ + self.wire());
                }
            },
        }
    }

    fn read(bytes: &[u8], pos: usize) -> (r: Result<(Self, usize), Error>) {
        let ghost b = bytes@;
        proof {
            assert forall|v: Scope|
                v.shaped() && #[trigger] cbor::at(b, pos as int, v.wire()) implies v.opens(b, pos as int) by {
                v.lemma_opens(b, pos as int);
            }
        }
        let (count, middle) = match get_array(bytes, pos) {
            Some(o) => o,
            None => return Err(malformed()),
        };
        let (tag, body) = read_uint(bytes, middle)?;
        match tag {
            0 => {
                require(count == Some(6), "wrong message cardinality")?;
                let (fields, next) = <(Id, (OperationId, (Number, (Vec<Id>, bool))))>::read(bytes, body)?;
                let (request, (operation, (scope, (entity_ids, seal)))) = fields;
                Ok((Scope::Declare { request, operation, scope, entity_ids, seal }, next))
            },
            1 => {
                require(count == Some(3), "wrong message cardinality")?;
                let (fields, next) = <(Id, OperationReceipt)>::read(bytes, body)?;
                let (request, receipt) = fields;
                Ok((Scope::Declared { request, receipt }, next))
            },
            2 => {
                require(count == Some(5), "wrong message cardinality")?;
                let (fields, next) = <(Id, (Number, (Number, PageLimit)))>::read(bytes, body)?;
                let (request, (scope, (after_entity, limit))) = fields;
                Ok((Scope::Page { request, scope, after_entity, limit }, next))
            },
            3 => {
                require(count == Some(10), "wrong message cardinality")?;
                let (fields, next) = <(Id, (Number, (Producer, (Option<WorkKey>, (bool, (Option<Digest>, (Number, (Vec<ScopeEntry>, bool))))))))>::read(bytes, body)?;
                let (request, (scope, (producer, (parent, (sealed, (seal, (declared, (entries, more)))))))) = fields;
                Ok((Scope::PageResponse { request, scope, producer, parent, sealed, seal, declared, entries, more }, next))
            },
            4 => {
                require(count == Some(5), "wrong message cardinality")?;
                let (fields, next) = <(Id, (Number, (Digest, WaitMs)))>::read(bytes, body)?;
                let (request, (scope, (seal, wait_ms))) = fields;
                Ok((Scope::Checkpoint { request, scope, seal, wait_ms }, next))
            },
            5 => {
                require(count == Some(3), "wrong message cardinality")?;
                let (fields, next) = <(Id, ScopeSummary)>::read(bytes, body)?;
                let (request, summary) = fields;
                Ok((Scope::CheckpointResponse { request, summary }, next))
            },
            6 => {
                require(count == Some(4), "wrong message cardinality")?;
                let (fields, next) = <(Id, (OperationId, Number))>::read(bytes, body)?;
                let (request, (operation, scope)) = fields;
                Ok((Scope::Cancel { request, operation, scope }, next))
            },
            7 => {
                require(count == Some(3), "wrong message cardinality")?;
                let (fields, next) = <(Id, OperationReceipt)>::read(bytes, body)?;
                let (request, receipt) = fields;
                Ok((Scope::Cancelled { request, receipt }, next))
            },
            _ => Err(Error::frame("unknown message discriminant")),
        }
    }
}

impl Scope {
    /// The value stands at `p`: its array head, its tag and its fields, one behind the other.
    pub open spec fn opens(self, b: Seq<u8>, p: int) -> bool {
        let middle = p + cbor::head(4, self.arity()).len();
        let body = middle + cbor::head(0, self.tag()).len();
        &&& 0 <= p < b.len()
        &&& cbor::major_at(b, p) == 4
        &&& b[p] != 0x9f
        &&& cbor::argument(b, p) == Some((self.arity(), middle))
        &&& cbor::at(b, middle, cbor::head(0, self.tag()))
        &&& cbor::at(b, body, self.payload())
        &&& body + self.payload().len() == p + self.wire().len()
    }

    proof fn lemma_opens(self, b: Seq<u8>, p: int)
        requires
            cbor::at(b, p, self.wire()),
        ensures
            self.opens(b, p),
    {
        let rest = cbor::head(0, self.tag()) + self.payload();
        cbor::lemma_at_concat(b, p, cbor::head(4, self.arity()), rest);
        cbor::lemma_head_at(b, p, 4, self.arity());
        cbor::lemma_at_concat(
            b,
            p + cbor::head(4, self.arity()).len(),
            cbor::head(0, self.tag()),
            self.payload(),
        );
    }
}

impl Solid for Scope {
    proof fn solid(&self) {
        cbor::lemma_head(4, self.arity());
        assert(self.wire()[0] == cbor::head(4, self.arity())[0]);
    }

    proof fn plain(&self) {
    }
}

/// Admission, observation and fencing of work.
#[derive(Debug, Clone, PartialEq, Eq)]
pub enum Work {
    Admitted { request: RequestTag, receipt: OperationReceipt },
    Operation { request: Id, operation: OperationId },
    OperationResponse { request: Id, receipt: OperationReceipt },
    Watch { request: Id, work: WorkKey, after_revision: Number, wait_ms: WaitMs },
    View { request: Id, revision: Id, work: Box<WorkView> },
    Retry { request: Id, operation: OperationId, work: WorkKey, expected_attempt: Id },
    Retried { request: Id, receipt: OperationReceipt },
    Cancel { request: Id, operation: OperationId, work: WorkKey },
    Cancelled { request: Id, receipt: OperationReceipt },
    Skip { request: Id, operation: OperationId, work: WorkKey },
    Skipped { request: Id, receipt: OperationReceipt },
}

impl Work {
    /// The number that announces the variant.
    pub open spec fn tag(self) -> nat {
        match self {
            Work::Admitted { .. } => 1,
            Work::Operation { .. } => 2,
            Work::OperationResponse { .. } => 3,
            Work::Watch { .. } => 4,
            Work::View { .. } => 5,
            Work::Retry { .. } => 6,
            Work::Retried { .. } => 7,
            Work::Cancel { .. } => 8,
            Work::Cancelled { .. } => 9,
            Work::Skip { .. } => 10,
            Work::Skipped { .. } => 11,
        }
    }

    /// The number of elements of the encoded array.
    pub open spec fn arity(self) -> nat {
        match self {
            Work::Admitted { .. } => 3,
            Work::Operation { .. } => 3,
            Work::OperationResponse { .. } => 3,
            Work::Watch { .. } => 5,
            Work::View { .. } => 4,
            Work::Retry { .. } => 5,
            Work::Retried { .. } => 3,
            Work::Cancel { .. } => 4,
            Work::Cancelled { .. } => 3,
            Work::Skip { .. } => 4,
            Work::Skipped { .. } => 3,
        }
    }

    /// The encoding of the fields.
    pub open spec fn payload(self) -> Seq<u8> {
        match self {
            Work::Admitted { request, receipt } => (request, receipt).wire(),
            Work::Operation { request, operation } => (request, operation).wire(),
            Work::OperationResponse { request, receipt } => (request, receipt).wire(),
            Work::Watch { request, work, after_revision, wait_ms } => (request, (work, (after_revision, wait_ms))).wire(),
            Work::View { request, revision, work } => (request, (revision, work)).wire(),
            Work::Retry { request, operation, work, expected_attempt } => (request, (operation, (work, expected_attempt))).wire(),
            Work::Retried { request, receipt } => (request, receipt).wire(),
            Work::Cancel { request, operation, work } => (request, (operation, work)).wire(),
            Work::Cancelled { request, receipt } => (request, receipt).wire(),
            Work::Skip { request, operation, work } => (request, (operation, work)).wire(),
            Work::Skipped { request, receipt } => (request, receipt).wire(),
        }
    }

    /// What must hold between the fields.
    pub open spec fn rule(self) -> bool {
        match self {
            Work::Admitted { request, receipt } => request is Input && receipt.body.kind_of() == 0,
            Work::Retried { receipt, .. } => receipt.body.kind_of() == 2,
            Work::Cancelled { receipt, .. } => receipt.body.kind_of() == 3,
            Work::Skipped { receipt, .. } => receipt.body.kind_of() == 5,
            _ => true,
        }
    }
}

impl Wire for Work {
    open spec fn wire(&self) -> Seq<u8> {
        cbor::head(4, self.arity()) + (cbor::head(0, self.tag()) + self.payload())
    }

    open spec fn shaped(&self) -> bool {
        match *self {
            Work::Admitted { request, receipt } => (request, receipt).shaped(),
            Work::Operation { request, operation } => (request, operation).shaped(),
            Work::OperationResponse { request, receipt } => (request, receipt).shaped(),
            Work::Watch { request, work, after_revision, wait_ms } => (request, (work, (after_revision, wait_ms))).shaped(),
            Work::View { request, revision, work } => (request, (revision, work)).shaped(),
            Work::Retry { request, operation, work, expected_attempt } => (request, (operation, (work, expected_attempt))).shaped(),
            Work::Retried { request, receipt } => (request, receipt).shaped(),
            Work::Cancel { request, operation, work } => (request, (operation, work)).shaped(),
            Work::Cancelled { request, receipt } => (request, receipt).shaped(),
            Work::Skip { request, operation, work } => (request, (operation, work)).shaped(),
            Work::Skipped { request, receipt } => (request, receipt).shaped(),
        }
    }

    open spec fn valid(&self) -> bool {
        &&& self.rule()
        &&& match *self {
            Work::Admitted { request, receipt } => (request, receipt).valid(),
            Work::Operation { request, operation } => (request, operation).valid(),
            Work::OperationResponse { request, receipt } => (request, receipt).valid(),
            Work::Watch { request, work, after_revision, wait_ms } => (request, (work, (after_revision, wait_ms))).valid(),
            Work::View { request, revision, work } => (request, (revision, work)).valid(),
            Work::Retry { request, operation, work, expected_attempt } => (request, (operation, (work, expected_attempt))).valid(),
            Work::Retried { request, receipt } => (request, receipt).valid(),
            Work::Cancel { request, operation, work } => (request, (operation, work)).valid(),
            Work::Cancelled { request, receipt } => (request, receipt).valid(),
            Work::Skip { request, operation, work } => (request, (operation, work)).valid(),
            Work::Skipped { request, receipt } => (request, receipt).valid(),
        }
    }

    open spec fn refusal(&self) -> ErrorCode {
        ErrorCode::FrameError
    }

    open spec fn agrees(&self, other: &Self) -> bool {
        match (*self, *other) {
            (Work::Admitted { request: a_request, receipt: a_receipt }, Work::Admitted { request: b_request, receipt: b_receipt }) => (a_request, a_receipt).agrees(
                &(b_request, b_receipt),
            ),
            (Work::Operation { request: a_request, operation: a_operation }, Work::Operation { request: b_request, operation: b_operation }) => (a_request, a_operation).agrees(
                &(b_request, b_operation),
            ),
            (Work::OperationResponse { request: a_request, receipt: a_receipt }, Work::OperationResponse { request: b_request, receipt: b_receipt }) => (a_request, a_receipt).agrees(
                &(b_request, b_receipt),
            ),
            (Work::Watch { request: a_request, work: a_work, after_revision: a_after_revision, wait_ms: a_wait_ms }, Work::Watch { request: b_request, work: b_work, after_revision: b_after_revision, wait_ms: b_wait_ms }) => (a_request, (a_work, (a_after_revision, a_wait_ms))).agrees(
                &(b_request, (b_work, (b_after_revision, b_wait_ms))),
            ),
            (Work::View { request: a_request, revision: a_revision, work: a_work }, Work::View { request: b_request, revision: b_revision, work: b_work }) => (a_request, (a_revision, a_work)).agrees(
                &(b_request, (b_revision, b_work)),
            ),
            (Work::Retry { request: a_request, operation: a_operation, work: a_work, expected_attempt: a_expected_attempt }, Work::Retry { request: b_request, operation: b_operation, work: b_work, expected_attempt: b_expected_attempt }) => (a_request, (a_operation, (a_work, a_expected_attempt))).agrees(
                &(b_request, (b_operation, (b_work, b_expected_attempt))),
            ),
            (Work::Retried { request: a_request, receipt: a_receipt }, Work::Retried { request: b_request, receipt: b_receipt }) => (a_request, a_receipt).agrees(
                &(b_request, b_receipt),
            ),
            (Work::Cancel { request: a_request, operation: a_operation, work: a_work }, Work::Cancel { request: b_request, operation: b_operation, work: b_work }) => (a_request, (a_operation, a_work)).agrees(
                &(b_request, (b_operation, b_work)),
            ),
            (Work::Cancelled { request: a_request, receipt: a_receipt }, Work::Cancelled { request: b_request, receipt: b_receipt }) => (a_request, a_receipt).agrees(
                &(b_request, b_receipt),
            ),
            (Work::Skip { request: a_request, operation: a_operation, work: a_work }, Work::Skip { request: b_request, operation: b_operation, work: b_work }) => (a_request, (a_operation, a_work)).agrees(
                &(b_request, (b_operation, b_work)),
            ),
            (Work::Skipped { request: a_request, receipt: a_receipt }, Work::Skipped { request: b_request, receipt: b_receipt }) => (a_request, a_receipt).agrees(
                &(b_request, b_receipt),
            ),
            _ => false,
        }
    }

    proof fn valid_shaped(&self) {
        match *self {
            Work::Admitted { request, receipt } => (request, receipt).valid_shaped(),
            Work::Operation { request, operation } => (request, operation).valid_shaped(),
            Work::OperationResponse { request, receipt } => (request, receipt).valid_shaped(),
            Work::Watch { request, work, after_revision, wait_ms } => (request, (work, (after_revision, wait_ms))).valid_shaped(),
            Work::View { request, revision, work } => (request, (revision, work)).valid_shaped(),
            Work::Retry { request, operation, work, expected_attempt } => (request, (operation, (work, expected_attempt))).valid_shaped(),
            Work::Retried { request, receipt } => (request, receipt).valid_shaped(),
            Work::Cancel { request, operation, work } => (request, (operation, work)).valid_shaped(),
            Work::Cancelled { request, receipt } => (request, receipt).valid_shaped(),
            Work::Skip { request, operation, work } => (request, (operation, work)).valid_shaped(),
            Work::Skipped { request, receipt } => (request, receipt).valid_shaped(),
        }
    }

    #[verifier::rlimit(60)]
    proof fn prefix_free(a: &Self, b: &Self, x: Seq<u8>, y: Seq<u8>) {
        wire::lemma_message_prefix(
            (a.arity(), a.tag(), a.payload()),
            x,
            (b.arity(), b.tag(), b.payload()),
            y,
        );
        match (*a, *b) {
            (Work::Admitted { request: a_request, receipt: a_receipt }, Work::Admitted { request: b_request, receipt: b_receipt }) => <(RequestTag, OperationReceipt)>::prefix_free(
                &(a_request, a_receipt),
                &(b_request, b_receipt),
                x,
                y,
            ),
            (Work::Operation { request: a_request, operation: a_operation }, Work::Operation { request: b_request, operation: b_operation }) => <(Id, OperationId)>::prefix_free(
                &(a_request, a_operation),
                &(b_request, b_operation),
                x,
                y,
            ),
            (Work::OperationResponse { request: a_request, receipt: a_receipt }, Work::OperationResponse { request: b_request, receipt: b_receipt }) => <(Id, OperationReceipt)>::prefix_free(
                &(a_request, a_receipt),
                &(b_request, b_receipt),
                x,
                y,
            ),
            (Work::Watch { request: a_request, work: a_work, after_revision: a_after_revision, wait_ms: a_wait_ms }, Work::Watch { request: b_request, work: b_work, after_revision: b_after_revision, wait_ms: b_wait_ms }) => <(Id, (WorkKey, (Number, WaitMs)))>::prefix_free(
                &(a_request, (a_work, (a_after_revision, a_wait_ms))),
                &(b_request, (b_work, (b_after_revision, b_wait_ms))),
                x,
                y,
            ),
            (Work::View { request: a_request, revision: a_revision, work: a_work }, Work::View { request: b_request, revision: b_revision, work: b_work }) => <(Id, (Id, Box<WorkView>))>::prefix_free(
                &(a_request, (a_revision, a_work)),
                &(b_request, (b_revision, b_work)),
                x,
                y,
            ),
            (Work::Retry { request: a_request, operation: a_operation, work: a_work, expected_attempt: a_expected_attempt }, Work::Retry { request: b_request, operation: b_operation, work: b_work, expected_attempt: b_expected_attempt }) => <(Id, (OperationId, (WorkKey, Id)))>::prefix_free(
                &(a_request, (a_operation, (a_work, a_expected_attempt))),
                &(b_request, (b_operation, (b_work, b_expected_attempt))),
                x,
                y,
            ),
            (Work::Retried { request: a_request, receipt: a_receipt }, Work::Retried { request: b_request, receipt: b_receipt }) => <(Id, OperationReceipt)>::prefix_free(
                &(a_request, a_receipt),
                &(b_request, b_receipt),
                x,
                y,
            ),
            (Work::Cancel { request: a_request, operation: a_operation, work: a_work }, Work::Cancel { request: b_request, operation: b_operation, work: b_work }) => <(Id, (OperationId, WorkKey))>::prefix_free(
                &(a_request, (a_operation, a_work)),
                &(b_request, (b_operation, b_work)),
                x,
                y,
            ),
            (Work::Cancelled { request: a_request, receipt: a_receipt }, Work::Cancelled { request: b_request, receipt: b_receipt }) => <(Id, OperationReceipt)>::prefix_free(
                &(a_request, a_receipt),
                &(b_request, b_receipt),
                x,
                y,
            ),
            (Work::Skip { request: a_request, operation: a_operation, work: a_work }, Work::Skip { request: b_request, operation: b_operation, work: b_work }) => <(Id, (OperationId, WorkKey))>::prefix_free(
                &(a_request, (a_operation, a_work)),
                &(b_request, (b_operation, b_work)),
                x,
                y,
            ),
            (Work::Skipped { request: a_request, receipt: a_receipt }, Work::Skipped { request: b_request, receipt: b_receipt }) => <(Id, OperationReceipt)>::prefix_free(
                &(a_request, a_receipt),
                &(b_request, b_receipt),
                x,
                y,
            ),
            _ => {},
        }
    }

    proof fn agrees_reflexive(&self) {
        match *self {
            Work::Admitted { request, receipt } => (request, receipt).agrees_reflexive(),
            Work::Operation { request, operation } => (request, operation).agrees_reflexive(),
            Work::OperationResponse { request, receipt } => (request, receipt).agrees_reflexive(),
            Work::Watch { request, work, after_revision, wait_ms } => (request, (work, (after_revision, wait_ms))).agrees_reflexive(),
            Work::View { request, revision, work } => (request, (revision, work)).agrees_reflexive(),
            Work::Retry { request, operation, work, expected_attempt } => (request, (operation, (work, expected_attempt))).agrees_reflexive(),
            Work::Retried { request, receipt } => (request, receipt).agrees_reflexive(),
            Work::Cancel { request, operation, work } => (request, (operation, work)).agrees_reflexive(),
            Work::Cancelled { request, receipt } => (request, receipt).agrees_reflexive(),
            Work::Skip { request, operation, work } => (request, (operation, work)).agrees_reflexive(),
            Work::Skipped { request, receipt } => (request, receipt).agrees_reflexive(),
        }
    }

    proof fn agrees_carries(a: &Self, b: &Self) {
        match (*a, *b) {
            (Work::Admitted { request: a_request, receipt: a_receipt }, Work::Admitted { request: b_request, receipt: b_receipt }) => {
                <(RequestTag, OperationReceipt)>::agrees_carries(
                    &(a_request, a_receipt),
                    &(b_request, b_receipt),
                );
            },
            (Work::Operation { request: a_request, operation: a_operation }, Work::Operation { request: b_request, operation: b_operation }) => {
                <(Id, OperationId)>::agrees_carries(
                    &(a_request, a_operation),
                    &(b_request, b_operation),
                );
            },
            (Work::OperationResponse { request: a_request, receipt: a_receipt }, Work::OperationResponse { request: b_request, receipt: b_receipt }) => {
                <(Id, OperationReceipt)>::agrees_carries(
                    &(a_request, a_receipt),
                    &(b_request, b_receipt),
                );
            },
            (Work::Watch { request: a_request, work: a_work, after_revision: a_after_revision, wait_ms: a_wait_ms }, Work::Watch { request: b_request, work: b_work, after_revision: b_after_revision, wait_ms: b_wait_ms }) => {
                <(Id, (WorkKey, (Number, WaitMs)))>::agrees_carries(
                    &(a_request, (a_work, (a_after_revision, a_wait_ms))),
                    &(b_request, (b_work, (b_after_revision, b_wait_ms))),
                );
            },
            (Work::View { request: a_request, revision: a_revision, work: a_work }, Work::View { request: b_request, revision: b_revision, work: b_work }) => {
                <(Id, (Id, Box<WorkView>))>::agrees_carries(
                    &(a_request, (a_revision, a_work)),
                    &(b_request, (b_revision, b_work)),
                );
            },
            (Work::Retry { request: a_request, operation: a_operation, work: a_work, expected_attempt: a_expected_attempt }, Work::Retry { request: b_request, operation: b_operation, work: b_work, expected_attempt: b_expected_attempt }) => {
                <(Id, (OperationId, (WorkKey, Id)))>::agrees_carries(
                    &(a_request, (a_operation, (a_work, a_expected_attempt))),
                    &(b_request, (b_operation, (b_work, b_expected_attempt))),
                );
            },
            (Work::Retried { request: a_request, receipt: a_receipt }, Work::Retried { request: b_request, receipt: b_receipt }) => {
                <(Id, OperationReceipt)>::agrees_carries(
                    &(a_request, a_receipt),
                    &(b_request, b_receipt),
                );
            },
            (Work::Cancel { request: a_request, operation: a_operation, work: a_work }, Work::Cancel { request: b_request, operation: b_operation, work: b_work }) => {
                <(Id, (OperationId, WorkKey))>::agrees_carries(
                    &(a_request, (a_operation, a_work)),
                    &(b_request, (b_operation, b_work)),
                );
            },
            (Work::Cancelled { request: a_request, receipt: a_receipt }, Work::Cancelled { request: b_request, receipt: b_receipt }) => {
                <(Id, OperationReceipt)>::agrees_carries(
                    &(a_request, a_receipt),
                    &(b_request, b_receipt),
                );
            },
            (Work::Skip { request: a_request, operation: a_operation, work: a_work }, Work::Skip { request: b_request, operation: b_operation, work: b_work }) => {
                <(Id, (OperationId, WorkKey))>::agrees_carries(
                    &(a_request, (a_operation, a_work)),
                    &(b_request, (b_operation, b_work)),
                );
            },
            (Work::Skipped { request: a_request, receipt: a_receipt }, Work::Skipped { request: b_request, receipt: b_receipt }) => {
                <(Id, OperationReceipt)>::agrees_carries(
                    &(a_request, a_receipt),
                    &(b_request, b_receipt),
                );
            },
            _ => {},
        }
    }

    fn check(&self) -> (r: Result<(), Error>) {
        match self {
            Work::Admitted { request, receipt } => {
                request.check()?;
                receipt.check()?;
                require(
                    matches!(request, RequestTag::Input { .. }),
                    "admission response requires input tag",
                )?;
                receipt_kind(receipt, 0)
            },
            Work::Operation { request, operation } => {
                request.check()?;
                operation.check()?;
                Ok(())
            },
            Work::OperationResponse { request, receipt } => {
                request.check()?;
                receipt.check()?;
                Ok(())
            },
            Work::Watch { request, work, after_revision, wait_ms } => {
                request.check()?;
                work.check()?;
                after_revision.check()?;
                wait_ms.check()?;
                Ok(())
            },
            Work::View { request, revision, work } => {
                request.check()?;
                revision.check()?;
                work.check()?;
                Ok(())
            },
            Work::Retry { request, operation, work, expected_attempt } => {
                request.check()?;
                operation.check()?;
                work.check()?;
                expected_attempt.check()?;
                Ok(())
            },
            Work::Retried { request, receipt } => {
                request.check()?;
                receipt.check()?;
                receipt_kind(receipt, 2)
            },
            Work::Cancel { request, operation, work } => {
                request.check()?;
                operation.check()?;
                work.check()?;
                Ok(())
            },
            Work::Cancelled { request, receipt } => {
                request.check()?;
                receipt.check()?;
                receipt_kind(receipt, 3)
            },
            Work::Skip { request, operation, work } => {
                request.check()?;
                operation.check()?;
                work.check()?;
                Ok(())
            },
            Work::Skipped { request, receipt } => {
                request.check()?;
                receipt.check()?;
                receipt_kind(receipt, 5)
            },
        }
    }

    fn same(&self, other: &Self) -> (r: bool) {
        match (self, other) {
            (Work::Admitted { request: a_request, receipt: a_receipt }, Work::Admitted { request: b_request, receipt: b_receipt }) => a_request.same(b_request) && a_receipt.same(b_receipt),
            (Work::Operation { request: a_request, operation: a_operation }, Work::Operation { request: b_request, operation: b_operation }) => a_request.same(b_request) && a_operation.same(b_operation),
            (Work::OperationResponse { request: a_request, receipt: a_receipt }, Work::OperationResponse { request: b_request, receipt: b_receipt }) => a_request.same(b_request) && a_receipt.same(b_receipt),
            (Work::Watch { request: a_request, work: a_work, after_revision: a_after_revision, wait_ms: a_wait_ms }, Work::Watch { request: b_request, work: b_work, after_revision: b_after_revision, wait_ms: b_wait_ms }) => a_request.same(b_request) && a_work.same(b_work) && a_after_revision.same(b_after_revision) && a_wait_ms.same(b_wait_ms),
            (Work::View { request: a_request, revision: a_revision, work: a_work }, Work::View { request: b_request, revision: b_revision, work: b_work }) => a_request.same(b_request) && a_revision.same(b_revision) && a_work.same(b_work),
            (Work::Retry { request: a_request, operation: a_operation, work: a_work, expected_attempt: a_expected_attempt }, Work::Retry { request: b_request, operation: b_operation, work: b_work, expected_attempt: b_expected_attempt }) => a_request.same(b_request) && a_operation.same(b_operation) && a_work.same(b_work) && a_expected_attempt.same(b_expected_attempt),
            (Work::Retried { request: a_request, receipt: a_receipt }, Work::Retried { request: b_request, receipt: b_receipt }) => a_request.same(b_request) && a_receipt.same(b_receipt),
            (Work::Cancel { request: a_request, operation: a_operation, work: a_work }, Work::Cancel { request: b_request, operation: b_operation, work: b_work }) => a_request.same(b_request) && a_operation.same(b_operation) && a_work.same(b_work),
            (Work::Cancelled { request: a_request, receipt: a_receipt }, Work::Cancelled { request: b_request, receipt: b_receipt }) => a_request.same(b_request) && a_receipt.same(b_receipt),
            (Work::Skip { request: a_request, operation: a_operation, work: a_work }, Work::Skip { request: b_request, operation: b_operation, work: b_work }) => a_request.same(b_request) && a_operation.same(b_operation) && a_work.same(b_work),
            (Work::Skipped { request: a_request, receipt: a_receipt }, Work::Skipped { request: b_request, receipt: b_receipt }) => a_request.same(b_request) && a_receipt.same(b_receipt),
            _ => false,
        }
    }

    fn duplicate(&self) -> (r: Self) {
        match self {
            Work::Admitted { request, receipt } => Work::Admitted {
                request: request.duplicate(),
                receipt: receipt.duplicate(),
            },
            Work::Operation { request, operation } => Work::Operation {
                request: request.duplicate(),
                operation: operation.duplicate(),
            },
            Work::OperationResponse { request, receipt } => Work::OperationResponse {
                request: request.duplicate(),
                receipt: receipt.duplicate(),
            },
            Work::Watch { request, work, after_revision, wait_ms } => Work::Watch {
                request: request.duplicate(),
                work: work.duplicate(),
                after_revision: after_revision.duplicate(),
                wait_ms: wait_ms.duplicate(),
            },
            Work::View { request, revision, work } => Work::View {
                request: request.duplicate(),
                revision: revision.duplicate(),
                work: work.duplicate(),
            },
            Work::Retry { request, operation, work, expected_attempt } => Work::Retry {
                request: request.duplicate(),
                operation: operation.duplicate(),
                work: work.duplicate(),
                expected_attempt: expected_attempt.duplicate(),
            },
            Work::Retried { request, receipt } => Work::Retried {
                request: request.duplicate(),
                receipt: receipt.duplicate(),
            },
            Work::Cancel { request, operation, work } => Work::Cancel {
                request: request.duplicate(),
                operation: operation.duplicate(),
                work: work.duplicate(),
            },
            Work::Cancelled { request, receipt } => Work::Cancelled {
                request: request.duplicate(),
                receipt: receipt.duplicate(),
            },
            Work::Skip { request, operation, work } => Work::Skip {
                request: request.duplicate(),
                operation: operation.duplicate(),
                work: work.duplicate(),
            },
            Work::Skipped { request, receipt } => Work::Skipped {
                request: request.duplicate(),
                receipt: receipt.duplicate(),
            },
        }
    }

    fn write(&self, w: &mut Writer) {
        match self {
            Work::Admitted { request, receipt } => {
                w.array(3);
                w.uint(1);
                request.write(w);
                receipt.write(w);
                proof {
                    broadcast use wire::lemma_concat_assoc;

                    assert(w@ == old(w)@ + self.wire());
                }
            },
            Work::Operation { request, operation } => {
                w.array(3);
                w.uint(2);
                request.write(w);
                operation.write(w);
                proof {
                    broadcast use wire::lemma_concat_assoc;

                    assert(w@ == old(w)@ + self.wire());
                }
            },
            Work::OperationResponse { request, receipt } => {
                w.array(3);
                w.uint(3);
                request.write(w);
                receipt.write(w);
                proof {
                    broadcast use wire::lemma_concat_assoc;

                    assert(w@ == old(w)@ + self.wire());
                }
            },
            Work::Watch { request, work, after_revision, wait_ms } => {
                w.array(5);
                w.uint(4);
                request.write(w);
                work.write(w);
                after_revision.write(w);
                wait_ms.write(w);
                proof {
                    broadcast use wire::lemma_concat_assoc;

                    assert(w@ == old(w)@ + self.wire());
                }
            },
            Work::View { request, revision, work } => {
                w.array(4);
                w.uint(5);
                request.write(w);
                revision.write(w);
                work.write(w);
                proof {
                    broadcast use wire::lemma_concat_assoc;

                    assert(w@ == old(w)@ + self.wire());
                }
            },
            Work::Retry { request, operation, work, expected_attempt } => {
                w.array(5);
                w.uint(6);
                request.write(w);
                operation.write(w);
                work.write(w);
                expected_attempt.write(w);
                proof {
                    broadcast use wire::lemma_concat_assoc;

                    assert(w@ == old(w)@ + self.wire());
                }
            },
            Work::Retried { request, receipt } => {
                w.array(3);
                w.uint(7);
                request.write(w);
                receipt.write(w);
                proof {
                    broadcast use wire::lemma_concat_assoc;

                    assert(w@ == old(w)@ + self.wire());
                }
            },
            Work::Cancel { request, operation, work } => {
                w.array(4);
                w.uint(8);
                request.write(w);
                operation.write(w);
                work.write(w);
                proof {
                    broadcast use wire::lemma_concat_assoc;

                    assert(w@ == old(w)@ + self.wire());
                }
            },
            Work::Cancelled { request, receipt } => {
                w.array(3);
                w.uint(9);
                request.write(w);
                receipt.write(w);
                proof {
                    broadcast use wire::lemma_concat_assoc;

                    assert(w@ == old(w)@ + self.wire());
                }
            },
            Work::Skip { request, operation, work } => {
                w.array(4);
                w.uint(10);
                request.write(w);
                operation.write(w);
                work.write(w);
                proof {
                    broadcast use wire::lemma_concat_assoc;

                    assert(w@ == old(w)@ + self.wire());
                }
            },
            Work::Skipped { request, receipt } => {
                w.array(3);
                w.uint(11);
                request.write(w);
                receipt.write(w);
                proof {
                    broadcast use wire::lemma_concat_assoc;

                    assert(w@ == old(w)@ + self.wire());
                }
            },
        }
    }

    fn read(bytes: &[u8], pos: usize) -> (r: Result<(Self, usize), Error>) {
        let ghost b = bytes@;
        proof {
            assert forall|v: Work|
                v.shaped() && #[trigger] cbor::at(b, pos as int, v.wire()) implies v.opens(b, pos as int) by {
                v.lemma_opens(b, pos as int);
            }
        }
        let (count, middle) = match get_array(bytes, pos) {
            Some(o) => o,
            None => return Err(malformed()),
        };
        let (tag, body) = read_uint(bytes, middle)?;
        match tag {
            1 => {
                require(count == Some(3), "wrong message cardinality")?;
                let (fields, next) = <(RequestTag, OperationReceipt)>::read(bytes, body)?;
                let (request, receipt) = fields;
                Ok((Work::Admitted { request, receipt }, next))
            },
            2 => {
                require(count == Some(3), "wrong message cardinality")?;
                let (fields, next) = <(Id, OperationId)>::read(bytes, body)?;
                let (request, operation) = fields;
                Ok((Work::Operation { request, operation }, next))
            },
            3 => {
                require(count == Some(3), "wrong message cardinality")?;
                let (fields, next) = <(Id, OperationReceipt)>::read(bytes, body)?;
                let (request, receipt) = fields;
                Ok((Work::OperationResponse { request, receipt }, next))
            },
            4 => {
                require(count == Some(5), "wrong message cardinality")?;
                let (fields, next) = <(Id, (WorkKey, (Number, WaitMs)))>::read(bytes, body)?;
                let (request, (work, (after_revision, wait_ms))) = fields;
                Ok((Work::Watch { request, work, after_revision, wait_ms }, next))
            },
            5 => {
                require(count == Some(4), "wrong message cardinality")?;
                let (fields, next) = <(Id, (Id, Box<WorkView>))>::read(bytes, body)?;
                let (request, (revision, work)) = fields;
                Ok((Work::View { request, revision, work }, next))
            },
            6 => {
                require(count == Some(5), "wrong message cardinality")?;
                let (fields, next) = <(Id, (OperationId, (WorkKey, Id)))>::read(bytes, body)?;
                let (request, (operation, (work, expected_attempt))) = fields;
                Ok((Work::Retry { request, operation, work, expected_attempt }, next))
            },
            7 => {
                require(count == Some(3), "wrong message cardinality")?;
                let (fields, next) = <(Id, OperationReceipt)>::read(bytes, body)?;
                let (request, receipt) = fields;
                Ok((Work::Retried { request, receipt }, next))
            },
            8 => {
                require(count == Some(4), "wrong message cardinality")?;
                let (fields, next) = <(Id, (OperationId, WorkKey))>::read(bytes, body)?;
                let (request, (operation, work)) = fields;
                Ok((Work::Cancel { request, operation, work }, next))
            },
            9 => {
                require(count == Some(3), "wrong message cardinality")?;
                let (fields, next) = <(Id, OperationReceipt)>::read(bytes, body)?;
                let (request, receipt) = fields;
                Ok((Work::Cancelled { request, receipt }, next))
            },
            10 => {
                require(count == Some(4), "wrong message cardinality")?;
                let (fields, next) = <(Id, (OperationId, WorkKey))>::read(bytes, body)?;
                let (request, (operation, work)) = fields;
                Ok((Work::Skip { request, operation, work }, next))
            },
            11 => {
                require(count == Some(3), "wrong message cardinality")?;
                let (fields, next) = <(Id, OperationReceipt)>::read(bytes, body)?;
                let (request, receipt) = fields;
                Ok((Work::Skipped { request, receipt }, next))
            },
            _ => Err(Error::frame("unknown message discriminant")),
        }
    }
}

impl Work {
    /// The value stands at `p`: its array head, its tag and its fields, one behind the other.
    pub open spec fn opens(self, b: Seq<u8>, p: int) -> bool {
        let middle = p + cbor::head(4, self.arity()).len();
        let body = middle + cbor::head(0, self.tag()).len();
        &&& 0 <= p < b.len()
        &&& cbor::major_at(b, p) == 4
        &&& b[p] != 0x9f
        &&& cbor::argument(b, p) == Some((self.arity(), middle))
        &&& cbor::at(b, middle, cbor::head(0, self.tag()))
        &&& cbor::at(b, body, self.payload())
        &&& body + self.payload().len() == p + self.wire().len()
    }

    proof fn lemma_opens(self, b: Seq<u8>, p: int)
        requires
            cbor::at(b, p, self.wire()),
        ensures
            self.opens(b, p),
    {
        let rest = cbor::head(0, self.tag()) + self.payload();
        cbor::lemma_at_concat(b, p, cbor::head(4, self.arity()), rest);
        cbor::lemma_head_at(b, p, 4, self.arity());
        cbor::lemma_at_concat(
            b,
            p + cbor::head(4, self.arity()).len(),
            cbor::head(0, self.tag()),
            self.payload(),
        );
    }
}

impl Solid for Work {
    proof fn solid(&self) {
        cbor::lemma_head(4, self.arity());
        assert(self.wire()[0] == cbor::head(4, self.arity())[0]);
    }

    proof fn plain(&self) {
    }
}

/// Requests for outputs.
#[derive(Debug, Clone, PartialEq, Eq)]
pub enum ResultMessage {
    Read { request: Id, work: WorkKey, attempt: Id, index: OutputIndex, expected_sha256: Digest },
    GetManifest { request: Id, work: WorkKey, attempt: Id },
    ManifestResponse { request: Id, manifest: Manifest },
}

impl ResultMessage {
    /// The number that announces the variant.
    pub open spec fn tag(self) -> nat {
        match self {
            ResultMessage::Read { .. } => 0,
            ResultMessage::GetManifest { .. } => 1,
            ResultMessage::ManifestResponse { .. } => 2,
        }
    }

    /// The number of elements of the encoded array.
    pub open spec fn arity(self) -> nat {
        match self {
            ResultMessage::Read { .. } => 6,
            ResultMessage::GetManifest { .. } => 4,
            ResultMessage::ManifestResponse { .. } => 3,
        }
    }

    /// The encoding of the fields.
    pub open spec fn payload(self) -> Seq<u8> {
        match self {
            ResultMessage::Read { request, work, attempt, index, expected_sha256 } => (request, (work, (attempt, (index, expected_sha256)))).wire(),
            ResultMessage::GetManifest { request, work, attempt } => (request, (work, attempt)).wire(),
            ResultMessage::ManifestResponse { request, manifest } => (request, manifest).wire(),
        }
    }
}

impl Wire for ResultMessage {
    open spec fn wire(&self) -> Seq<u8> {
        cbor::head(4, self.arity()) + (cbor::head(0, self.tag()) + self.payload())
    }

    open spec fn shaped(&self) -> bool {
        match *self {
            ResultMessage::Read { request, work, attempt, index, expected_sha256 } => (request, (work, (attempt, (index, expected_sha256)))).shaped(),
            ResultMessage::GetManifest { request, work, attempt } => (request, (work, attempt)).shaped(),
            ResultMessage::ManifestResponse { request, manifest } => (request, manifest).shaped(),
        }
    }

    open spec fn valid(&self) -> bool {
        match *self {
            ResultMessage::Read { request, work, attempt, index, expected_sha256 } => (request, (work, (attempt, (index, expected_sha256)))).valid(),
            ResultMessage::GetManifest { request, work, attempt } => (request, (work, attempt)).valid(),
            ResultMessage::ManifestResponse { request, manifest } => (request, manifest).valid(),
        }
    }

    open spec fn refusal(&self) -> ErrorCode {
        ErrorCode::FrameError
    }

    open spec fn agrees(&self, other: &Self) -> bool {
        match (*self, *other) {
            (ResultMessage::Read { request: a_request, work: a_work, attempt: a_attempt, index: a_index, expected_sha256: a_expected_sha256 }, ResultMessage::Read { request: b_request, work: b_work, attempt: b_attempt, index: b_index, expected_sha256: b_expected_sha256 }) => (a_request, (a_work, (a_attempt, (a_index, a_expected_sha256)))).agrees(
                &(b_request, (b_work, (b_attempt, (b_index, b_expected_sha256)))),
            ),
            (ResultMessage::GetManifest { request: a_request, work: a_work, attempt: a_attempt }, ResultMessage::GetManifest { request: b_request, work: b_work, attempt: b_attempt }) => (a_request, (a_work, a_attempt)).agrees(
                &(b_request, (b_work, b_attempt)),
            ),
            (ResultMessage::ManifestResponse { request: a_request, manifest: a_manifest }, ResultMessage::ManifestResponse { request: b_request, manifest: b_manifest }) => (a_request, a_manifest).agrees(
                &(b_request, b_manifest),
            ),
            _ => false,
        }
    }

    proof fn valid_shaped(&self) {
        match *self {
            ResultMessage::Read { request, work, attempt, index, expected_sha256 } => (request, (work, (attempt, (index, expected_sha256)))).valid_shaped(),
            ResultMessage::GetManifest { request, work, attempt } => (request, (work, attempt)).valid_shaped(),
            ResultMessage::ManifestResponse { request, manifest } => (request, manifest).valid_shaped(),
        }
    }

    proof fn prefix_free(a: &Self, b: &Self, x: Seq<u8>, y: Seq<u8>) {
        wire::lemma_message_prefix(
            (a.arity(), a.tag(), a.payload()),
            x,
            (b.arity(), b.tag(), b.payload()),
            y,
        );
        match (*a, *b) {
            (ResultMessage::Read { request: a_request, work: a_work, attempt: a_attempt, index: a_index, expected_sha256: a_expected_sha256 }, ResultMessage::Read { request: b_request, work: b_work, attempt: b_attempt, index: b_index, expected_sha256: b_expected_sha256 }) => <(Id, (WorkKey, (Id, (OutputIndex, Digest))))>::prefix_free(
                &(a_request, (a_work, (a_attempt, (a_index, a_expected_sha256)))),
                &(b_request, (b_work, (b_attempt, (b_index, b_expected_sha256)))),
                x,
                y,
            ),
            (ResultMessage::GetManifest { request: a_request, work: a_work, attempt: a_attempt }, ResultMessage::GetManifest { request: b_request, work: b_work, attempt: b_attempt }) => <(Id, (WorkKey, Id))>::prefix_free(
                &(a_request, (a_work, a_attempt)),
                &(b_request, (b_work, b_attempt)),
                x,
                y,
            ),
            (ResultMessage::ManifestResponse { request: a_request, manifest: a_manifest }, ResultMessage::ManifestResponse { request: b_request, manifest: b_manifest }) => <(Id, Manifest)>::prefix_free(
                &(a_request, a_manifest),
                &(b_request, b_manifest),
                x,
                y,
            ),
            _ => {},
        }
    }

    proof fn agrees_reflexive(&self) {
        match *self {
            ResultMessage::Read { request, work, attempt, index, expected_sha256 } => (request, (work, (attempt, (index, expected_sha256)))).agrees_reflexive(),
            ResultMessage::GetManifest { request, work, attempt } => (request, (work, attempt)).agrees_reflexive(),
            ResultMessage::ManifestResponse { request, manifest } => (request, manifest).agrees_reflexive(),
        }
    }

    proof fn agrees_carries(a: &Self, b: &Self) {
        match (*a, *b) {
            (ResultMessage::Read { request: a_request, work: a_work, attempt: a_attempt, index: a_index, expected_sha256: a_expected_sha256 }, ResultMessage::Read { request: b_request, work: b_work, attempt: b_attempt, index: b_index, expected_sha256: b_expected_sha256 }) => {
                <(Id, (WorkKey, (Id, (OutputIndex, Digest))))>::agrees_carries(
                    &(a_request, (a_work, (a_attempt, (a_index, a_expected_sha256)))),
                    &(b_request, (b_work, (b_attempt, (b_index, b_expected_sha256)))),
                );
            },
            (ResultMessage::GetManifest { request: a_request, work: a_work, attempt: a_attempt }, ResultMessage::GetManifest { request: b_request, work: b_work, attempt: b_attempt }) => {
                <(Id, (WorkKey, Id))>::agrees_carries(
                    &(a_request, (a_work, a_attempt)),
                    &(b_request, (b_work, b_attempt)),
                );
            },
            (ResultMessage::ManifestResponse { request: a_request, manifest: a_manifest }, ResultMessage::ManifestResponse { request: b_request, manifest: b_manifest }) => {
                <(Id, Manifest)>::agrees_carries(
                    &(a_request, a_manifest),
                    &(b_request, b_manifest),
                );
            },
            _ => {},
        }
    }

    fn check(&self) -> (r: Result<(), Error>) {
        match self {
            ResultMessage::Read { request, work, attempt, index, expected_sha256 } => {
                request.check()?;
                work.check()?;
                attempt.check()?;
                index.check()?;
                expected_sha256.check()?;
                Ok(())
            },
            ResultMessage::GetManifest { request, work, attempt } => {
                request.check()?;
                work.check()?;
                attempt.check()?;
                Ok(())
            },
            ResultMessage::ManifestResponse { request, manifest } => {
                request.check()?;
                manifest.check()?;
                Ok(())
            },
        }
    }

    fn same(&self, other: &Self) -> (r: bool) {
        match (self, other) {
            (ResultMessage::Read { request: a_request, work: a_work, attempt: a_attempt, index: a_index, expected_sha256: a_expected_sha256 }, ResultMessage::Read { request: b_request, work: b_work, attempt: b_attempt, index: b_index, expected_sha256: b_expected_sha256 }) => a_request.same(b_request) && a_work.same(b_work) && a_attempt.same(b_attempt) && a_index.same(b_index) && a_expected_sha256.same(b_expected_sha256),
            (ResultMessage::GetManifest { request: a_request, work: a_work, attempt: a_attempt }, ResultMessage::GetManifest { request: b_request, work: b_work, attempt: b_attempt }) => a_request.same(b_request) && a_work.same(b_work) && a_attempt.same(b_attempt),
            (ResultMessage::ManifestResponse { request: a_request, manifest: a_manifest }, ResultMessage::ManifestResponse { request: b_request, manifest: b_manifest }) => a_request.same(b_request) && a_manifest.same(b_manifest),
            _ => false,
        }
    }

    fn duplicate(&self) -> (r: Self) {
        match self {
            ResultMessage::Read { request, work, attempt, index, expected_sha256 } => ResultMessage::Read {
                request: request.duplicate(),
                work: work.duplicate(),
                attempt: attempt.duplicate(),
                index: index.duplicate(),
                expected_sha256: expected_sha256.duplicate(),
            },
            ResultMessage::GetManifest { request, work, attempt } => ResultMessage::GetManifest {
                request: request.duplicate(),
                work: work.duplicate(),
                attempt: attempt.duplicate(),
            },
            ResultMessage::ManifestResponse { request, manifest } => ResultMessage::ManifestResponse {
                request: request.duplicate(),
                manifest: manifest.duplicate(),
            },
        }
    }

    fn write(&self, w: &mut Writer) {
        match self {
            ResultMessage::Read { request, work, attempt, index, expected_sha256 } => {
                w.array(6);
                w.uint(0);
                request.write(w);
                work.write(w);
                attempt.write(w);
                index.write(w);
                expected_sha256.write(w);
                proof {
                    broadcast use wire::lemma_concat_assoc;

                    assert(w@ == old(w)@ + self.wire());
                }
            },
            ResultMessage::GetManifest { request, work, attempt } => {
                w.array(4);
                w.uint(1);
                request.write(w);
                work.write(w);
                attempt.write(w);
                proof {
                    broadcast use wire::lemma_concat_assoc;

                    assert(w@ == old(w)@ + self.wire());
                }
            },
            ResultMessage::ManifestResponse { request, manifest } => {
                w.array(3);
                w.uint(2);
                request.write(w);
                manifest.write(w);
                proof {
                    broadcast use wire::lemma_concat_assoc;

                    assert(w@ == old(w)@ + self.wire());
                }
            },
        }
    }

    fn read(bytes: &[u8], pos: usize) -> (r: Result<(Self, usize), Error>) {
        let ghost b = bytes@;
        proof {
            assert forall|v: ResultMessage|
                v.shaped() && #[trigger] cbor::at(b, pos as int, v.wire()) implies v.opens(b, pos as int) by {
                v.lemma_opens(b, pos as int);
            }
        }
        let (count, middle) = match get_array(bytes, pos) {
            Some(o) => o,
            None => return Err(malformed()),
        };
        let (tag, body) = read_uint(bytes, middle)?;
        match tag {
            0 => {
                require(count == Some(6), "wrong message cardinality")?;
                let (fields, next) = <(Id, (WorkKey, (Id, (OutputIndex, Digest))))>::read(bytes, body)?;
                let (request, (work, (attempt, (index, expected_sha256)))) = fields;
                Ok((ResultMessage::Read { request, work, attempt, index, expected_sha256 }, next))
            },
            1 => {
                require(count == Some(4), "wrong message cardinality")?;
                let (fields, next) = <(Id, (WorkKey, Id))>::read(bytes, body)?;
                let (request, (work, attempt)) = fields;
                Ok((ResultMessage::GetManifest { request, work, attempt }, next))
            },
            2 => {
                require(count == Some(3), "wrong message cardinality")?;
                let (fields, next) = <(Id, Manifest)>::read(bytes, body)?;
                let (request, manifest) = fields;
                Ok((ResultMessage::ManifestResponse { request, manifest }, next))
            },
            _ => Err(Error::frame("unknown message discriminant")),
        }
    }
}

impl ResultMessage {
    /// The value stands at `p`: its array head, its tag and its fields, one behind the other.
    pub open spec fn opens(self, b: Seq<u8>, p: int) -> bool {
        let middle = p + cbor::head(4, self.arity()).len();
        let body = middle + cbor::head(0, self.tag()).len();
        &&& 0 <= p < b.len()
        &&& cbor::major_at(b, p) == 4
        &&& b[p] != 0x9f
        &&& cbor::argument(b, p) == Some((self.arity(), middle))
        &&& cbor::at(b, middle, cbor::head(0, self.tag()))
        &&& cbor::at(b, body, self.payload())
        &&& body + self.payload().len() == p + self.wire().len()
    }

    proof fn lemma_opens(self, b: Seq<u8>, p: int)
        requires
            cbor::at(b, p, self.wire()),
        ensures
            self.opens(b, p),
    {
        let rest = cbor::head(0, self.tag()) + self.payload();
        cbor::lemma_at_concat(b, p, cbor::head(4, self.arity()), rest);
        cbor::lemma_head_at(b, p, 4, self.arity());
        cbor::lemma_at_concat(
            b,
            p + cbor::head(4, self.arity()).len(),
            cbor::head(0, self.tag()),
            self.payload(),
        );
    }
}

impl Solid for ResultMessage {
    proof fn solid(&self) {
        cbor::lemma_head(4, self.arity());
        assert(self.wire()[0] == cbor::head(4, self.arity())[0]);
    }

    proof fn plain(&self) {
    }
}

/// The end of a session or of a connection.
#[derive(Debug, Clone, PartialEq, Eq)]
pub enum Drain {
    Complete { request: Id, generation: Id, root_summary: ScopeSummary },
    Completed { request: Id, generation: Id, root_summary: ScopeSummary },
    Detach { request: Id },
    Detached { request: Id },
}

impl Drain {
    /// The number that announces the variant.
    pub open spec fn tag(self) -> nat {
        match self {
            Drain::Complete { .. } => 0,
            Drain::Completed { .. } => 1,
            Drain::Detach { .. } => 2,
            Drain::Detached { .. } => 3,
        }
    }

    /// The number of elements of the encoded array.
    pub open spec fn arity(self) -> nat {
        match self {
            Drain::Complete { .. } => 4,
            Drain::Completed { .. } => 4,
            Drain::Detach { .. } => 2,
            Drain::Detached { .. } => 2,
        }
    }

    /// The encoding of the fields.
    pub open spec fn payload(self) -> Seq<u8> {
        match self {
            Drain::Complete { request, generation, root_summary } => (request, (generation, root_summary)).wire(),
            Drain::Completed { request, generation, root_summary } => (request, (generation, root_summary)).wire(),
            Drain::Detach { request } => request.wire(),
            Drain::Detached { request } => request.wire(),
        }
    }
}

impl Wire for Drain {
    open spec fn wire(&self) -> Seq<u8> {
        cbor::head(4, self.arity()) + (cbor::head(0, self.tag()) + self.payload())
    }

    open spec fn shaped(&self) -> bool {
        match *self {
            Drain::Complete { request, generation, root_summary } => (request, (generation, root_summary)).shaped(),
            Drain::Completed { request, generation, root_summary } => (request, (generation, root_summary)).shaped(),
            Drain::Detach { request } => request.shaped(),
            Drain::Detached { request } => request.shaped(),
        }
    }

    open spec fn valid(&self) -> bool {
        match *self {
            Drain::Complete { request, generation, root_summary } => (request, (generation, root_summary)).valid(),
            Drain::Completed { request, generation, root_summary } => (request, (generation, root_summary)).valid(),
            Drain::Detach { request } => request.valid(),
            Drain::Detached { request } => request.valid(),
        }
    }

    open spec fn refusal(&self) -> ErrorCode {
        ErrorCode::FrameError
    }

    open spec fn agrees(&self, other: &Self) -> bool {
        match (*self, *other) {
            (Drain::Complete { request: a_request, generation: a_generation, root_summary: a_root_summary }, Drain::Complete { request: b_request, generation: b_generation, root_summary: b_root_summary }) => (a_request, (a_generation, a_root_summary)).agrees(
                &(b_request, (b_generation, b_root_summary)),
            ),
            (Drain::Completed { request: a_request, generation: a_generation, root_summary: a_root_summary }, Drain::Completed { request: b_request, generation: b_generation, root_summary: b_root_summary }) => (a_request, (a_generation, a_root_summary)).agrees(
                &(b_request, (b_generation, b_root_summary)),
            ),
            (Drain::Detach { request: a_request }, Drain::Detach { request: b_request }) => a_request.agrees(
                &b_request,
            ),
            (Drain::Detached { request: a_request }, Drain::Detached { request: b_request }) => a_request.agrees(
                &b_request,
            ),
            _ => false,
        }
    }

    proof fn valid_shaped(&self) {
        match *self {
            Drain::Complete { request, generation, root_summary } => (request, (generation, root_summary)).valid_shaped(),
            Drain::Completed { request, generation, root_summary } => (request, (generation, root_summary)).valid_shaped(),
            Drain::Detach { request } => request.valid_shaped(),
            Drain::Detached { request } => request.valid_shaped(),
        }
    }

    proof fn prefix_free(a: &Self, b: &Self, x: Seq<u8>, y: Seq<u8>) {
        wire::lemma_message_prefix(
            (a.arity(), a.tag(), a.payload()),
            x,
            (b.arity(), b.tag(), b.payload()),
            y,
        );
        match (*a, *b) {
            (Drain::Complete { request: a_request, generation: a_generation, root_summary: a_root_summary }, Drain::Complete { request: b_request, generation: b_generation, root_summary: b_root_summary }) => <(Id, (Id, ScopeSummary))>::prefix_free(
                &(a_request, (a_generation, a_root_summary)),
                &(b_request, (b_generation, b_root_summary)),
                x,
                y,
            ),
            (Drain::Completed { request: a_request, generation: a_generation, root_summary: a_root_summary }, Drain::Completed { request: b_request, generation: b_generation, root_summary: b_root_summary }) => <(Id, (Id, ScopeSummary))>::prefix_free(
                &(a_request, (a_generation, a_root_summary)),
                &(b_request, (b_generation, b_root_summary)),
                x,
                y,
            ),
            (Drain::Detach { request: a_request }, Drain::Detach { request: b_request }) => <Id>::prefix_free(
                &a_request,
                &b_request,
                x,
                y,
            ),
            (Drain::Detached { request: a_request }, Drain::Detached { request: b_request }) => <Id>::prefix_free(
                &a_request,
                &b_request,
                x,
                y,
            ),
            _ => {},
        }
    }

    proof fn agrees_reflexive(&self) {
        match *self {
            Drain::Complete { request, generation, root_summary } => (request, (generation, root_summary)).agrees_reflexive(),
            Drain::Completed { request, generation, root_summary } => (request, (generation, root_summary)).agrees_reflexive(),
            Drain::Detach { request } => request.agrees_reflexive(),
            Drain::Detached { request } => request.agrees_reflexive(),
        }
    }

    proof fn agrees_carries(a: &Self, b: &Self) {
        match (*a, *b) {
            (Drain::Complete { request: a_request, generation: a_generation, root_summary: a_root_summary }, Drain::Complete { request: b_request, generation: b_generation, root_summary: b_root_summary }) => {
                <(Id, (Id, ScopeSummary))>::agrees_carries(
                    &(a_request, (a_generation, a_root_summary)),
                    &(b_request, (b_generation, b_root_summary)),
                );
            },
            (Drain::Completed { request: a_request, generation: a_generation, root_summary: a_root_summary }, Drain::Completed { request: b_request, generation: b_generation, root_summary: b_root_summary }) => {
                <(Id, (Id, ScopeSummary))>::agrees_carries(
                    &(a_request, (a_generation, a_root_summary)),
                    &(b_request, (b_generation, b_root_summary)),
                );
            },
            (Drain::Detach { request: a_request }, Drain::Detach { request: b_request }) => {
                <Id>::agrees_carries(
                    &a_request,
                    &b_request,
                );
            },
            (Drain::Detached { request: a_request }, Drain::Detached { request: b_request }) => {
                <Id>::agrees_carries(
                    &a_request,
                    &b_request,
                );
            },
            _ => {},
        }
    }

    fn check(&self) -> (r: Result<(), Error>) {
        match self {
            Drain::Complete { request, generation, root_summary } => {
                request.check()?;
                generation.check()?;
                root_summary.check()?;
                Ok(())
            },
            Drain::Completed { request, generation, root_summary } => {
                request.check()?;
                generation.check()?;
                root_summary.check()?;
                Ok(())
            },
            Drain::Detach { request } => {
                request.check()?;
                Ok(())
            },
            Drain::Detached { request } => {
                request.check()?;
                Ok(())
            },
        }
    }

    fn same(&self, other: &Self) -> (r: bool) {
        match (self, other) {
            (Drain::Complete { request: a_request, generation: a_generation, root_summary: a_root_summary }, Drain::Complete { request: b_request, generation: b_generation, root_summary: b_root_summary }) => a_request.same(b_request) && a_generation.same(b_generation) && a_root_summary.same(b_root_summary),
            (Drain::Completed { request: a_request, generation: a_generation, root_summary: a_root_summary }, Drain::Completed { request: b_request, generation: b_generation, root_summary: b_root_summary }) => a_request.same(b_request) && a_generation.same(b_generation) && a_root_summary.same(b_root_summary),
            (Drain::Detach { request: a_request }, Drain::Detach { request: b_request }) => a_request.same(b_request),
            (Drain::Detached { request: a_request }, Drain::Detached { request: b_request }) => a_request.same(b_request),
            _ => false,
        }
    }

    fn duplicate(&self) -> (r: Self) {
        match self {
            Drain::Complete { request, generation, root_summary } => Drain::Complete {
                request: request.duplicate(),
                generation: generation.duplicate(),
                root_summary: root_summary.duplicate(),
            },
            Drain::Completed { request, generation, root_summary } => Drain::Completed {
                request: request.duplicate(),
                generation: generation.duplicate(),
                root_summary: root_summary.duplicate(),
            },
            Drain::Detach { request } => Drain::Detach {
                request: request.duplicate(),
            },
            Drain::Detached { request } => Drain::Detached {
                request: request.duplicate(),
            },
        }
    }

    fn write(&self, w: &mut Writer) {
        match self {
            Drain::Complete { request, generation, root_summary } => {
                w.array(4);
                w.uint(0);
                request.write(w);
                generation.write(w);
                root_summary.write(w);
                proof {
                    broadcast use wire::lemma_concat_assoc;

                    assert(w@ == old(w)@ + self.wire());
                }
            },
            Drain::Completed { request, generation, root_summary } => {
                w.array(4);
                w.uint(1);
                request.write(w);
                generation.write(w);
                root_summary.write(w);
                proof {
                    broadcast use wire::lemma_concat_assoc;

                    assert(w@ == old(w)@ + self.wire());
                }
            },
            Drain::Detach { request } => {
                w.array(2);
                w.uint(2);
                request.write(w);
                proof {
                    broadcast use wire::lemma_concat_assoc;

                    assert(w@ == old(w)@ + self.wire());
                }
            },
            Drain::Detached { request } => {
                w.array(2);
                w.uint(3);
                request.write(w);
                proof {
                    broadcast use wire::lemma_concat_assoc;

                    assert(w@ == old(w)@ + self.wire());
                }
            },
        }
    }

    fn read(bytes: &[u8], pos: usize) -> (r: Result<(Self, usize), Error>) {
        let ghost b = bytes@;
        proof {
            assert forall|v: Drain|
                v.shaped() && #[trigger] cbor::at(b, pos as int, v.wire()) implies v.opens(b, pos as int) by {
                v.lemma_opens(b, pos as int);
            }
        }
        let (count, middle) = match get_array(bytes, pos) {
            Some(o) => o,
            None => return Err(malformed()),
        };
        let (tag, body) = read_uint(bytes, middle)?;
        match tag {
            0 => {
                require(count == Some(4), "wrong message cardinality")?;
                let (fields, next) = <(Id, (Id, ScopeSummary))>::read(bytes, body)?;
                let (request, (generation, root_summary)) = fields;
                Ok((Drain::Complete { request, generation, root_summary }, next))
            },
            1 => {
                require(count == Some(4), "wrong message cardinality")?;
                let (fields, next) = <(Id, (Id, ScopeSummary))>::read(bytes, body)?;
                let (request, (generation, root_summary)) = fields;
                Ok((Drain::Completed { request, generation, root_summary }, next))
            },
            2 => {
                require(count == Some(2), "wrong message cardinality")?;
                let (fields, next) = <Id>::read(bytes, body)?;
                let request = fields;
                Ok((Drain::Detach { request }, next))
            },
            3 => {
                require(count == Some(2), "wrong message cardinality")?;
                let (fields, next) = <Id>::read(bytes, body)?;
                let request = fields;
                Ok((Drain::Detached { request }, next))
            },
            _ => Err(Error::frame("unknown message discriminant")),
        }
    }
}

impl Drain {
    /// The value stands at `p`: its array head, its tag and its fields, one behind the other.
    pub open spec fn opens(self, b: Seq<u8>, p: int) -> bool {
        let middle = p + cbor::head(4, self.arity()).len();
        let body = middle + cbor::head(0, self.tag()).len();
        &&& 0 <= p < b.len()
        &&& cbor::major_at(b, p) == 4
        &&& b[p] != 0x9f
        &&& cbor::argument(b, p) == Some((self.arity(), middle))
        &&& cbor::at(b, middle, cbor::head(0, self.tag()))
        &&& cbor::at(b, body, self.payload())
        &&& body + self.payload().len() == p + self.wire().len()
    }

    proof fn lemma_opens(self, b: Seq<u8>, p: int)
        requires
            cbor::at(b, p, self.wire()),
        ensures
            self.opens(b, p),
    {
        let rest = cbor::head(0, self.tag()) + self.payload();
        cbor::lemma_at_concat(b, p, cbor::head(4, self.arity()), rest);
        cbor::lemma_head_at(b, p, 4, self.arity());
        cbor::lemma_at_concat(
            b,
            p + cbor::head(4, self.arity()).len(),
            cbor::head(0, self.tag()),
            self.payload(),
        );
    }
}

impl Solid for Drain {
    proof fn solid(&self) {
        cbor::lemma_head(4, self.arity());
        assert(self.wire()[0] == cbor::head(4, self.arity())[0]);
    }

    proof fn plain(&self) {
    }
}

/// One frame of the control stream.
#[derive(Debug, Clone, PartialEq, Eq)]
pub enum Control {
    Capabilities(Capabilities),
    Session(Session),
    Scope(Scope),
    Work(Work),
    Result(ResultMessage),
    Drain(Drain),
    Refusal(Refusal),
    /// Opaque bounded bytes, not parsed CBOR or an activated extension.
    Ignorable { frame_type: u8, body: Vec<u8> },
}

/// The number in four big-endian octets.
fn be_u32(a: u8, b: u8, c: u8, d: u8) -> (r: u32)
    ensures
        r == cbor::be_value(seq![a, b, c, d]),
{
    proof {
        reveal_with_fuel(cbor::be_value, 5);
        let s = seq![a, b, c, d];
        assert(s.drop_last() =~= seq![a, b, c]);
        assert(seq![a, b, c].drop_last() =~= seq![a, b]);
        assert(seq![a, b].drop_last() =~= seq![a]);
        assert(seq![a].drop_last() =~= Seq::<u8>::empty());
    }
    ((a as u32 * 256 + b as u32) * 256 + c as u32) * 256 + d as u32
}

fn push_be_u32(out: &mut Vec<u8>, n: u32)
    ensures
        final(out)@ == old(out)@ + cbor::be_bytes(n as nat, 4),
{
    out.push((n / 0x100_0000) as u8);
    out.push((n / 0x1_0000 % 256) as u8);
    out.push((n / 0x100 % 256) as u8);
    out.push((n % 256) as u8);
    proof {
        reveal_with_fuel(cbor::be_bytes, 5);
        assert(n as nat / 256 / 256 == n as nat / 0x1_0000);
        assert(n as nat / 256 / 256 / 256 == n as nat / 0x100_0000);
        assert(out@ =~= old(out)@ + cbor::be_bytes(n as nat, 4));
    }
}

/// The octets of a frame: its type, the length of its body in four octets, and the body.
pub open spec fn framed(frame_type: u8, body: Seq<u8>) -> Seq<u8> {
    seq![frame_type] + cbor::be_bytes(body.len(), 4) + body
}

/// The largest body that a frame of the given type may have.
pub open spec fn body_bound(frame_type: u8, limit: usize) -> usize {
    if frame_type == 1 {
        INITIAL_CONTROL_LIMIT
    } else {
        limit
    }
}

pub open spec fn limit_in_range(limit: usize) -> bool {
    INITIAL_CONTROL_LIMIT <= limit <= MAX_CONTROL_LIMIT
}

/// The octets are one whole frame whose body keeps to its bound.
pub open spec fn well_framed(frame: Seq<u8>, limit: usize) -> bool {
    &&& frame.len() >= 5
    &&& limit_in_range(limit)
    &&& cbor::be_value(frame.subrange(1, 5)) == frame.len() - 5
    &&& frame.len() - 5 <= body_bound(frame[0], limit)
}

/// What the first five octets of a control frame announce: the length of its body, where it keeps to its
/// bound. Before the negotiation only capabilities come.
pub open spec fn body_announced(
    prefix: Seq<u8>,
    negotiated_limit: Option<usize>,
    r: Result<usize, Error>,
) -> bool {
    let limit = match negotiated_limit {
        Some(n) => n,
        None => INITIAL_CONTROL_LIMIT,
    };
    let length = cbor::be_value(prefix.subrange(1, 5));
    let accepted = (negotiated_limit is None ==> prefix[0] == 1) && limit_in_range(limit) && length
        <= body_bound(prefix[0], limit);
    match r {
        Ok(n) => accepted && n == length,
        Err(e) => !accepted && e.code == ErrorCode::FrameError,
    }
}

/// Why a frame that decodes to nothing is refused.
pub open spec fn frame_refusal(frame: Seq<u8>, limit: usize) -> ErrorCode {
    if well_framed(frame, limit) && frame[0] == 1 {
        wire::decode_refusal::<Capabilities>(frame.subrange(5, frame.len() as int))
    } else if well_framed(frame, limit) && frame[0] >= 0xc0 {
        ErrorCode::ExtensionUnsupported
    } else {
        ErrorCode::FrameError
    }
}

proof fn lemma_framed(frame_type: u8, body: Seq<u8>, limit: usize)
    requires
        limit_in_range(limit),
        body.len() <= body_bound(frame_type, limit),
    ensures
        well_framed(framed(frame_type, body), limit),
        framed(frame_type, body)[0] == frame_type,
        framed(frame_type, body).subrange(5, framed(frame_type, body).len() as int) == body,
{
    cbor::lemma_octet_ranges();
    cbor::lemma_be_bytes(body.len(), 4);
    let f = framed(frame_type, body);
    assert(f.subrange(1, 5) =~= cbor::be_bytes(body.len(), 4));
    assert(f.subrange(5, f.len() as int) =~= body);
}

proof fn lemma_be_value_bytes(s: Seq<u8>)
    ensures
        cbor::be_bytes(cbor::be_value(s), s.len()) == s,
    decreases s.len(),
{
    if s.len() > 0 {
        lemma_be_value_bytes(s.drop_last());
        let n = cbor::be_value(s);
        assert(n / 256 == cbor::be_value(s.drop_last())) by (nonlinear_arith)
            requires
                n == cbor::be_value(s.drop_last()) * 256 + s.last() as nat,
                s.last() < 256,
        ;
        assert(n % 256 == s.last() as nat) by (nonlinear_arith)
            requires
                n == cbor::be_value(s.drop_last()) * 256 + s.last() as nat,
                s.last() < 256,
        ;
        assert(cbor::be_bytes(n, s.len()) =~= s.drop_last().push(s.last()));
    } else {
        assert(cbor::be_bytes(0, 0) =~= s);
    }
}

proof fn lemma_well_framed(frame: Seq<u8>, limit: usize)
    requires
        well_framed(frame, limit),
    ensures
        framed(frame[0], frame.subrange(5, frame.len() as int)) == frame,
{
    let body = frame.subrange(5, frame.len() as int);
    lemma_be_value_bytes(frame.subrange(1, 5));
    assert(framed(frame[0], body) =~= frame);
}

impl Control {
    pub open spec fn type_code(self) -> u8 {
        match self {
            Control::Capabilities(_) => 1,
            Control::Session(_) => 2,
            Control::Scope(_) => 3,
            Control::Work(_) => 4,
            Control::Result(_) => 5,
            Control::Drain(_) => 6,
            Control::Refusal(_) => 7,
            Control::Ignorable { frame_type, .. } => frame_type,
        }
    }

    /// The octets behind the frame header.
    pub open spec fn body_wire(self) -> Seq<u8> {
        match self {
            Control::Capabilities(v) => v.wire(),
            Control::Session(v) => v.wire(),
            Control::Scope(v) => v.wire(),
            Control::Work(v) => v.wire(),
            Control::Result(v) => v.wire(),
            Control::Drain(v) => v.wire(),
            Control::Refusal(v) => v.wire(),
            Control::Ignorable { body, .. } => body@,
        }
    }

    /// The message obeys every context-free rule.
    pub open spec fn sound(self) -> bool {
        match self {
            Control::Capabilities(v) => v.valid(),
            Control::Session(v) => v.valid(),
            Control::Scope(v) => v.valid(),
            Control::Work(v) => v.valid(),
            Control::Result(v) => v.valid(),
            Control::Drain(v) => v.valid(),
            Control::Refusal(v) => v.valid(),
            Control::Ignorable { frame_type, .. } => 0x80 <= frame_type <= 0xbf,
        }
    }

    /// The message may be sent under the limit.
    pub open spec fn sendable(self, limit: usize) -> bool {
        &&& limit_in_range(limit)
        &&& self.sound()
        &&& self.body_wire().len() <= body_bound(self.type_code(), limit)
    }

    pub open spec fn frame_wire(self) -> Seq<u8> {
        framed(self.type_code(), self.body_wire())
    }

    /// The two messages hold the same contents.
    pub open spec fn agrees(self, other: Control) -> bool {
        match (self, other) {
            (Control::Capabilities(a), Control::Capabilities(b)) => a.agrees(&b),
            (Control::Session(a), Control::Session(b)) => a.agrees(&b),
            (Control::Scope(a), Control::Scope(b)) => a.agrees(&b),
            (Control::Work(a), Control::Work(b)) => a.agrees(&b),
            (Control::Result(a), Control::Result(b)) => a.agrees(&b),
            (Control::Drain(a), Control::Drain(b)) => a.agrees(&b),
            (Control::Refusal(a), Control::Refusal(b)) => a.agrees(&b),
            (
                Control::Ignorable { frame_type: a, body: x },
                Control::Ignorable { frame_type: b, body: y },
            ) => a == b && x@ == y@,
            _ => false,
        }
    }

    pub fn frame_type(&self) -> (r: u8)
        ensures
            r == self.type_code(),
    {
        match self {
            Control::Capabilities(_) => 1,
            Control::Session(_) => 2,
            Control::Scope(_) => 3,
            Control::Work(_) => 4,
            Control::Result(_) => 5,
            Control::Drain(_) => 6,
            Control::Refusal(_) => 7,
            Control::Ignorable { frame_type, .. } => *frame_type,
        }
    }

    pub fn duplicate(&self) -> (r: Self)
        ensures
            r.agrees(*self),
            self.agrees(r),
    {
        match self {
            Control::Capabilities(v) => Control::Capabilities(v.duplicate()),
            Control::Session(v) => Control::Session(v.duplicate()),
            Control::Scope(v) => Control::Scope(v.duplicate()),
            Control::Work(v) => Control::Work(v.duplicate()),
            Control::Result(v) => Control::Result(v.duplicate()),
            Control::Drain(v) => Control::Drain(v.duplicate()),
            Control::Refusal(v) => Control::Refusal(v.duplicate()),
            Control::Ignorable { frame_type, body } => {
                let mut copy: Vec<u8> = Vec::new();
                push_all(&mut copy, body.as_slice());
                assert(copy@ =~= body@);
                Control::Ignorable { frame_type: *frame_type, body: copy }
            },
        }
    }

    /// Decodes exactly one frame. The caller supplies the negotiated body limit; a capabilities
    /// frame always retains the initial bound.
    #[verifier::spinoff_prover]
    #[verifier::rlimit(80)]
    pub fn decode(frame: &[u8], limit: usize) -> (r: Result<Self, Error>)
        ensures
            match r {
                Ok(c) => c.sendable(limit) && c.frame_wire() == frame@,
                Err(e) => {
                    &&& e.code == frame_refusal(frame@, limit)
                    &&& forall|c: Control|
                        #![trigger c.frame_wire()]
                        !(c.sendable(limit) && c.frame_wire() == frame@)
                },
            },
    {
        proof {
            assert forall|c: Control|
                #![trigger c.frame_wire()]
                c.sendable(limit) && c.frame_wire() == frame@ implies well_framed(frame@, limit)
                && frame@[0] == c.type_code() && frame@.subrange(5, frame@.len() as int)
                == c.body_wire() && (c.type_code() <= 7 ==> c.body_wire().len() > 0) by {
                lemma_framed(c.type_code(), c.body_wire(), limit);
                c.lemma_body_nonempty();
            }
            if well_framed(frame@, limit) {
                lemma_well_framed(frame@, limit);
            }
        }
        require(frame.len() >= 5, "truncated control envelope")?;
        let prefix: [u8; 5] = [frame[0], frame[1], frame[2], frame[3], frame[4]];
        assert(prefix@.subrange(1, 5) =~= frame@.subrange(1, 5));
        let length = control_body_length(prefix, Some(limit))?;
        require(
            length <= limit && frame.len() - 5 == length,
            "control length mismatch or bound",
        )?;
        assert(well_framed(frame@, limit));
        let body = vstd::slice::slice_subrange(frame, 5, frame.len());
        proof {
            lemma_plain_refusal::<Session>(body@);
            lemma_plain_refusal::<Scope>(body@);
            lemma_plain_refusal::<Work>(body@);
            lemma_plain_refusal::<ResultMessage>(body@);
            lemma_plain_refusal::<Drain>(body@);
            lemma_plain_refusal::<Refusal>(body@);
        }
        match frame[0] {
            1 => match decode(body, INITIAL_CONTROL_LIMIT) {
                Ok(v) => Ok(Control::Capabilities(v)),
                Err(e) => Err(e),
            },
            2 => match decode(body, limit) {
                Ok(v) => Ok(Control::Session(v)),
                Err(e) => Err(e),
            },
            3 => match decode(body, limit) {
                Ok(v) => Ok(Control::Scope(v)),
                Err(e) => Err(e),
            },
            4 => match decode(body, limit) {
                Ok(v) => Ok(Control::Work(v)),
                Err(e) => Err(e),
            },
            5 => match decode(body, limit) {
                Ok(v) => Ok(Control::Result(v)),
                Err(e) => Err(e),
            },
            6 => match decode(body, limit) {
                Ok(v) => Ok(Control::Drain(v)),
                Err(e) => Err(e),
            },
            7 => match decode(body, limit) {
                Ok(v) => Ok(Control::Refusal(v)),
                Err(e) => Err(e),
            },
            t => {
                if 0x80 <= t && t <= 0xbf {
                    let mut copy: Vec<u8> = Vec::new();
                    push_all(&mut copy, body);
                    assert(copy@ =~= body@);
                    Ok(Control::Ignorable { frame_type: t, body: copy })
                } else if t >= 0xc0 {
                    Err(
                        Error::new(
                            ErrorCode::ExtensionUnsupported,
                            "private frame profile not activated",
                        ),
                    )
                } else {
                    Err(Error::frame("unknown required control type"))
                }
            },
        }
    }

    proof fn lemma_body_nonempty(self)
        requires
            self.sound(),
        ensures
            self.type_code() <= 7 ==> self.body_wire().len() > 0,
    {
        match self {
            Control::Capabilities(v) => {
                cbor::lemma_head(4, 9);
            },
            Control::Session(v) => {
                v.valid_shaped();
                v.solid();
            },
            Control::Scope(v) => {
                v.valid_shaped();
                v.solid();
            },
            Control::Work(v) => {
                v.valid_shaped();
                v.solid();
            },
            Control::Result(v) => {
                v.valid_shaped();
                v.solid();
            },
            Control::Drain(v) => {
                v.valid_shaped();
                v.solid();
            },
            Control::Refusal(v) => {
                v.valid_shaped();
                v.solid();
            },
            Control::Ignorable { .. } => {},
        }
    }

    /// Why a message cannot be sent under the limit.
    pub open spec fn encode_refusal(self, limit: usize) -> ErrorCode {
        match self {
            Control::Capabilities(v) => if limit_in_range(limit) && !v.valid() {
                v.refusal()
            } else {
                ErrorCode::FrameError
            },
            _ => ErrorCode::FrameError,
        }
    }

    pub fn encode(&self, limit: usize) -> (r: Result<Vec<u8>, Error>)
        ensures
            match r {
                Ok(b) => self.sendable(limit) && b@ == self.frame_wire(),
                Err(e) => !self.sendable(limit) && e.code == self.encode_refusal(limit),
            },
    {
        require(
            INITIAL_CONTROL_LIMIT <= limit && limit <= MAX_CONTROL_LIMIT,
            "invalid control limit",
        )?;
        let body = match self {
            Control::Capabilities(v) => encode(v, INITIAL_CONTROL_LIMIT)?,
            Control::Session(v) => encode(v, limit)?,
            Control::Scope(v) => encode(v, limit)?,
            Control::Work(v) => encode(v, limit)?,
            Control::Result(v) => encode(v, limit)?,
            Control::Drain(v) => encode(v, limit)?,
            Control::Refusal(v) => encode(v, limit)?,
            Control::Ignorable { frame_type, body } => {
                require(
                    0x80 <= *frame_type && *frame_type <= 0xbf && body.len() <= limit,
                    "invalid ignorable frame",
                )?;
                let mut copy: Vec<u8> = Vec::new();
                push_all(&mut copy, body.as_slice());
                assert(copy@ =~= body@);
                copy
            },
        };
        let mut frame: Vec<u8> = Vec::with_capacity(body.len() + 5);
        frame.push(self.frame_type());
        push_be_u32(&mut frame, body.len() as u32);
        push_all(&mut frame, body.as_slice());
        assert(frame@ =~= self.frame_wire());
        Ok(frame)
    }

    /// The message is one that the client sends.
    pub open spec fn from_client(self) -> bool {
        match self {
            Control::Session(s) => s is Create || s is Attach || s is NextSequence,
            Control::Scope(s) => s is Declare || s is Page || s is Checkpoint || s is Cancel,
            Control::Work(w) => w is Operation || w is Watch || w is Retry || w is Cancel
                || w is Skip,
            Control::Result(r) => !(r is ManifestResponse),
            Control::Drain(d) => d is Complete || d is Detach,
            _ => false,
        }
    }

    pub open spec fn needs_durable(self) -> bool {
        match self {
            Control::Session(_) => true,
            Control::Scope(_) => true,
            Control::Work(_) => true,
            Control::Result(_) => true,
            Control::Drain(d) => d is Complete || d is Completed,
            _ => false,
        }
    }

    /// Why the message may not be exchanged in the given direction under the selection, if it
    /// may not.
    pub open spec fn context_refusal(
        self,
        from_client: bool,
        selected: Option<Capabilities>,
    ) -> Option<ErrorCode> {
        match selected {
            None => match self {
                Control::Capabilities(c) => if !c.valid() {
                    Some(c.refusal())
                } else if (c.response.0 == 0) == from_client {
                    None
                } else {
                    Some(ErrorCode::FrameError)
                },
                _ => Some(ErrorCode::FrameError),
            },
            Some(s) => if !s.valid() {
                Some(s.refusal())
            } else if s.response.0 != 1 || self is Capabilities {
                Some(ErrorCode::FrameError)
            } else if self is Ignorable {
                None
            } else if self.from_client() != from_client {
                Some(ErrorCode::FrameError)
            } else if (self.needs_durable() && !s.supports(DURABLE_WORK)) || (self is Result
                && !s.supports(RESULT_DELIVERY)) {
                Some(ErrorCode::ExtensionUnsupported)
            } else {
                match self {
                    Control::Work(Work::View { work, .. }) => if (*work).valid() && ((*work).state.0
                        == super::numbers::State::SUCCEEDED ==> ((*work).manifest is Some)
                        == s.supports(RESULT_DELIVERY)) {
                        None
                    } else {
                        Some(ErrorCode::FrameError)
                    },
                    _ => None,
                }
            },
        }
    }

    /// Checks profile and sender direction. Exchange state and correlation are separate from the
    /// body codec; this method never changes durable work.
    pub fn validate_context(&self, from_client: bool, selected: Option<&Capabilities>) -> (r: Result<
        (),
        Error,
    >)
        ensures
            match r {
                Ok(_) => self.context_refusal(from_client, selected.copied_view()) is None,
                Err(e) => self.context_refusal(from_client, selected.copied_view()) == Some(e.code),
            },
    {
        let selected = match selected {
            None => {
                return match self {
                    Control::Capabilities(c) => {
                        c.check()?;
                        require(
                            (c.response.0 == 0) == from_client,
                            "only capabilities permitted before negotiation",
                        )
                    },
                    _ => Err(Error::frame("only capabilities permitted before negotiation")),
                };
            },
            Some(selected) => selected,
        };
        selected.check()?;
        require(selected.response.0 == 1, "selected capabilities must be a response")?;
        let (client_message, needs_durable, needs_results) = match self {
            Control::Capabilities(_) => {
                return Err(Error::frame("duplicate capabilities"));
            },
            Control::Session(s) => (
                matches!(
                    s,
                    Session::Create { .. } | Session::Attach { .. } | Session::NextSequence { .. }
                ),
                true,
                false,
            ),
            Control::Scope(s) => (
                matches!(
                    s,
                    Scope::Declare { .. } | Scope::Page { .. } | Scope::Checkpoint { .. }
                        | Scope::Cancel { .. }
                ),
                true,
                false,
            ),
            Control::Work(w) => (
                matches!(
                    w,
                    Work::Operation { .. } | Work::Watch { .. } | Work::Retry { .. }
                        | Work::Cancel { .. } | Work::Skip { .. }
                ),
                true,
                false,
            ),
            Control::Result(r) => (!matches!(r, ResultMessage::ManifestResponse { .. }), true, true),
            Control::Drain(d) => (
                matches!(d, Drain::Complete { .. } | Drain::Detach { .. }),
                matches!(d, Drain::Complete { .. } | Drain::Completed { .. }),
                false,
            ),
            Control::Refusal(_) => (false, false, false),
            Control::Ignorable { .. } => {
                return Ok(());
            },
        };
        require(client_message == from_client, "wrong control message direction")?;
        if (needs_durable && !selected.has(DURABLE_WORK)) || (needs_results && !selected.has(
            RESULT_DELIVERY,
        )) {
            return Err(
                Error::new(ErrorCode::ExtensionUnsupported, "message profile not selected"),
            );
        }
        match self {
            Control::Work(Work::View { work, .. }) => work.validate_profiles(
                selected.has(RESULT_DELIVERY),
            ),
            _ => Ok(()),
        }
    }
}

/// An optional reference, as an optional value.
pub trait CopiedView {
    type Held;

    spec fn copied_view(self) -> Option<Self::Held>;
}

impl<'a, T> CopiedView for Option<&'a T> {
    type Held = T;

    open spec fn copied_view(self) -> Option<T> {
        match self {
            Some(v) => Some(*v),
            None => None,
        }
    }
}

proof fn lemma_plain_refusal<T: Solid>(bytes: Seq<u8>)
    ensures
        wire::decode_refusal::<T>(bytes) == ErrorCode::FrameError,
{
    if bytes.len() > 0 && exists|v: T| #[trigger] wire::encodes(v, bytes) {
        let v = choose|v: T| #[trigger] wire::encodes(v, bytes);
        v.plain();
    }
}

/// Inspects a control prefix before its body is allocated. A transport supplies no limit before
/// negotiation and the selected limit thereafter.
pub fn control_body_length(prefix: [u8; 5], negotiated_limit: Option<usize>) -> (r: Result<
    usize,
    Error,
>)
    ensures
        body_announced(prefix@, negotiated_limit, r),
{
    let limit: usize = match negotiated_limit {
        Some(n) => n,
        None => {
            require(prefix[0] == 1, "only capabilities permitted before negotiation")?;
            INITIAL_CONTROL_LIMIT
        },
    };
    require(
        INITIAL_CONTROL_LIMIT <= limit && limit <= MAX_CONTROL_LIMIT,
        "invalid control limit",
    )?;
    let bound: usize = if prefix[0] == 1 {
        INITIAL_CONTROL_LIMIT
    } else {
        limit
    };
    let length: usize = be_u32(prefix[1], prefix[2], prefix[3], prefix[4]) as usize;
    assert(prefix@.subrange(1, 5) =~= seq![prefix@[1], prefix@[2], prefix@[3], prefix@[4]]);
    require(length <= bound, "control body exceeds bound")?;
    Ok(length)
}

/// Inspects the four-octet object header length before a receive buffer is allocated.
pub fn object_header_length(prefix: [u8; 4]) -> (r: Result<usize, Error>)
    ensures
        match r {
            Ok(n) => n == cbor::be_value(prefix@) && 1 <= n <= MAX_HEADER,
            Err(e) => !(1 <= cbor::be_value(prefix@) <= MAX_HEADER) && e.code
                == ErrorCode::FrameError,
        },
{
    let length: usize = be_u32(prefix[0], prefix[1], prefix[2], prefix[3]) as usize;
    assert(prefix@ =~= seq![prefix@[0], prefix@[1], prefix@[2], prefix@[3]]);
    require(1 <= length && length <= MAX_HEADER, "object header length out of range")?;
    Ok(length)
}

/// An object header behind its own length in four octets.
pub open spec fn header_framed(body: Seq<u8>) -> Seq<u8> {
    cbor::be_bytes(body.len(), 4) + body
}

fn frame_header(bytes: Vec<u8>) -> (r: Vec<u8>)
    requires
        bytes@.len() <= MAX_HEADER,
    ensures
        r@ == header_framed(bytes@),
{
    let mut header: Vec<u8> = Vec::with_capacity(4 + bytes.len());
    push_be_u32(&mut header, bytes.len() as u32);
    push_all(&mut header, bytes.as_slice());
    assert(header@ =~= header_framed(bytes@));
    header
}

/// The body of a framed object header.
fn unframe_header(header: &[u8]) -> (r: Result<&[u8], Error>)
    ensures
        match r {
            Ok(body) => header@ == header_framed(body@) && 1 <= body@.len() <= MAX_HEADER,
            Err(e) => {
                &&& e.code == ErrorCode::FrameError
                &&& forall|body: Seq<u8>|
                    1 <= body.len() <= MAX_HEADER ==> header@ != #[trigger] header_framed(body)
            },
        },
{
    proof {
        assert forall|body: Seq<u8>|
            1 <= body.len() <= MAX_HEADER && header@ == #[trigger] header_framed(body) implies {
            &&& header@.len() >= 4
            &&& cbor::be_value(header@.subrange(0, 4)) == body.len()
            &&& header@.len() - 4 == body.len()
        } by {
            cbor::lemma_octet_ranges();
            cbor::lemma_be_bytes(body.len(), 4);
            assert(header@.subrange(0, 4) =~= cbor::be_bytes(body.len(), 4));
        }
    }
    require(header.len() >= 4, "truncated header length")?;
    let prefix: [u8; 4] = [header[0], header[1], header[2], header[3]];
    assert(prefix@ =~= header@.subrange(0, 4));
    let length = object_header_length(prefix)?;
    require(header.len() - 4 == length, "header length mismatch")?;
    let body = vstd::slice::slice_subrange(header, 4, header.len());
    proof {
        lemma_be_value_bytes(prefix@);
        assert(header@ =~= header_framed(body@));
    }
    Ok(body)
}

impl InputHeader {
    /// Decodes a header behind its length: accepts exactly the framed encodings of valid headers.
    pub fn decode_framed(header: &[u8]) -> (r: Result<Self, Error>)
        ensures
            match r {
                Ok(v) => v.valid() && v.wire().len() <= MAX_HEADER && header@ == header_framed(
                    v.wire(),
                ),
                Err(e) => {
                    &&& e.code == ErrorCode::FrameError
                    &&& forall|v: InputHeader|
                        v.valid() && v.wire().len() <= MAX_HEADER ==> header@ != header_framed(
                            #[trigger] v.wire(),
                        )
                },
            },
    {
        proof {
            assert forall|v: InputHeader| v.valid() implies (#[trigger] v.wire()).len() > 0 by {
                v.valid_shaped();
                v.solid();
            }
        }
        let body = unframe_header(header)?;
        let r = InputHeader::decode(body);
        proof {
            assert forall|v: InputHeader|
                v.valid() && v.wire().len() <= MAX_HEADER && header@ == header_framed(
                    #[trigger] v.wire(),
                ) implies v.wire() == body@ by {
                let h = header@;
                cbor::lemma_octet_ranges();
                cbor::lemma_be_bytes(body@.len(), 4);
                cbor::lemma_be_bytes(v.wire().len(), 4);
                assert(body@ =~= h.subrange(4, h.len() as int));
                assert(v.wire() =~= h.subrange(4, h.len() as int));
            }
        }
        r
    }

    pub fn encode_framed(&self) -> (r: Result<Vec<u8>, Error>)
        ensures
            match r {
                Ok(b) => self.valid() && self.wire().len() <= MAX_HEADER && b@ == header_framed(
                    self.wire(),
                ),
                Err(e) => e.code == ErrorCode::FrameError && !(self.valid() && self.wire().len()
                    <= MAX_HEADER),
            },
    {
        let bytes = self.encode()?;
        Ok(frame_header(bytes))
    }
}

impl ResultHeader {
    /// Decodes a header behind its length: accepts exactly the framed encodings of valid headers.
    pub fn decode_framed(header: &[u8]) -> (r: Result<Self, Error>)
        ensures
            match r {
                Ok(v) => v.valid() && v.wire().len() <= MAX_HEADER && header@ == header_framed(
                    v.wire(),
                ),
                Err(e) => {
                    &&& e.code == ErrorCode::FrameError
                    &&& forall|v: ResultHeader|
                        v.valid() && v.wire().len() <= MAX_HEADER ==> header@ != header_framed(
                            #[trigger] v.wire(),
                        )
                },
            },
    {
        proof {
            assert forall|v: ResultHeader| v.valid() implies (#[trigger] v.wire()).len() > 0 by {
                v.valid_shaped();
                v.solid();
            }
        }
        let body = unframe_header(header)?;
        let r = ResultHeader::decode(body);
        proof {
            assert forall|v: ResultHeader|
                v.valid() && v.wire().len() <= MAX_HEADER && header@ == header_framed(
                    #[trigger] v.wire(),
                ) implies v.wire() == body@ by {
                let h = header@;
                cbor::lemma_octet_ranges();
                cbor::lemma_be_bytes(body@.len(), 4);
                cbor::lemma_be_bytes(v.wire().len(), 4);
                assert(body@ =~= h.subrange(4, h.len() as int));
                assert(v.wire() =~= h.subrange(4, h.len() as int));
            }
        }
        r
    }

    pub fn encode_framed(&self) -> (r: Result<Vec<u8>, Error>)
        ensures
            match r {
                Ok(b) => self.valid() && self.wire().len() <= MAX_HEADER && b@ == header_framed(
                    self.wire(),
                ),
                Err(e) => e.code == ErrorCode::FrameError && !(self.valid() && self.wire().len()
                    <= MAX_HEADER),
            },
    {
        let bytes = self.encode()?;
        Ok(frame_header(bytes))
    }
}

/// A control frame and its message determine each other: whoever decodes what was encoded gets
/// the message back.
pub proof fn law_frame_roundtrip(a: Control, b: Control, limit: usize)
    requires
        a.sendable(limit),
        b.sendable(limit),
        a.frame_wire() == b.frame_wire(),
    ensures
        a.agrees(b),
{
    lemma_framed(a.type_code(), a.body_wire(), limit);
    lemma_framed(b.type_code(), b.body_wire(), limit);
    match (a, b) {
        (Control::Capabilities(x), Control::Capabilities(y)) => wire::law_encoding_is_bijective(x, y),
        (Control::Session(x), Control::Session(y)) => wire::law_encoding_is_bijective(x, y),
        (Control::Scope(x), Control::Scope(y)) => wire::law_encoding_is_bijective(x, y),
        (Control::Work(x), Control::Work(y)) => wire::law_encoding_is_bijective(x, y),
        (Control::Result(x), Control::Result(y)) => wire::law_encoding_is_bijective(x, y),
        (Control::Drain(x), Control::Drain(y)) => wire::law_encoding_is_bijective(x, y),
        (Control::Refusal(x), Control::Refusal(y)) => wire::law_encoding_is_bijective(x, y),
        _ => {},
    }
}

/// No frame is a proper prefix of another: a truncated frame, and a frame with octets behind it,
/// is no frame.
pub proof fn law_frames_are_prefix_free(a: Control, b: Control, limit: usize, tail: Seq<u8>)
    requires
        a.sendable(limit),
        b.sendable(limit),
        b.frame_wire() == a.frame_wire() + tail,
    ensures
        tail.len() == 0,
{
    lemma_framed(a.type_code(), a.body_wire(), limit);
    lemma_framed(b.type_code(), b.body_wire(), limit);
    assert(a.frame_wire().subrange(1, 5) =~= b.frame_wire().subrange(1, 5));
}

} // verus!
