//! Records of fences and of retirements.

use super::super::commitments::SessionIdentity;
use super::super::error::{require, Error, ErrorCode};
use super::super::labels::{IdentityLabel, OperationId};
use super::super::numbers::{Id, Number, State};
use super::super::records::ScopeSummary;
use super::super::wire::{self, read_array_head, Solid, Wire, Writer};
use crate::cbor;
use vstd::prelude::*;

verus! {

/// The first fence that was set on a unit of work.
#[derive(Debug, Clone, Copy, PartialEq, Eq)]
pub struct WorkFence {
    pub outcome: State,
    pub operation: OperationId,
}

impl WorkFence {
    /// The fields in the order of their encoding.
    pub open spec fn fields(self) -> (State, OperationId) {
        (self.outcome, self.operation)
    }

    /// What must hold between the fields.
    pub open spec fn rule(self) -> bool {
        self.outcome.0 == State::CANCELLED || self.outcome.0 == State::SKIPPED
    }
}

impl Wire for WorkFence {
    open spec fn wire(&self) -> Seq<u8> {
        cbor::head(4, 2) + self.fields().wire()
    }

    open spec fn shaped(&self) -> bool {
        self.fields().shaped()
    }

    open spec fn valid(&self) -> bool {
        self.fields().valid() && self.rule()
    }

    open spec fn refusal(&self) -> ErrorCode {
        ErrorCode::FrameError
    }

    open spec fn agrees(&self, other: &Self) -> bool {
        self.fields().agrees(&other.fields())
    }

    proof fn valid_shaped(&self) {
        self.fields().valid_shaped();
    }

    proof fn prefix_free(a: &Self, b: &Self, x: Seq<u8>, y: Seq<u8>) {
        let ra = a.fields().wire() + x;
        let rb = b.fields().wire() + y;
        assert(a.wire() + x =~= cbor::head(4, 2) + ra);
        assert(b.wire() + y =~= cbor::head(4, 2) + rb);
        cbor::lemma_head_prefix_free(4, 2, ra, 4, 2, rb);
        <(State, OperationId)>::prefix_free(&a.fields(), &b.fields(), x, y);
    }

    proof fn agrees_reflexive(&self) {
        self.fields().agrees_reflexive();
    }

    proof fn agrees_carries(a: &Self, b: &Self) {
        <(State, OperationId)>::agrees_carries(&a.fields(), &b.fields());
    }

    fn check(&self) -> (r: Result<(), Error>) {
        self.outcome.check()?;
        self.operation.check()?;
        require(
            self.outcome.0 == State::CANCELLED || self.outcome.0 == State::SKIPPED,
            "invalid work fence",
        )
    }

    fn same(&self, other: &Self) -> (r: bool) {
        self.outcome.same(&other.outcome)
            && self.operation.same(&other.operation)
    }

    fn duplicate(&self) -> (r: Self) {
        WorkFence {
            outcome: self.outcome.duplicate(),
            operation: self.operation.duplicate(),
        }
    }

    fn write(&self, w: &mut Writer) {
        w.array(2);
        self.outcome.write(w);
        self.operation.write(w);
        proof {
            broadcast use wire::lemma_concat_assoc;

            assert(w@ == old(w)@ + self.wire());
        }
    }

    fn read(bytes: &[u8], pos: usize) -> (r: Result<(Self, usize), Error>) {
        proof {
            assert forall|v: WorkFence|
                v.shaped() && #[trigger] cbor::at(bytes@, pos as int, v.wire()) implies cbor::at(
                bytes@,
                pos as int,
                cbor::head(4, 2),
            ) && cbor::at(bytes@, pos + cbor::head(4, 2).len(), v.fields().wire()) by {
                cbor::lemma_at_concat(bytes@, pos as int, cbor::head(4, 2), v.fields().wire());
            }
        }
        let start = read_array_head(bytes, pos, 2)?;
        let (fields, next) = <(State, OperationId)>::read(bytes, start)?;
        let (outcome, operation) = fields;
        Ok((WorkFence { outcome, operation }, next))
    }
}

impl Solid for WorkFence {
    proof fn solid(&self) {
        cbor::lemma_head(4, 2);
        assert(self.wire()[0] == cbor::head(4, 2)[0]);
    }

    proof fn plain(&self) {
    }
}

/// The name of a session within a retained record.
#[derive(Debug, Clone, PartialEq, Eq)]
pub struct Issuer {
    pub authority: IdentityLabel,
    pub owner: IdentityLabel,
    pub generation: Id,
}

impl Issuer {
    /// The fields in the order of their encoding.
    pub open spec fn fields(self) -> (IdentityLabel, (IdentityLabel, Id)) {
        (self.authority, (self.owner, self.generation))
    }
}

impl Wire for Issuer {
    open spec fn wire(&self) -> Seq<u8> {
        cbor::head(4, 3) + self.fields().wire()
    }

    open spec fn shaped(&self) -> bool {
        self.fields().shaped()
    }

    open spec fn valid(&self) -> bool {
        self.fields().valid()
    }

    open spec fn refusal(&self) -> ErrorCode {
        ErrorCode::FrameError
    }

    open spec fn agrees(&self, other: &Self) -> bool {
        self.fields().agrees(&other.fields())
    }

    proof fn valid_shaped(&self) {
        self.fields().valid_shaped();
    }

    proof fn prefix_free(a: &Self, b: &Self, x: Seq<u8>, y: Seq<u8>) {
        let ra = a.fields().wire() + x;
        let rb = b.fields().wire() + y;
        assert(a.wire() + x =~= cbor::head(4, 3) + ra);
        assert(b.wire() + y =~= cbor::head(4, 3) + rb);
        cbor::lemma_head_prefix_free(4, 3, ra, 4, 3, rb);
        <(IdentityLabel, (IdentityLabel, Id))>::prefix_free(&a.fields(), &b.fields(), x, y);
    }

    proof fn agrees_reflexive(&self) {
        self.fields().agrees_reflexive();
    }

    proof fn agrees_carries(a: &Self, b: &Self) {
        <(IdentityLabel, (IdentityLabel, Id))>::agrees_carries(&a.fields(), &b.fields());
    }

    fn check(&self) -> (r: Result<(), Error>) {
        self.authority.check()?;
        self.owner.check()?;
        self.generation.check()?;
        Ok(())
    }

    fn same(&self, other: &Self) -> (r: bool) {
        self.authority.same(&other.authority)
            && self.owner.same(&other.owner)
            && self.generation.same(&other.generation)
    }

    fn duplicate(&self) -> (r: Self) {
        Issuer {
            authority: self.authority.duplicate(),
            owner: self.owner.duplicate(),
            generation: self.generation.duplicate(),
        }
    }

    fn write(&self, w: &mut Writer) {
        w.array(3);
        self.authority.write(w);
        self.owner.write(w);
        self.generation.write(w);
        proof {
            broadcast use wire::lemma_concat_assoc;

            assert(w@ == old(w)@ + self.wire());
        }
    }

    fn read(bytes: &[u8], pos: usize) -> (r: Result<(Self, usize), Error>) {
        proof {
            assert forall|v: Issuer|
                v.shaped() && #[trigger] cbor::at(bytes@, pos as int, v.wire()) implies cbor::at(
                bytes@,
                pos as int,
                cbor::head(4, 3),
            ) && cbor::at(bytes@, pos + cbor::head(4, 3).len(), v.fields().wire()) by {
                cbor::lemma_at_concat(bytes@, pos as int, cbor::head(4, 3), v.fields().wire());
            }
        }
        let start = read_array_head(bytes, pos, 3)?;
        let (fields, next) = <(IdentityLabel, (IdentityLabel, Id))>::read(bytes, start)?;
        let (authority, (owner, generation)) = fields;
        Ok((Issuer { authority, owner, generation }, next))
    }
}

impl Solid for Issuer {
    proof fn solid(&self) {
        cbor::lemma_head(4, 3);
        assert(self.wire()[0] == cbor::head(4, 3)[0]);
    }

    proof fn plain(&self) {
    }
}

impl Issuer {
    /// The record names this session.
    pub open spec fn names(self, identity: SessionIdentity) -> bool {
        &&& self.authority.0@ == identity.authority.0@
        &&& self.owner.0@ == identity.owner.0@
        &&& self.generation == identity.generation
    }

    pub fn of(identity: &SessionIdentity) -> (r: Self)
        ensures
            r.names(*identity),
    {
        Issuer {
            authority: identity.authority.duplicate(),
            owner: identity.owner.duplicate(),
            generation: identity.generation,
        }
    }

    pub fn is_name_of(&self, identity: &SessionIdentity) -> (r: bool)
        ensures
            r == self.names(*identity),
    {
        self.authority.same(&identity.authority) && self.owner.same(&identity.owner)
            && self.generation == identity.generation
    }
}

/// The immutable evidence that a session may be retired.
#[derive(Debug, Clone, PartialEq, Eq)]
pub struct Proof {
    pub identity: Issuer,
    pub creation: Id,
    pub root: ScopeSummary,
    pub cutoff: Number,
    pub at: Number,
}

impl Proof {
    /// The fields in the order of their encoding.
    pub open spec fn fields(self) -> (Issuer, (Id, (ScopeSummary, (Number, Number)))) {
        (self.identity, (self.creation, (self.root, (self.cutoff, self.at))))
    }

    /// What must hold between the fields.
    pub open spec fn rule(self) -> bool {
        &&& self.root.scope.0 == 0
        &&& self.root.producer.0 == 0
        &&& self.root.parent is None
        &&& self.root.closed_at.0 <= self.cutoff.0
        &&& self.cutoff.0 <= self.at.0
    }
}

impl Wire for Proof {
    open spec fn wire(&self) -> Seq<u8> {
        cbor::head(4, 5) + self.fields().wire()
    }

    open spec fn shaped(&self) -> bool {
        self.fields().shaped()
    }

    open spec fn valid(&self) -> bool {
        self.fields().valid() && self.rule()
    }

    open spec fn refusal(&self) -> ErrorCode {
        ErrorCode::FrameError
    }

    open spec fn agrees(&self, other: &Self) -> bool {
        self.fields().agrees(&other.fields())
    }

    proof fn valid_shaped(&self) {
        self.fields().valid_shaped();
    }

    proof fn prefix_free(a: &Self, b: &Self, x: Seq<u8>, y: Seq<u8>) {
        let ra = a.fields().wire() + x;
        let rb = b.fields().wire() + y;
        assert(a.wire() + x =~= cbor::head(4, 5) + ra);
        assert(b.wire() + y =~= cbor::head(4, 5) + rb);
        cbor::lemma_head_prefix_free(4, 5, ra, 4, 5, rb);
        <(Issuer, (Id, (ScopeSummary, (Number, Number))))>::prefix_free(&a.fields(), &b.fields(), x, y);
    }

    proof fn agrees_reflexive(&self) {
        self.fields().agrees_reflexive();
    }

    proof fn agrees_carries(a: &Self, b: &Self) {
        <(Issuer, (Id, (ScopeSummary, (Number, Number))))>::agrees_carries(&a.fields(), &b.fields());
    }

    fn check(&self) -> (r: Result<(), Error>) {
        self.identity.check()?;
        self.creation.check()?;
        self.root.check()?;
        self.cutoff.check()?;
        self.at.check()?;
        require(
            self.root.scope.0 == 0 && self.root.producer.0 == 0 && self.root.parent.is_none()
                && self.root.closed_at.0 <= self.cutoff.0 && self.cutoff.0 <= self.at.0,
            "invalid session retirement proof",
        )
    }

    fn same(&self, other: &Self) -> (r: bool) {
        self.identity.same(&other.identity)
            && self.creation.same(&other.creation)
            && self.root.same(&other.root)
            && self.cutoff.same(&other.cutoff)
            && self.at.same(&other.at)
    }

    fn duplicate(&self) -> (r: Self) {
        Proof {
            identity: self.identity.duplicate(),
            creation: self.creation.duplicate(),
            root: self.root.duplicate(),
            cutoff: self.cutoff.duplicate(),
            at: self.at.duplicate(),
        }
    }

    fn write(&self, w: &mut Writer) {
        w.array(5);
        self.identity.write(w);
        self.creation.write(w);
        self.root.write(w);
        self.cutoff.write(w);
        self.at.write(w);
        proof {
            broadcast use wire::lemma_concat_assoc;

            assert(w@ == old(w)@ + self.wire());
        }
    }

    fn read(bytes: &[u8], pos: usize) -> (r: Result<(Self, usize), Error>) {
        proof {
            assert forall|v: Proof|
                v.shaped() && #[trigger] cbor::at(bytes@, pos as int, v.wire()) implies cbor::at(
                bytes@,
                pos as int,
                cbor::head(4, 5),
            ) && cbor::at(bytes@, pos + cbor::head(4, 5).len(), v.fields().wire()) by {
                cbor::lemma_at_concat(bytes@, pos as int, cbor::head(4, 5), v.fields().wire());
            }
        }
        let start = read_array_head(bytes, pos, 5)?;
        let (fields, next) = <(Issuer, (Id, (ScopeSummary, (Number, Number))))>::read(bytes, start)?;
        let (identity, (creation, (root, (cutoff, at)))) = fields;
        Ok((Proof { identity, creation, root, cutoff, at }, next))
    }
}

impl Solid for Proof {
    proof fn solid(&self) {
        cbor::lemma_head(4, 5);
        assert(self.wire()[0] == cbor::head(4, 5)[0]);
    }

    proof fn plain(&self) {
    }
}

} // verus!
