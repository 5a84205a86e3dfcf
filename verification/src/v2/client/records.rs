//! What a client writes down.

use super::super::error::{require, Error, ErrorCode};
use super::super::labels::{Digest, IdentityLabel};
use super::super::numbers::{Id, Number, OutputIndex, Producer, State};
use super::super::records::{self, scope_identity, Policy, WorkKey, WorkView};
use super::super::wire::{self, read_array_head, Solid, Wire, Writer};
use crate::cbor;
use vstd::prelude::*;

verus! {

/// What a session is created with, and by whom.
#[derive(Debug, Clone, PartialEq, Eq)]
pub struct Creation {
    pub authority: IdentityLabel,
    pub owner: IdentityLabel,
    pub creation_sequence: Id,
    pub policy: Policy,
    pub results: bool,
}

impl Creation {
    /// The fields in the order of their encoding.
    pub open spec fn fields(self) -> (IdentityLabel, (IdentityLabel, (Id, (Policy, bool)))) {
        (self.authority, (self.owner, (self.creation_sequence, (self.policy, self.results))))
    }
}

impl Wire for Creation {
    open spec fn wire(&self) -> Seq<u8> {
        cbor::head(4, 5) + self.fields().wire()
    }

    open spec fn shaped(&self) -> bool {
        self.fields().shaped()
    }

    open spec fn valid(&self) -> bool {
        self.fields().valid()
    }

    open spec fn refusal(&self) -> ErrorCode {
        ErrorCode::FrameError
    }

    open spec fn agrees(&self, other: &Self) -> bool {
        self.fields().agrees(&other.fields())
    }

    proof fn valid_shaped(&self) {
        self.fields().valid_shaped();
    }

    proof fn prefix_free(a: &Self, b: &Self, x: Seq<u8>, y: Seq<u8>) {
        let ra = a.fields().wire() + x;
        let rb = b.fields().wire() + y;
        assert(a.wire() + x =~= cbor::head(4, 5) + ra);
        assert(b.wire() + y =~= cbor::head(4, 5) + rb);
        cbor::lemma_head_prefix_free(4, 5, ra, 4, 5, rb);
        <(IdentityLabel, (IdentityLabel, (Id, (Policy, bool))))>::prefix_free(&a.fields(), &b.fields(), x, y);
    }

    proof fn agrees_reflexive(&self) {
        self.fields().agrees_reflexive();
    }

    proof fn agrees_carries(a: &Self, b: &Self) {
        <(IdentityLabel, (IdentityLabel, (Id, (Policy, bool))))>::agrees_carries(&a.fields(), &b.fields());
    }

    fn check(&self) -> (r: Result<(), Error>) {
        self.authority.check()?;
        self.owner.check()?;
        self.creation_sequence.check()?;
        self.policy.check()?;
        self.results.check()?;
        Ok(())
    }

    fn same(&self, other: &Self) -> (r: bool) {
        self.authority.same(&other.authority)
            && self.owner.same(&other.owner)
            && self.creation_sequence.same(&other.creation_sequence)
            && self.policy.same(&other.policy)
            && self.results.same(&other.results)
    }

    fn duplicate(&self) -> (r: Self) {
        Creation {
            authority: self.authority.duplicate(),
            owner: self.owner.duplicate(),
            creation_sequence: self.creation_sequence.duplicate(),
            policy: self.policy.duplicate(),
            results: self.results.duplicate(),
        }
    }

    fn write(&self, w: &mut Writer) {
        w.array(5);
        self.authority.write(w);
        self.owner.write(w);
        self.creation_sequence.write(w);
        self.policy.write(w);
        self.results.write(w);
        proof {
            broadcast use wire::lemma_concat_assoc;

            assert(w@ == old(w)@ + self.wire());
        }
    }

    fn read(bytes: &[u8], pos: usize) -> (r: Result<(Self, usize), Error>) {
        proof {
            assert forall|v: Creation|
                v.shaped() && #[trigger] cbor::at(bytes@, pos as int, v.wire()) implies cbor::at(
                bytes@,
                pos as int,
                cbor::head(4, 5),
            ) && cbor::at(bytes@, pos + cbor::head(4, 5).len(), v.fields().wire()) by {
                cbor::lemma_at_concat(bytes@, pos as int, cbor::head(4, 5), v.fields().wire());
            }
        }
        let start = read_array_head(bytes, pos, 5)?;
        let (fields, next) = <(IdentityLabel, (IdentityLabel, (Id, (Policy, bool))))>::read(bytes, start)?;
        let (authority, (owner, (creation_sequence, (policy, results)))) = fields;
        Ok((Creation { authority, owner, creation_sequence, policy, results }, next))
    }
}

impl Solid for Creation {
    proof fn solid(&self) {
        cbor::lemma_head(4, 5);
        assert(self.wire()[0] == cbor::head(4, 5)[0]);
    }

    proof fn plain(&self) {
    }
}

/// How much a journal may hold.
#[derive(Debug, Clone, Copy, PartialEq, Eq, Structural)]
pub struct JournalLimits {
    pub operations: Id,
    pub observations: Id,
}

impl JournalLimits {
    /// The fields in the order of their encoding.
    pub open spec fn fields(self) -> (Id, Id) {
        (self.operations, self.observations)
    }

    /// What must hold between the fields.
    pub open spec fn rule(self) -> bool {
        &&& self.operations.0 <= 1_000_000
        &&& self.observations.0 <= 1_000_000
    }
}

impl Wire for JournalLimits {
    open spec fn wire(&self) -> Seq<u8> {
        cbor::head(4, 2) + self.fields().wire()
    }

    open spec fn shaped(&self) -> bool {
        self.fields().shaped()
    }

    open spec fn valid(&self) -> bool {
        self.fields().valid() && self.rule()
    }

    open spec fn refusal(&self) -> ErrorCode {
        ErrorCode::FrameError
    }

    open spec fn agrees(&self, other: &Self) -> bool {
        self.fields().agrees(&other.fields())
    }

    proof fn valid_shaped(&self) {
        self.fields().valid_shaped();
    }

    proof fn prefix_free(a: &Self, b: &Self, x: Seq<u8>, y: Seq<u8>) {
        let ra = a.fields().wire() + x;
        let rb = b.fields().wire() + y;
        assert(a.wire() + x =~= cbor::head(4, 2) + ra);
        assert(b.wire() + y =~= cbor::head(4, 2) + rb);
        cbor::lemma_head_prefix_free(4, 2, ra, 4, 2, rb);
        <(Id, Id)>::prefix_free(&a.fields(), &b.fields(), x, y);
    }

    proof fn agrees_reflexive(&self) {
        self.fields().agrees_reflexive();
    }

    proof fn agrees_carries(a: &Self, b: &Self) {
        <(Id, Id)>::agrees_carries(&a.fields(), &b.fields());
    }

    fn check(&self) -> (r: Result<(), Error>) {
        self.operations.check()?;
        self.observations.check()?;
        require(
            self.operations.0 <= 1_000_000,
            "client operation ceiling exceeds one million",
        )?;
        require(
            self.observations.0 <= 1_000_000,
            "client observation ceiling exceeds one million",
        )
    }

    fn same(&self, other: &Self) -> (r: bool) {
        self.operations.same(&other.operations)
            && self.observations.same(&other.observations)
    }

    fn duplicate(&self) -> (r: Self) {
        JournalLimits {
            operations: self.operations.duplicate(),
            observations: self.observations.duplicate(),
        }
    }

    fn write(&self, w: &mut Writer) {
        w.array(2);
        self.operations.write(w);
        self.observations.write(w);
        proof {
            broadcast use wire::lemma_concat_assoc;

            assert(w@ == old(w)@ + self.wire());
        }
    }

    fn read(bytes: &[u8], pos: usize) -> (r: Result<(Self, usize), Error>) {
        proof {
            assert forall|v: JournalLimits|
                v.shaped() && #[trigger] cbor::at(bytes@, pos as int, v.wire()) implies cbor::at(
                bytes@,
                pos as int,
                cbor::head(4, 2),
            ) && cbor::at(bytes@, pos + cbor::head(4, 2).len(), v.fields().wire()) by {
                cbor::lemma_at_concat(bytes@, pos as int, cbor::head(4, 2), v.fields().wire());
            }
        }
        let start = read_array_head(bytes, pos, 2)?;
        let (fields, next) = <(Id, Id)>::read(bytes, start)?;
        let (operations, observations) = fields;
        Ok((JournalLimits { operations, observations }, next))
    }
}

impl Solid for JournalLimits {
    proof fn solid(&self) {
        cbor::lemma_head(4, 2);
        assert(self.wire()[0] == cbor::head(4, 2)[0]);
    }

    proof fn plain(&self) {
    }
}

impl Default for JournalLimits {
    fn default() -> (r: Self)
        ensures
            r.operations.0 == 4096,
            r.observations.0 == 4096,
            r.valid(),
    {
        JournalLimits { operations: Id(4096), observations: Id(4096) }
    }
}

/// A view of work as the authority reported it, with its revision.
#[derive(Debug, Clone, PartialEq, Eq)]
pub struct ObservedWork {
    pub revision: Id,
    pub view: WorkView,
}

impl ObservedWork {
    /// The fields in the order of their encoding.
    pub open spec fn fields(self) -> (Id, WorkView) {
        (self.revision, self.view)
    }
}

impl Wire for ObservedWork {
    open spec fn wire(&self) -> Seq<u8> {
        cbor::head(4, 2) + self.fields().wire()
    }

    open spec fn shaped(&self) -> bool {
        self.fields().shaped()
    }

    open spec fn valid(&self) -> bool {
        self.fields().valid()
    }

    open spec fn refusal(&self) -> ErrorCode {
        ErrorCode::FrameError
    }

    open spec fn agrees(&self, other: &Self) -> bool {
        self.fields().agrees(&other.fields())
    }

    proof fn valid_shaped(&self) {
        self.fields().valid_shaped();
    }

    proof fn prefix_free(a: &Self, b: &Self, x: Seq<u8>, y: Seq<u8>) {
        let ra = a.fields().wire() + x;
        let rb = b.fields().wire() + y;
        wire::lemma_concat_assoc(cbor::head(4, 2), a.fields().wire(), x);
        wire::lemma_concat_assoc(cbor::head(4, 2), b.fields().wire(), y);
        cbor::lemma_head_prefix_free(4, 2, ra, 4, 2, rb);
        <(Id, WorkView)>::prefix_free(&a.fields(), &b.fields(), x, y);
    }

    proof fn agrees_reflexive(&self) {
        self.fields().agrees_reflexive();
    }

    proof fn agrees_carries(a: &Self, b: &Self) {
        <(Id, WorkView)>::agrees_carries(&a.fields(), &b.fields());
    }

    fn check(&self) -> (r: Result<(), Error>) {
        self.revision.check()?;
        self.view.check()?;
        Ok(())
    }

    fn same(&self, other: &Self) -> (r: bool) {
        self.revision.same(&other.revision)
            && self.view.same(&other.view)
    }

    fn duplicate(&self) -> (r: Self) {
        ObservedWork {
            revision: self.revision.duplicate(),
            view: self.view.duplicate(),
        }
    }

    fn write(&self, w: &mut Writer) {
        w.array(2);
        self.revision.write(w);
        self.view.write(w);
        proof {
            broadcast use wire::lemma_concat_assoc;

            assert(w@ == old(w)@ + self.wire());
        }
    }

    fn read(bytes: &[u8], pos: usize) -> (r: Result<(Self, usize), Error>) {
        proof {
            assert forall|v: ObservedWork|
                v.shaped() && #[trigger] cbor::at(bytes@, pos as int, v.wire()) implies cbor::at(
                bytes@,
                pos as int,
                cbor::head(4, 2),
            ) && cbor::at(bytes@, pos + cbor::head(4, 2).len(), v.fields().wire()) by {
                cbor::lemma_at_concat(bytes@, pos as int, cbor::head(4, 2), v.fields().wire());
            }
        }
        let start = read_array_head(bytes, pos, 2)?;
        let (fields, next) = <(Id, WorkView)>::read(bytes, start)?;
        let (revision, view) = fields;
        Ok((ObservedWork { revision, view }, next))
    }
}

impl Solid for ObservedWork {
    proof fn solid(&self) {
        cbor::lemma_head(4, 2);
        assert(self.wire()[0] == cbor::head(4, 2)[0]);
    }

    proof fn plain(&self) {
    }
}

/// Which output of which manifest was selected.
#[derive(Debug, Clone, Copy, PartialEq, Eq)]
pub struct ReferenceChoice {
    pub index: OutputIndex,
    pub manifest: Digest,
}

impl ReferenceChoice {
    /// The fields in the order of their encoding.
    pub open spec fn fields(self) -> (OutputIndex, Digest) {
        (self.index, self.manifest)
    }
}

impl Wire for ReferenceChoice {
    open spec fn wire(&self) -> Seq<u8> {
        cbor::head(4, 2) + self.fields().wire()
    }

    open spec fn shaped(&self) -> bool {
        self.fields().shaped()
    }

    open spec fn valid(&self) -> bool {
        self.fields().valid()
    }

    open spec fn refusal(&self) -> ErrorCode {
        ErrorCode::FrameError
    }

    open spec fn agrees(&self, other: &Self) -> bool {
        self.fields().agrees(&other.fields())
    }

    proof fn valid_shaped(&self) {
        self.fields().valid_shaped();
    }

    proof fn prefix_free(a: &Self, b: &Self, x: Seq<u8>, y: Seq<u8>) {
        let ra = a.fields().wire() + x;
        let rb = b.fields().wire() + y;
        assert(a.wire() + x =~= cbor::head(4, 2) + ra);
        assert(b.wire() + y =~= cbor::head(4, 2) + rb);
        cbor::lemma_head_prefix_free(4, 2, ra, 4, 2, rb);
        <(OutputIndex, Digest)>::prefix_free(&a.fields(), &b.fields(), x, y);
    }

    proof fn agrees_reflexive(&self) {
        self.fields().agrees_reflexive();
    }

    proof fn agrees_carries(a: &Self, b: &Self) {
        <(OutputIndex, Digest)>::agrees_carries(&a.fields(), &b.fields());
    }

    fn check(&self) -> (r: Result<(), Error>) {
        self.index.check()?;
        self.manifest.check()?;
        Ok(())
    }

    fn same(&self, other: &Self) -> (r: bool) {
        self.index.same(&other.index)
            && self.manifest.same(&other.manifest)
    }

    fn duplicate(&self) -> (r: Self) {
        ReferenceChoice {
            index: self.index.duplicate(),
            manifest: self.manifest.duplicate(),
        }
    }

    fn write(&self, w: &mut Writer) {
        w.array(2);
        self.index.write(w);
        self.manifest.write(w);
        proof {
            broadcast use wire::lemma_concat_assoc;

            assert(w@ == old(w)@ + self.wire());
        }
    }

    fn read(bytes: &[u8], pos: usize) -> (r: Result<(Self, usize), Error>) {
        proof {
            assert forall|v: ReferenceChoice|
                v.shaped() && #[trigger] cbor::at(bytes@, pos as int, v.wire()) implies cbor::at(
                bytes@,
                pos as int,
                cbor::head(4, 2),
            ) && cbor::at(bytes@, pos + cbor::head(4, 2).len(), v.fields().wire()) by {
                cbor::lemma_at_concat(bytes@, pos as int, cbor::head(4, 2), v.fields().wire());
            }
        }
        let start = read_array_head(bytes, pos, 2)?;
        let (fields, next) = <(OutputIndex, Digest)>::read(bytes, start)?;
        let (index, manifest) = fields;
        Ok((ReferenceChoice { index, manifest }, next))
    }
}

impl Solid for ReferenceChoice {
    proof fn solid(&self) {
        cbor::lemma_head(4, 2);
        assert(self.wire()[0] == cbor::head(4, 2)[0]);
    }

    proof fn plain(&self) {
    }
}

/// What is known of a scope. Its membership is complete once it was verified against the seal.
#[derive(Debug, Clone, Copy, PartialEq, Eq)]
pub struct ScopeObservation {
    pub scope: Number,
    pub producer: Producer,
    pub parent: Option<WorkKey>,
    pub declared: Number,
    pub seal: Option<Digest>,
    pub membership_verified: bool,
}

impl ScopeObservation {
    /// The fields in the order of their encoding.
    pub open spec fn fields(self) -> (Number, (Producer, (Option<WorkKey>, (Number, (Option<Digest>, bool))))) {
        (self.scope, (self.producer, (self.parent, (self.declared, (self.seal, self.membership_verified)))))
    }

    /// What must hold between the fields.
    pub open spec fn rule(self) -> bool {
        &&& records::scope_placed(self.scope, self.producer, self.parent)
        &&& self.membership_verified ==> self.seal is Some
    }
}

impl Wire for ScopeObservation {
    open spec fn wire(&self) -> Seq<u8> {
        cbor::head(4, 6) + self.fields().wire()
    }

    open spec fn shaped(&self) -> bool {
        self.fields().shaped()
    }

    open spec fn valid(&self) -> bool {
        self.fields().valid() && self.rule()
    }

    open spec fn refusal(&self) -> ErrorCode {
        ErrorCode::FrameError
    }

    open spec fn agrees(&self, other: &Self) -> bool {
        self.fields().agrees(&other.fields())
    }

    proof fn valid_shaped(&self) {
        self.fields().valid_shaped();
    }

    proof fn prefix_free(a: &Self, b: &Self, x: Seq<u8>, y: Seq<u8>) {
        let ra = a.fields().wire() + x;
        let rb = b.fields().wire() + y;
        assert(a.wire() + x =~= cbor::head(4, 6) + ra);
        assert(b.wire() + y =~= cbor::head(4, 6) + rb);
        cbor::lemma_head_prefix_free(4, 6, ra, 4, 6, rb);
        <(Number, (Producer, (Option<WorkKey>, (Number, (Option<Digest>, bool)))))>::prefix_free(&a.fields(), &b.fields(), x, y);
    }

    proof fn agrees_reflexive(&self) {
        self.fields().agrees_reflexive();
    }

    proof fn agrees_carries(a: &Self, b: &Self) {
        <(Number, (Producer, (Option<WorkKey>, (Number, (Option<Digest>, bool)))))>::agrees_carries(&a.fields(), &b.fields());
    }

    fn check(&self) -> (r: Result<(), Error>) {
        self.scope.check()?;
        self.producer.check()?;
        self.parent.check()?;
        self.declared.check()?;
        self.seal.check()?;
        self.membership_verified.check()?;
        scope_identity(self.scope, self.producer, &self.parent)?;
        require(
            !self.membership_verified || self.seal.is_some(),
            "verified membership lacks seal",
        )
    }

    fn same(&self, other: &Self) -> (r: bool) {
        self.scope.same(&other.scope)
            && self.producer.same(&other.producer)
            && self.parent.same(&other.parent)
            && self.declared.same(&other.declared)
            && self.seal.same(&other.seal)
            && self.membership_verified.same(&other.membership_verified)
    }

    fn duplicate(&self) -> (r: Self) {
        ScopeObservation {
            scope: self.scope.duplicate(),
            producer: self.producer.duplicate(),
            parent: self.parent.duplicate(),
            declared: self.declared.duplicate(),
            seal: self.seal.duplicate(),
            membership_verified: self.membership_verified.duplicate(),
        }
    }

    fn write(&self, w: &mut Writer) {
        w.array(6);
        self.scope.write(w);
        self.producer.write(w);
        self.parent.write(w);
        self.declared.write(w);
        self.seal.write(w);
        self.membership_verified.write(w);
        proof {
            broadcast use wire::lemma_concat_assoc;

            assert(w@ == old(w)@ + self.wire());
        }
    }

    fn read(bytes: &[u8], pos: usize) -> (r: Result<(Self, usize), Error>) {
        proof {
            assert forall|v: ScopeObservation|
                v.shaped() && #[trigger] cbor::at(bytes@, pos as int, v.wire()) implies cbor::at(
                bytes@,
                pos as int,
                cbor::head(4, 6),
            ) && cbor::at(bytes@, pos + cbor::head(4, 6).len(), v.fields().wire()) by {
                cbor::lemma_at_concat(bytes@, pos as int, cbor::head(4, 6), v.fields().wire());
            }
        }
        let start = read_array_head(bytes, pos, 6)?;
        let (fields, next) = <(Number, (Producer, (Option<WorkKey>, (Number, (Option<Digest>, bool)))))>::read(bytes, start)?;
        let (scope, (producer, (parent, (declared, (seal, membership_verified))))) = fields;
        Ok((ScopeObservation { scope, producer, parent, declared, seal, membership_verified }, next))
    }
}

impl Solid for ScopeObservation {
    proof fn solid(&self) {
        cbor::lemma_head(4, 6);
        assert(self.wire()[0] == cbor::head(4, 6)[0]);
    }

    proof fn plain(&self) {
    }
}

/// A member of a scope, with the end that a membership page reported.
#[derive(Debug, Clone, Copy, PartialEq, Eq)]
pub struct ScopeMember {
    pub work: WorkKey,
    pub terminal: Option<State>,
}

impl ScopeMember {
    /// The fields in the order of their encoding.
    pub open spec fn fields(self) -> (WorkKey, Option<State>) {
        (self.work, self.terminal)
    }

    /// What must hold between the fields.
    pub open spec fn rule(self) -> bool {
        self.terminal matches Some(state) ==> state.terminal()
    }
}

impl Wire for ScopeMember {
    open spec fn wire(&self) -> Seq<u8> {
        cbor::head(4, 2) + self.fields().wire()
    }

    open spec fn shaped(&self) -> bool {
        self.fields().shaped()
    }

    open spec fn valid(&self) -> bool {
        self.fields().valid() && self.rule()
    }

    open spec fn refusal(&self) -> ErrorCode {
        ErrorCode::FrameError
    }

    open spec fn agrees(&self, other: &Self) -> bool {
        self.fields().agrees(&other.fields())
    }

    proof fn valid_shaped(&self) {
        self.fields().valid_shaped();
    }

    proof fn prefix_free(a: &Self, b: &Self, x: Seq<u8>, y: Seq<u8>) {
        let ra = a.fields().wire() + x;
        let rb = b.fields().wire() + y;
        assert(a.wire() + x =~= cbor::head(4, 2) + ra);
        assert(b.wire() + y =~= cbor::head(4, 2) + rb);
        cbor::lemma_head_prefix_free(4, 2, ra, 4, 2, rb);
        <(WorkKey, Option<State>)>::prefix_free(&a.fields(), &b.fields(), x, y);
    }

    proof fn agrees_reflexive(&self) {
        self.fields().agrees_reflexive();
    }

    proof fn agrees_carries(a: &Self, b: &Self) {
        <(WorkKey, Option<State>)>::agrees_carries(&a.fields(), &b.fields());
    }

    fn check(&self) -> (r: Result<(), Error>) {
        self.work.check()?;
        self.terminal.check()?;
        require(
            match self.terminal {
                Some(state) => state.is_terminal(),
                None => true,
            },
            "nonterminal membership hint",
        )
    }

    fn same(&self, other: &Self) -> (r: bool) {
        self.work.same(&other.work)
            && self.terminal.same(&other.terminal)
    }

    fn duplicate(&self) -> (r: Self) {
        ScopeMember {
            work: self.work.duplicate(),
            terminal: self.terminal.duplicate(),
        }
    }

    fn write(&self, w: &mut Writer) {
        w.array(2);
        self.work.write(w);
        self.terminal.write(w);
        proof {
            broadcast use wire::lemma_concat_assoc;

            assert(w@ == old(w)@ + self.wire());
        }
    }

    fn read(bytes: &[u8], pos: usize) -> (r: Result<(Self, usize), Error>) {
        proof {
            assert forall|v: ScopeMember|
                v.shaped() && #[trigger] cbor::at(bytes@, pos as int, v.wire()) implies cbor::at(
                bytes@,
                pos as int,
                cbor::head(4, 2),
            ) && cbor::at(bytes@, pos + cbor::head(4, 2).len(), v.fields().wire()) by {
                cbor::lemma_at_concat(bytes@, pos as int, cbor::head(4, 2), v.fields().wire());
            }
        }
        let start = read_array_head(bytes, pos, 2)?;
        let (fields, next) = <(WorkKey, Option<State>)>::read(bytes, start)?;
        let (work, terminal) = fields;
        Ok((ScopeMember { work, terminal }, next))
    }
}

impl Solid for ScopeMember {
    proof fn solid(&self) {
        cbor::lemma_head(4, 2);
        assert(self.wire()[0] == cbor::head(4, 2)[0]);
    }

    proof fn plain(&self) {
    }
}

} // verus!
