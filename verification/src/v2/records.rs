//! The plain records of the protocol.

use super::error::{require, Error, ErrorCode, MAX_DURATION, MAX_NUMBER};
use super::labels::{ApplicationLabel, Detail, Digest, IdentityLabel, OperationId};
use super::numbers::{
    BatchCount, DiagnosticCode, Disposition, Duration, Id, Literal, Mode, Number, OutputIndex, Producer,
    State, StreamId,
};
use super::uri::{self, ResultLocator};
use super::wire::{
    self, decode, encode, malformed, read_array_head, read_uint, Solid, Wire, Writer,
};
use crate::cbor::{self, get_array};
use vstd::prelude::*;
use vstd::utf8::*;

verus! {

/// How long work may run and how long its evidence is kept.
#[derive(Debug, Clone, Copy, PartialEq, Eq, Structural)]
pub struct Policy {
    pub execution_limit_ms: Duration,
    pub output_retention_ms: Duration,
    pub receipt_retention_ms: Duration,
}

impl Policy {
    /// The fields in the order of their encoding.
    pub open spec fn fields(self) -> (Duration, (Duration, Duration)) {
        (self.execution_limit_ms, (self.output_retention_ms, self.receipt_retention_ms))
    }
}

impl Wire for Policy {
    open spec fn wire(&self) -> Seq<u8> {
        cbor::head(4, 3) + self.fields().wire()
    }

    open spec fn shaped(&self) -> bool {
        self.fields().shaped()
    }

    open spec fn valid(&self) -> bool {
        self.fields().valid()
    }

    open spec fn refusal(&self) -> ErrorCode {
        ErrorCode::FrameError
    }

    open spec fn agrees(&self, other: &Self) -> bool {
        self.fields().agrees(&other.fields())
    }

    proof fn valid_shaped(&self) {
        self.fields().valid_shaped();
    }

    proof fn prefix_free(a: &Self, b: &Self, x: Seq<u8>, y: Seq<u8>) {
        let ra = a.fields().wire() + x;
        let rb = b.fields().wire() + y;
        assert(a.wire() + x =~= cbor::head(4, 3) + ra);
        assert(b.wire() + y =~= cbor::head(4, 3) + rb);
        cbor::lemma_head_prefix_free(4, 3, ra, 4, 3, rb);
        <(Duration, (Duration, Duration))>::prefix_free(&a.fields(), &b.fields(), x, y);
    }

    proof fn agrees_reflexive(&self) {
        self.fields().agrees_reflexive();
    }

    proof fn agrees_carries(a: &Self, b: &Self) {
        <(Duration, (Duration, Duration))>::agrees_carries(&a.fields(), &b.fields());
    }

    fn check(&self) -> (r: Result<(), Error>) {
        self.execution_limit_ms.check()?;
        self.output_retention_ms.check()?;
        self.receipt_retention_ms.check()?;
        Ok(())
    }

    fn same(&self, other: &Self) -> (r: bool) {
        self.execution_limit_ms.same(&other.execution_limit_ms)
            && self.output_retention_ms.same(&other.output_retention_ms)
            && self.receipt_retention_ms.same(&other.receipt_retention_ms)
    }

    fn duplicate(&self) -> (r: Self) {
        Policy {
            execution_limit_ms: self.execution_limit_ms.duplicate(),
            output_retention_ms: self.output_retention_ms.duplicate(),
            receipt_retention_ms: self.receipt_retention_ms.duplicate(),
        }
    }

    fn write(&self, w: &mut Writer) {
        w.array(3);
        self.execution_limit_ms.write(w);
        self.output_retention_ms.write(w);
        self.receipt_retention_ms.write(w);
        proof {
            broadcast use wire::lemma_concat_assoc;

            assert(w@ == old(w)@ + self.wire());
        }
    }

    fn read(bytes: &[u8], pos: usize) -> (r: Result<(Self, usize), Error>) {
        proof {
            assert forall|v: Policy|
                v.shaped() && #[trigger] cbor::at(bytes@, pos as int, v.wire()) implies cbor::at(
                bytes@,
                pos as int,
                cbor::head(4, 3),
            ) && cbor::at(bytes@, pos + cbor::head(4, 3).len(), v.fields().wire()) by {
                cbor::lemma_at_concat(bytes@, pos as int, cbor::head(4, 3), v.fields().wire());
            }
        }
        let start = read_array_head(bytes, pos, 3)?;
        let (fields, next) = <(Duration, (Duration, Duration))>::read(bytes, start)?;
        let (execution_limit_ms, (output_retention_ms, receipt_retention_ms)) = fields;
        Ok((Policy { execution_limit_ms, output_retention_ms, receipt_retention_ms }, next))
    }
}

impl Solid for Policy {
    proof fn solid(&self) {
        cbor::lemma_head(4, 3);
        assert(self.wire()[0] == cbor::head(4, 3)[0]);
    }

    proof fn plain(&self) {
    }
}

/// What one session may retain.
#[derive(Debug, Clone, Copy, PartialEq, Eq, Structural)]
pub struct Limits {
    pub scopes: Id,
    pub entities: Id,
    pub operations: Id,
    pub retained_input_bytes: Number,
    pub retained_output_bytes: Number,
    pub active_jobs: Id,
}

impl Limits {
    /// The fields in the order of their encoding.
    pub open spec fn fields(self) -> (Id, (Id, (Id, (Number, (Number, Id))))) {
        (self.scopes, (self.entities, (self.operations, (self.retained_input_bytes, (self.retained_output_bytes, self.active_jobs)))))
    }
}

impl Wire for Limits {
    open spec fn wire(&self) -> Seq<u8> {
        cbor::head(4, 6) + self.fields().wire()
    }

    open spec fn shaped(&self) -> bool {
        self.fields().shaped()
    }

    open spec fn valid(&self) -> bool {
        self.fields().valid()
    }

    open spec fn refusal(&self) -> ErrorCode {
        ErrorCode::FrameError
    }

    open spec fn agrees(&self, other: &Self) -> bool {
        self.fields().agrees(&other.fields())
    }

    proof fn valid_shaped(&self) {
        self.fields().valid_shaped();
    }

    proof fn prefix_free(a: &Self, b: &Self, x: Seq<u8>, y: Seq<u8>) {
        let ra = a.fields().wire() + x;
        let rb = b.fields().wire() + y;
        assert(a.wire() + x =~= cbor::head(4, 6) + ra);
        assert(b.wire() + y =~= cbor::head(4, 6) + rb);
        cbor::lemma_head_prefix_free(4, 6, ra, 4, 6, rb);
        <(Id, (Id, (Id, (Number, (Number, Id)))))>::prefix_free(&a.fields(), &b.fields(), x, y);
    }

    proof fn agrees_reflexive(&self) {
        self.fields().agrees_reflexive();
    }

    proof fn agrees_carries(a: &Self, b: &Self) {
        <(Id, (Id, (Id, (Number, (Number, Id)))))>::agrees_carries(&a.fields(), &b.fields());
    }

    fn check(&self) -> (r: Result<(), Error>) {
        self.scopes.check()?;
        self.entities.check()?;
        self.operations.check()?;
        self.retained_input_bytes.check()?;
        self.retained_output_bytes.check()?;
        self.active_jobs.check()?;
        Ok(())
    }

    fn same(&self, other: &Self) -> (r: bool) {
        self.scopes.same(&other.scopes)
            && self.entities.same(&other.entities)
            && self.operations.same(&other.operations)
            && self.retained_input_bytes.same(&other.retained_input_bytes)
            && self.retained_output_bytes.same(&other.retained_output_bytes)
            && self.active_jobs.same(&other.active_jobs)
    }

    fn duplicate(&self) -> (r: Self) {
        Limits {
            scopes: self.scopes.duplicate(),
            entities: self.entities.duplicate(),
            operations: self.operations.duplicate(),
            retained_input_bytes: self.retained_input_bytes.duplicate(),
            retained_output_bytes: self.retained_output_bytes.duplicate(),
            active_jobs: self.active_jobs.duplicate(),
        }
    }

    fn write(&self, w: &mut Writer) {
        w.array(6);
        self.scopes.write(w);
        self.entities.write(w);
        self.operations.write(w);
        self.retained_input_bytes.write(w);
        self.retained_output_bytes.write(w);
        self.active_jobs.write(w);
        proof {
            broadcast use wire::lemma_concat_assoc;

            assert(w@ == old(w)@ + self.wire());
        }
    }

    fn read(bytes: &[u8], pos: usize) -> (r: Result<(Self, usize), Error>) {
        proof {
            assert forall|v: Limits|
                v.shaped() && #[trigger] cbor::at(bytes@, pos as int, v.wire()) implies cbor::at(
                bytes@,
                pos as int,
                cbor::head(4, 6),
            ) && cbor::at(bytes@, pos + cbor::head(4, 6).len(), v.fields().wire()) by {
                cbor::lemma_at_concat(bytes@, pos as int, cbor::head(4, 6), v.fields().wire());
            }
        }
        let start = read_array_head(bytes, pos, 6)?;
        let (fields, next) = <(Id, (Id, (Id, (Number, (Number, Id)))))>::read(bytes, start)?;
        let (scopes, (entities, (operations, (retained_input_bytes, (retained_output_bytes, active_jobs))))) = fields;
        Ok((Limits { scopes, entities, operations, retained_input_bytes, retained_output_bytes, active_jobs }, next))
    }
}

impl Solid for Limits {
    proof fn solid(&self) {
        cbor::lemma_head(4, 6);
        assert(self.wire()[0] == cbor::head(4, 6)[0]);
    }

    proof fn plain(&self) {
    }
}

/// The identity of one unit of work within its session.
#[derive(Debug, Clone, Copy, PartialEq, Eq, Structural)]
pub struct WorkKey {
    pub scope: Number,
    pub producer: Producer,
    pub entity: Id,
}

impl WorkKey {
    /// The fields in the order of their encoding.
    pub open spec fn fields(self) -> (Number, (Producer, Id)) {
        (self.scope, (self.producer, self.entity))
    }
}

impl Wire for WorkKey {
    open spec fn wire(&self) -> Seq<u8> {
        cbor::head(4, 3) + self.fields().wire()
    }

    open spec fn shaped(&self) -> bool {
        self.fields().shaped()
    }

    open spec fn valid(&self) -> bool {
        self.fields().valid()
    }

    open spec fn refusal(&self) -> ErrorCode {
        ErrorCode::FrameError
    }

    open spec fn agrees(&self, other: &Self) -> bool {
        self.fields().agrees(&other.fields())
    }

    proof fn valid_shaped(&self) {
        self.fields().valid_shaped();
    }

    proof fn prefix_free(a: &Self, b: &Self, x: Seq<u8>, y: Seq<u8>) {
        let ra = a.fields().wire() + x;
        let rb = b.fields().wire() + y;
        assert(a.wire() + x =~= cbor::head(4, 3) + ra);
        assert(b.wire() + y =~= cbor::head(4, 3) + rb);
        cbor::lemma_head_prefix_free(4, 3, ra, 4, 3, rb);
        <(Number, (Producer, Id))>::prefix_free(&a.fields(), &b.fields(), x, y);
    }

    proof fn agrees_reflexive(&self) {
        self.fields().agrees_reflexive();
    }

    proof fn agrees_carries(a: &Self, b: &Self) {
        <(Number, (Producer, Id))>::agrees_carries(&a.fields(), &b.fields());
    }

    fn check(&self) -> (r: Result<(), Error>) {
        self.scope.check()?;
        self.producer.check()?;
        self.entity.check()?;
        Ok(())
    }

    fn same(&self, other: &Self) -> (r: bool) {
        self.scope.same(&other.scope)
            && self.producer.same(&other.producer)
            && self.entity.same(&other.entity)
    }

    fn duplicate(&self) -> (r: Self) {
        WorkKey {
            scope: self.scope.duplicate(),
            producer: self.producer.duplicate(),
            entity: self.entity.duplicate(),
        }
    }

    fn write(&self, w: &mut Writer) {
        w.array(3);
        self.scope.write(w);
        self.producer.write(w);
        self.entity.write(w);
        proof {
            broadcast use wire::lemma_concat_assoc;

            assert(w@ == old(w)@ + self.wire());
        }
    }

    fn read(bytes: &[u8], pos: usize) -> (r: Result<(Self, usize), Error>) {
        proof {
            assert forall|v: WorkKey|
                v.shaped() && #[trigger] cbor::at(bytes@, pos as int, v.wire()) implies cbor::at(
                bytes@,
                pos as int,
                cbor::head(4, 3),
            ) && cbor::at(bytes@, pos + cbor::head(4, 3).len(), v.fields().wire()) by {
                cbor::lemma_at_concat(bytes@, pos as int, cbor::head(4, 3), v.fields().wire());
            }
        }
        let start = read_array_head(bytes, pos, 3)?;
        let (fields, next) = <(Number, (Producer, Id))>::read(bytes, start)?;
        let (scope, (producer, entity)) = fields;
        Ok((WorkKey { scope, producer, entity }, next))
    }
}

impl Solid for WorkKey {
    proof fn solid(&self) {
        cbor::lemma_head(4, 3);
        assert(self.wire()[0] == cbor::head(4, 3)[0]);
    }

    proof fn plain(&self) {
    }
}

/// The commitment to an input object.
#[derive(Debug, Clone, PartialEq, Eq)]
pub struct Input {
    pub length: Number,
    pub sha256: Digest,
    pub content_type: ApplicationLabel,
}

impl Input {
    /// The fields in the order of their encoding.
    pub open spec fn fields(self) -> (Number, (Digest, ApplicationLabel)) {
        (self.length, (self.sha256, self.content_type))
    }
}

impl Wire for Input {
    open spec fn wire(&self) -> Seq<u8> {
        cbor::head(4, 3) + self.fields().wire()
    }

    open spec fn shaped(&self) -> bool {
        self.fields().shaped()
    }

    open spec fn valid(&self) -> bool {
        self.fields().valid()
    }

    open spec fn refusal(&self) -> ErrorCode {
        ErrorCode::FrameError
    }

    open spec fn agrees(&self, other: &Self) -> bool {
        self.fields().agrees(&other.fields())
    }

    proof fn valid_shaped(&self) {
        self.fields().valid_shaped();
    }

    proof fn prefix_free(a: &Self, b: &Self, x: Seq<u8>, y: Seq<u8>) {
        let ra = a.fields().wire() + x;
        let rb = b.fields().wire() + y;
        assert(a.wire() + x =~= cbor::head(4, 3) + ra);
        assert(b.wire() + y =~= cbor::head(4, 3) + rb);
        cbor::lemma_head_prefix_free(4, 3, ra, 4, 3, rb);
        <(Number, (Digest, ApplicationLabel))>::prefix_free(&a.fields(), &b.fields(), x, y);
    }

    proof fn agrees_reflexive(&self) {
        self.fields().agrees_reflexive();
    }

    proof fn agrees_carries(a: &Self, b: &Self) {
        <(Number, (Digest, ApplicationLabel))>::agrees_carries(&a.fields(), &b.fields());
    }

    fn check(&self) -> (r: Result<(), Error>) {
        self.length.check()?;
        self.sha256.check()?;
        self.content_type.check()?;
        Ok(())
    }

    fn same(&self, other: &Self) -> (r: bool) {
        self.length.same(&other.length)
            && self.sha256.same(&other.sha256)
            && self.content_type.same(&other.content_type)
    }

    fn duplicate(&self) -> (r: Self) {
        Input {
            length: self.length.duplicate(),
            sha256: self.sha256.duplicate(),
            content_type: self.content_type.duplicate(),
        }
    }

    fn write(&self, w: &mut Writer) {
        w.array(3);
        self.length.write(w);
        self.sha256.write(w);
        self.content_type.write(w);
        proof {
            broadcast use wire::lemma_concat_assoc;

            assert(w@ == old(w)@ + self.wire());
        }
    }

    fn read(bytes: &[u8], pos: usize) -> (r: Result<(Self, usize), Error>) {
        proof {
            assert forall|v: Input|
                v.shaped() && #[trigger] cbor::at(bytes@, pos as int, v.wire()) implies cbor::at(
                bytes@,
                pos as int,
                cbor::head(4, 3),
            ) && cbor::at(bytes@, pos + cbor::head(4, 3).len(), v.fields().wire()) by {
                cbor::lemma_at_concat(bytes@, pos as int, cbor::head(4, 3), v.fields().wire());
            }
        }
        let start = read_array_head(bytes, pos, 3)?;
        let (fields, next) = <(Number, (Digest, ApplicationLabel))>::read(bytes, start)?;
        let (length, (sha256, content_type)) = fields;
        Ok((Input { length, sha256, content_type }, next))
    }
}

impl Solid for Input {
    proof fn solid(&self) {
        cbor::lemma_head(4, 3);
        assert(self.wire()[0] == cbor::head(4, 3)[0]);
    }

    proof fn plain(&self) {
    }
}

/// What a unit of work may put out.
#[derive(Debug, Clone, Copy, PartialEq, Eq, Structural)]
pub struct OutputBudget {
    pub count: BatchCount,
    pub total_bytes: Number,
}

impl OutputBudget {
    /// The fields in the order of their encoding.
    pub open spec fn fields(self) -> (BatchCount, Number) {
        (self.count, self.total_bytes)
    }
}

impl Wire for OutputBudget {
    open spec fn wire(&self) -> Seq<u8> {
        cbor::head(4, 2) + self.fields().wire()
    }

    open spec fn shaped(&self) -> bool {
        self.fields().shaped()
    }

    open spec fn valid(&self) -> bool {
        self.fields().valid()
    }

    open spec fn refusal(&self) -> ErrorCode {
        ErrorCode::FrameError
    }

    open spec fn agrees(&self, other: &Self) -> bool {
        self.fields().agrees(&other.fields())
    }

    proof fn valid_shaped(&self) {
        self.fields().valid_shaped();
    }

    proof fn prefix_free(a: &Self, b: &Self, x: Seq<u8>, y: Seq<u8>) {
        let ra = a.fields().wire() + x;
        let rb = b.fields().wire() + y;
        assert(a.wire() + x =~= cbor::head(4, 2) + ra);
        assert(b.wire() + y =~= cbor::head(4, 2) + rb);
        cbor::lemma_head_prefix_free(4, 2, ra, 4, 2, rb);
        <(BatchCount, Number)>::prefix_free(&a.fields(), &b.fields(), x, y);
    }

    proof fn agrees_reflexive(&self) {
        self.fields().agrees_reflexive();
    }

    proof fn agrees_carries(a: &Self, b: &Self) {
        <(BatchCount, Number)>::agrees_carries(&a.fields(), &b.fields());
    }

    fn check(&self) -> (r: Result<(), Error>) {
        self.count.check()?;
        self.total_bytes.check()?;
        Ok(())
    }

    fn same(&self, other: &Self) -> (r: bool) {
        self.count.same(&other.count)
            && self.total_bytes.same(&other.total_bytes)
    }

    fn duplicate(&self) -> (r: Self) {
        OutputBudget {
            count: self.count.duplicate(),
            total_bytes: self.total_bytes.duplicate(),
        }
    }

    fn write(&self, w: &mut Writer) {
        w.array(2);
        self.count.write(w);
        self.total_bytes.write(w);
        proof {
            broadcast use wire::lemma_concat_assoc;

            assert(w@ == old(w)@ + self.wire());
        }
    }

    fn read(bytes: &[u8], pos: usize) -> (r: Result<(Self, usize), Error>) {
        proof {
            assert forall|v: OutputBudget|
                v.shaped() && #[trigger] cbor::at(bytes@, pos as int, v.wire()) implies cbor::at(
                bytes@,
                pos as int,
                cbor::head(4, 2),
            ) && cbor::at(bytes@, pos + cbor::head(4, 2).len(), v.fields().wire()) by {
                cbor::lemma_at_concat(bytes@, pos as int, cbor::head(4, 2), v.fields().wire());
            }
        }
        let start = read_array_head(bytes, pos, 2)?;
        let (fields, next) = <(BatchCount, Number)>::read(bytes, start)?;
        let (count, total_bytes) = fields;
        Ok((OutputBudget { count, total_bytes }, next))
    }
}

impl Solid for OutputBudget {
    proof fn solid(&self) {
        cbor::lemma_head(4, 2);
        assert(self.wire()[0] == cbor::head(4, 2)[0]);
    }

    proof fn plain(&self) {
    }
}

/// Why an attempt failed.
#[derive(Debug, Clone, PartialEq, Eq)]
pub struct Diagnostic {
    pub code: DiagnosticCode,
    pub detail: Detail,
}

impl Diagnostic {
    /// The fields in the order of their encoding.
    pub open spec fn fields(self) -> (DiagnosticCode, Detail) {
        (self.code, self.detail)
    }
}

impl Wire for Diagnostic {
    open spec fn wire(&self) -> Seq<u8> {
        cbor::head(4, 2) + self.fields().wire()
    }

    open spec fn shaped(&self) -> bool {
        self.fields().shaped()
    }

    open spec fn valid(&self) -> bool {
        self.fields().valid()
    }

    open spec fn refusal(&self) -> ErrorCode {
        ErrorCode::FrameError
    }

    open spec fn agrees(&self, other: &Self) -> bool {
        self.fields().agrees(&other.fields())
    }

    proof fn valid_shaped(&self) {
        self.fields().valid_shaped();
    }

    proof fn prefix_free(a: &Self, b: &Self, x: Seq<u8>, y: Seq<u8>) {
        let ra = a.fields().wire() + x;
        let rb = b.fields().wire() + y;
        assert(a.wire() + x =~= cbor::head(4, 2) + ra);
        assert(b.wire() + y =~= cbor::head(4, 2) + rb);
        cbor::lemma_head_prefix_free(4, 2, ra, 4, 2, rb);
        <(DiagnosticCode, Detail)>::prefix_free(&a.fields(), &b.fields(), x, y);
    }

    proof fn agrees_reflexive(&self) {
        self.fields().agrees_reflexive();
    }

    proof fn agrees_carries(a: &Self, b: &Self) {
        <(DiagnosticCode, Detail)>::agrees_carries(&a.fields(), &b.fields());
    }

    fn check(&self) -> (r: Result<(), Error>) {
        self.code.check()?;
        self.detail.check()?;
        Ok(())
    }

    fn same(&self, other: &Self) -> (r: bool) {
        self.code.same(&other.code)
            && self.detail.same(&other.detail)
    }

    fn duplicate(&self) -> (r: Self) {
        Diagnostic {
            code: self.code.duplicate(),
            detail: self.detail.duplicate(),
        }
    }

    fn write(&self, w: &mut Writer) {
        w.array(2);
        self.code.write(w);
        self.detail.write(w);
        proof {
            broadcast use wire::lemma_concat_assoc;

            assert(w@ == old(w)@ + self.wire());
        }
    }

    fn read(bytes: &[u8], pos: usize) -> (r: Result<(Self, usize), Error>) {
        proof {
            assert forall|v: Diagnostic|
                v.shaped() && #[trigger] cbor::at(bytes@, pos as int, v.wire()) implies cbor::at(
                bytes@,
                pos as int,
                cbor::head(4, 2),
            ) && cbor::at(bytes@, pos + cbor::head(4, 2).len(), v.fields().wire()) by {
                cbor::lemma_at_concat(bytes@, pos as int, cbor::head(4, 2), v.fields().wire());
            }
        }
        let start = read_array_head(bytes, pos, 2)?;
        let (fields, next) = <(DiagnosticCode, Detail)>::read(bytes, start)?;
        let (code, detail) = fields;
        Ok((Diagnostic { code, detail }, next))
    }
}

impl Solid for Diagnostic {
    proof fn solid(&self) {
        cbor::lemma_head(4, 2);
        assert(self.wire()[0] == cbor::head(4, 2)[0]);
    }

    proof fn plain(&self) {
    }
}

/// The scope that an admission opened.
#[derive(Debug, Clone, Copy, PartialEq, Eq, Structural)]
pub struct ChildScope {
    pub scope: Id,
    pub producer: Producer,
}

impl ChildScope {
    /// The fields in the order of their encoding.
    pub open spec fn fields(self) -> (Id, Producer) {
        (self.scope, self.producer)
    }
}

impl Wire for ChildScope {
    open spec fn wire(&self) -> Seq<u8> {
        cbor::head(4, 2) + self.fields().wire()
    }

    open spec fn shaped(&self) -> bool {
        self.fields().shaped()
    }

    open spec fn valid(&self) -> bool {
        self.fields().valid()
    }

    open spec fn refusal(&self) -> ErrorCode {
        ErrorCode::FrameError
    }

    open spec fn agrees(&self, other: &Self) -> bool {
        self.fields().agrees(&other.fields())
    }

    proof fn valid_shaped(&self) {
        self.fields().valid_shaped();
    }

    proof fn prefix_free(a: &Self, b: &Self, x: Seq<u8>, y: Seq<u8>) {
        let ra = a.fields().wire() + x;
        let rb = b.fields().wire() + y;
        assert(a.wire() + x =~= cbor::head(4, 2) + ra);
        assert(b.wire() + y =~= cbor::head(4, 2) + rb);
        cbor::lemma_head_prefix_free(4, 2, ra, 4, 2, rb);
        <(Id, Producer)>::prefix_free(&a.fields(), &b.fields(), x, y);
    }

    proof fn agrees_reflexive(&self) {
        self.fields().agrees_reflexive();
    }

    proof fn agrees_carries(a: &Self, b: &Self) {
        <(Id, Producer)>::agrees_carries(&a.fields(), &b.fields());
    }

    fn check(&self) -> (r: Result<(), Error>) {
        self.scope.check()?;
        self.producer.check()?;
        Ok(())
    }

    fn same(&self, other: &Self) -> (r: bool) {
        self.scope.same(&other.scope)
            && self.producer.same(&other.producer)
    }

    fn duplicate(&self) -> (r: Self) {
        ChildScope {
            scope: self.scope.duplicate(),
            producer: self.producer.duplicate(),
        }
    }

    fn write(&self, w: &mut Writer) {
        w.array(2);
        self.scope.write(w);
        self.producer.write(w);
        proof {
            broadcast use wire::lemma_concat_assoc;

            assert(w@ == old(w)@ + self.wire());
        }
    }

    fn read(bytes: &[u8], pos: usize) -> (r: Result<(Self, usize), Error>) {
        proof {
            assert forall|v: ChildScope|
                v.shaped() && #[trigger] cbor::at(bytes@, pos as int, v.wire()) implies cbor::at(
                bytes@,
                pos as int,
                cbor::head(4, 2),
            ) && cbor::at(bytes@, pos + cbor::head(4, 2).len(), v.fields().wire()) by {
                cbor::lemma_at_concat(bytes@, pos as int, cbor::head(4, 2), v.fields().wire());
            }
        }
        let start = read_array_head(bytes, pos, 2)?;
        let (fields, next) = <(Id, Producer)>::read(bytes, start)?;
        let (scope, producer) = fields;
        Ok((ChildScope { scope, producer }, next))
    }
}

impl Solid for ChildScope {
    proof fn solid(&self) {
        cbor::lemma_head(4, 2);
        assert(self.wire()[0] == cbor::head(4, 2)[0]);
    }

    proof fn plain(&self) {
    }
}

/// How the members of a closed scope ended.
#[derive(Debug, Clone, Copy, PartialEq, Eq, Structural)]
pub struct Counts {
    pub success: Number,
    pub failure: Number,
    pub cancelled: Number,
    pub skipped: Number,
}

impl Counts {
    /// The fields in the order of their encoding.
    pub open spec fn fields(self) -> (Number, (Number, (Number, Number))) {
        (self.success, (self.failure, (self.cancelled, self.skipped)))
    }
}

impl Wire for Counts {
    open spec fn wire(&self) -> Seq<u8> {
        cbor::head(4, 4) + self.fields().wire()
    }

    open spec fn shaped(&self) -> bool {
        self.fields().shaped()
    }

    open spec fn valid(&self) -> bool {
        self.fields().valid()
    }

    open spec fn refusal(&self) -> ErrorCode {
        ErrorCode::FrameError
    }

    open spec fn agrees(&self, other: &Self) -> bool {
        self.fields().agrees(&other.fields())
    }

    proof fn valid_shaped(&self) {
        self.fields().valid_shaped();
    }

    proof fn prefix_free(a: &Self, b: &Self, x: Seq<u8>, y: Seq<u8>) {
        let ra = a.fields().wire() + x;
        let rb = b.fields().wire() + y;
        assert(a.wire() + x =~= cbor::head(4, 4) + ra);
        assert(b.wire() + y =~= cbor::head(4, 4) + rb);
        cbor::lemma_head_prefix_free(4, 4, ra, 4, 4, rb);
        <(Number, (Number, (Number, Number)))>::prefix_free(&a.fields(), &b.fields(), x, y);
    }

    proof fn agrees_reflexive(&self) {
        self.fields().agrees_reflexive();
    }

    proof fn agrees_carries(a: &Self, b: &Self) {
        <(Number, (Number, (Number, Number)))>::agrees_carries(&a.fields(), &b.fields());
    }

    fn check(&self) -> (r: Result<(), Error>) {
        self.success.check()?;
        self.failure.check()?;
        self.cancelled.check()?;
        self.skipped.check()?;
        Ok(())
    }

    fn same(&self, other: &Self) -> (r: bool) {
        self.success.same(&other.success)
            && self.failure.same(&other.failure)
            && self.cancelled.same(&other.cancelled)
            && self.skipped.same(&other.skipped)
    }

    fn duplicate(&self) -> (r: Self) {
        Counts {
            success: self.success.duplicate(),
            failure: self.failure.duplicate(),
            cancelled: self.cancelled.duplicate(),
            skipped: self.skipped.duplicate(),
        }
    }

    fn write(&self, w: &mut Writer) {
        w.array(4);
        self.success.write(w);
        self.failure.write(w);
        self.cancelled.write(w);
        self.skipped.write(w);
        proof {
            broadcast use wire::lemma_concat_assoc;

            assert(w@ == old(w)@ + self.wire());
        }
    }

    fn read(bytes: &[u8], pos: usize) -> (r: Result<(Self, usize), Error>) {
        proof {
            assert forall|v: Counts|
                v.shaped() && #[trigger] cbor::at(bytes@, pos as int, v.wire()) implies cbor::at(
                bytes@,
                pos as int,
                cbor::head(4, 4),
            ) && cbor::at(bytes@, pos + cbor::head(4, 4).len(), v.fields().wire()) by {
                cbor::lemma_at_concat(bytes@, pos as int, cbor::head(4, 4), v.fields().wire());
            }
        }
        let start = read_array_head(bytes, pos, 4)?;
        let (fields, next) = <(Number, (Number, (Number, Number)))>::read(bytes, start)?;
        let (success, (failure, (cancelled, skipped))) = fields;
        Ok((Counts { success, failure, cancelled, skipped }, next))
    }
}

impl Solid for Counts {
    proof fn solid(&self) {
        cbor::lemma_head(4, 4);
        assert(self.wire()[0] == cbor::head(4, 4)[0]);
    }

    proof fn plain(&self) {
    }
}

impl Counts {
    pub open spec fn sum(self) -> nat {
        self.success.0 as nat + self.failure.0 as nat + self.cancelled.0 as nat + self.skipped.0 as nat
    }

    /// The number of members, where it fits.
    pub fn total(&self) -> (r: Result<u64, Error>)
        ensures
            match r {
                Ok(n) => n == self.sum() && n <= MAX_NUMBER,
                Err(e) => self.sum() > MAX_NUMBER && e.code == ErrorCode::FrameError,
            },
    {
        let parts: [u64; 4] = [self.success.0, self.failure.0, self.cancelled.0, self.skipped.0];
        let mut sum: u64 = 0;
        let mut i: usize = 0;
        while i < 4
            invariant
                i <= 4,
                parts@ == seq![self.success.0, self.failure.0, self.cancelled.0, self.skipped.0],
                sum <= MAX_NUMBER,
                sum == (if i > 0 { parts@[0] as nat } else { 0 }) + (if i > 1 {
                    parts@[1] as nat
                } else {
                    0
                }) + (if i > 2 { parts@[2] as nat } else { 0 }) + (if i > 3 {
                    parts@[3] as nat
                } else {
                    0
                }),
            decreases 4 - i,
        {
            match sum.checked_add(parts[i]) {
                Some(n) => {
                    if n > MAX_NUMBER {
                        return Err(Error::frame("count sum overflow"));
                    }
                    sum = n;
                },
                None => {
                    return Err(Error::frame("count sum overflow"));
                },
            }
            i += 1;
        }
        Ok(sum)
    }
}

/// The root scope belongs to the client and has no parent; every other scope hangs below work of
/// an older scope.
pub open spec fn scope_placed(scope: Number, producer: Producer, parent: Option<WorkKey>) -> bool {
    if scope.0 == 0 {
        producer.0 == 0 && parent is None
    } else {
        parent matches Some(p) && p.scope.0 < scope.0
    }
}

pub fn scope_identity(scope: Number, producer: Producer, parent: &Option<WorkKey>) -> (r: Result<
    (),
    Error,
>)
    ensures
        match r {
            Ok(_) => scope_placed(scope, producer, *parent),
            Err(e) => !scope_placed(scope, producer, *parent) && e.code == ErrorCode::FrameError,
        },
{
    let placed = if scope.0 == 0 {
        producer.0 == 0 && parent.is_none()
    } else {
        match parent {
            Some(p) => p.scope.0 < scope.0,
            None => false,
        }
    };
    require(placed, "scope parent/producer inconsistent")
}

/// The closing statement of a scope.
#[derive(Debug, Clone, PartialEq, Eq)]
pub struct ScopeSummary {
    pub scope: Number,
    pub producer: Producer,
    pub parent: Option<WorkKey>,
    pub seal: Digest,
    pub declared: Number,
    pub counts: Counts,
    pub status_root: Digest,
    pub closed_at: Number,
}

impl ScopeSummary {
    /// The fields in the order of their encoding.
    pub open spec fn fields(self) -> (Number, (Producer, (Option<WorkKey>, (Digest, (Number, (Counts, (Digest, Number))))))) {
        (self.scope, (self.producer, (self.parent, (self.seal, (self.declared, (self.counts, (self.status_root, self.closed_at)))))))
    }

    /// What must hold between the fields.
    pub open spec fn rule(self) -> bool {
        &&& scope_placed(self.scope, self.producer, self.parent)
        &&& self.counts.sum() == self.declared.0
    }
}

impl Wire for ScopeSummary {
    open spec fn wire(&self) -> Seq<u8> {
        cbor::head(4, 8) + self.fields().wire()
    }

    open spec fn shaped(&self) -> bool {
        self.fields().shaped()
    }

    open spec fn valid(&self) -> bool {
        self.fields().valid() && self.rule()
    }

    open spec fn refusal(&self) -> ErrorCode {
        ErrorCode::FrameError
    }

    open spec fn agrees(&self, other: &Self) -> bool {
        self.fields().agrees(&other.fields())
    }

    proof fn valid_shaped(&self) {
        self.fields().valid_shaped();
    }

    proof fn prefix_free(a: &Self, b: &Self, x: Seq<u8>, y: Seq<u8>) {
        let ra = a.fields().wire() + x;
        let rb = b.fields().wire() + y;
        assert(a.wire() + x =~= cbor::head(4, 8) + ra);
        assert(b.wire() + y =~= cbor::head(4, 8) + rb);
        cbor::lemma_head_prefix_free(4, 8, ra, 4, 8, rb);
        <(Number, (Producer, (Option<WorkKey>, (Digest, (Number, (Counts, (Digest, Number)))))))>::prefix_free(&a.fields(), &b.fields(), x, y);
    }

    proof fn agrees_reflexive(&self) {
        self.fields().agrees_reflexive();
    }

    proof fn agrees_carries(a: &Self, b: &Self) {
        <(Number, (Producer, (Option<WorkKey>, (Digest, (Number, (Counts, (Digest, Number)))))))>::agrees_carries(&a.fields(), &b.fields());
    }

    fn check(&self) -> (r: Result<(), Error>) {
        self.scope.check()?;
        self.producer.check()?;
        self.parent.check()?;
        self.seal.check()?;
        self.declared.check()?;
        self.counts.check()?;
        self.status_root.check()?;
        self.closed_at.check()?;
        scope_identity(self.scope, self.producer, &self.parent)?;
        let total = self.counts.total()?;
        require(total == self.declared.0, "scope count partition mismatch")
    }

    fn same(&self, other: &Self) -> (r: bool) {
        self.scope.same(&other.scope)
            && self.producer.same(&other.producer)
            && self.parent.same(&other.parent)
            && self.seal.same(&other.seal)
            && self.declared.same(&other.declared)
            && self.counts.same(&other.counts)
            && self.status_root.same(&other.status_root)
            && self.closed_at.same(&other.closed_at)
    }

    fn duplicate(&self) -> (r: Self) {
        ScopeSummary {
            scope: self.scope.duplicate(),
            producer: self.producer.duplicate(),
            parent: self.parent.duplicate(),
            seal: self.seal.duplicate(),
            declared: self.declared.duplicate(),
            counts: self.counts.duplicate(),
            status_root: self.status_root.duplicate(),
            closed_at: self.closed_at.duplicate(),
        }
    }

    fn write(&self, w: &mut Writer) {
        w.array(8);
        self.scope.write(w);
        self.producer.write(w);
        self.parent.write(w);
        self.seal.write(w);
        self.declared.write(w);
        self.counts.write(w);
        self.status_root.write(w);
        self.closed_at.write(w);
        proof {
            broadcast use wire::lemma_concat_assoc;

            assert(w@ == old(w)@ + self.wire());
        }
    }

    fn read(bytes: &[u8], pos: usize) -> (r: Result<(Self, usize), Error>) {
        proof {
            assert forall|v: ScopeSummary|
                v.shaped() && #[trigger] cbor::at(bytes@, pos as int, v.wire()) implies cbor::at(
                bytes@,
                pos as int,
                cbor::head(4, 8),
            ) && cbor::at(bytes@, pos + cbor::head(4, 8).len(), v.fields().wire()) by {
                cbor::lemma_at_concat(bytes@, pos as int, cbor::head(4, 8), v.fields().wire());
            }
        }
        let start = read_array_head(bytes, pos, 8)?;
        let (fields, next) = <(Number, (Producer, (Option<WorkKey>, (Digest, (Number, (Counts, (Digest, Number)))))))>::read(bytes, start)?;
        let (scope, (producer, (parent, (seal, (declared, (counts, (status_root, closed_at))))))) = fields;
        Ok((ScopeSummary { scope, producer, parent, seal, declared, counts, status_root, closed_at }, next))
    }
}

impl Solid for ScopeSummary {
    proof fn solid(&self) {
        cbor::lemma_head(4, 8);
        assert(self.wire()[0] == cbor::head(4, 8)[0]);
    }

    proof fn plain(&self) {
    }
}

/// What an admission asks for.
#[derive(Debug, Clone, PartialEq, Eq)]
pub struct AdmitParameters {
    pub work: WorkKey,
    pub input: Input,
    pub application: ApplicationLabel,
    pub mode: Mode,
    pub execution_ms: Duration,
    pub outputs: OutputBudget,
}

impl AdmitParameters {
    /// The fields in the order of their encoding.
    pub open spec fn fields(self) -> (WorkKey, (Input, (ApplicationLabel, (Mode, (Duration, OutputBudget))))) {
        (self.work, (self.input, (self.application, (self.mode, (self.execution_ms, self.outputs)))))
    }
}

impl Wire for AdmitParameters {
    open spec fn wire(&self) -> Seq<u8> {
        cbor::head(4, 6) + self.fields().wire()
    }

    open spec fn shaped(&self) -> bool {
        self.fields().shaped()
    }

    open spec fn valid(&self) -> bool {
        self.fields().valid()
    }

    open spec fn refusal(&self) -> ErrorCode {
        ErrorCode::FrameError
    }

    open spec fn agrees(&self, other: &Self) -> bool {
        self.fields().agrees(&other.fields())
    }

    proof fn valid_shaped(&self) {
        self.fields().valid_shaped();
    }

    proof fn prefix_free(a: &Self, b: &Self, x: Seq<u8>, y: Seq<u8>) {
        let ra = a.fields().wire() + x;
        let rb = b.fields().wire() + y;
        assert(a.wire() + x =~= cbor::head(4, 6) + ra);
        assert(b.wire() + y =~= cbor::head(4, 6) + rb);
        cbor::lemma_head_prefix_free(4, 6, ra, 4, 6, rb);
        <(WorkKey, (Input, (ApplicationLabel, (Mode, (Duration, OutputBudget)))))>::prefix_free(&a.fields(), &b.fields(), x, y);
    }

    proof fn agrees_reflexive(&self) {
        self.fields().agrees_reflexive();
    }

    proof fn agrees_carries(a: &Self, b: &Self) {
        <(WorkKey, (Input, (ApplicationLabel, (Mode, (Duration, OutputBudget)))))>::agrees_carries(&a.fields(), &b.fields());
    }

    fn check(&self) -> (r: Result<(), Error>) {
        self.work.check()?;
        self.input.check()?;
        self.application.check()?;
        self.mode.check()?;
        self.execution_ms.check()?;
        self.outputs.check()?;
        Ok(())
    }

    fn same(&self, other: &Self) -> (r: bool) {
        self.work.same(&other.work)
            && self.input.same(&other.input)
            && self.application.same(&other.application)
            && self.mode.same(&other.mode)
            && self.execution_ms.same(&other.execution_ms)
            && self.outputs.same(&other.outputs)
    }

    fn duplicate(&self) -> (r: Self) {
        AdmitParameters {
            work: self.work.duplicate(),
            input: self.input.duplicate(),
            application: self.application.duplicate(),
            mode: self.mode.duplicate(),
            execution_ms: self.execution_ms.duplicate(),
            outputs: self.outputs.duplicate(),
        }
    }

    fn write(&self, w: &mut Writer) {
        w.array(6);
        self.work.write(w);
        self.input.write(w);
        self.application.write(w);
        self.mode.write(w);
        self.execution_ms.write(w);
        self.outputs.write(w);
        proof {
            broadcast use wire::lemma_concat_assoc;

            assert(w@ == old(w)@ + self.wire());
        }
    }

    fn read(bytes: &[u8], pos: usize) -> (r: Result<(Self, usize), Error>) {
        proof {
            assert forall|v: AdmitParameters|
                v.shaped() && #[trigger] cbor::at(bytes@, pos as int, v.wire()) implies cbor::at(
                bytes@,
                pos as int,
                cbor::head(4, 6),
            ) && cbor::at(bytes@, pos + cbor::head(4, 6).len(), v.fields().wire()) by {
                cbor::lemma_at_concat(bytes@, pos as int, cbor::head(4, 6), v.fields().wire());
            }
        }
        let start = read_array_head(bytes, pos, 6)?;
        let (fields, next) = <(WorkKey, (Input, (ApplicationLabel, (Mode, (Duration, OutputBudget)))))>::read(bytes, start)?;
        let (work, (input, (application, (mode, (execution_ms, outputs))))) = fields;
        Ok((AdmitParameters { work, input, application, mode, execution_ms, outputs }, next))
    }
}

impl Solid for AdmitParameters {
    proof fn solid(&self) {
        cbor::lemma_head(4, 6);
        assert(self.wire()[0] == cbor::head(4, 6)[0]);
    }

    proof fn plain(&self) {
    }
}

/// The header of an input stream.
#[derive(Debug, Clone, PartialEq, Eq)]
pub struct InputHeader {
    pub kind: Literal<0>,
    pub generation: Id,
    pub operation: OperationId,
    pub parameters: AdmitParameters,
}

impl InputHeader {
    /// The fields in the order of their encoding.
    pub open spec fn fields(self) -> (Literal<0>, (Id, (OperationId, AdmitParameters))) {
        (self.kind, (self.generation, (self.operation, self.parameters)))
    }
}

impl Wire for InputHeader {
    open spec fn wire(&self) -> Seq<u8> {
        cbor::head(4, 4) + self.fields().wire()
    }

    open spec fn shaped(&self) -> bool {
        self.fields().shaped()
    }

    open spec fn valid(&self) -> bool {
        self.fields().valid()
    }

    open spec fn refusal(&self) -> ErrorCode {
        ErrorCode::FrameError
    }

    open spec fn agrees(&self, other: &Self) -> bool {
        self.fields().agrees(&other.fields())
    }

    proof fn valid_shaped(&self) {
        self.fields().valid_shaped();
    }

    proof fn prefix_free(a: &Self, b: &Self, x: Seq<u8>, y: Seq<u8>) {
        let ra = a.fields().wire() + x;
        let rb = b.fields().wire() + y;
        assert(a.wire() + x =~= cbor::head(4, 4) + ra);
        assert(b.wire() + y =~= cbor::head(4, 4) + rb);
        cbor::lemma_head_prefix_free(4, 4, ra, 4, 4, rb);
        <(Literal<0>, (Id, (OperationId, AdmitParameters)))>::prefix_free(&a.fields(), &b.fields(), x, y);
    }

    proof fn agrees_reflexive(&self) {
        self.fields().agrees_reflexive();
    }

    proof fn agrees_carries(a: &Self, b: &Self) {
        <(Literal<0>, (Id, (OperationId, AdmitParameters)))>::agrees_carries(&a.fields(), &b.fields());
    }

    fn check(&self) -> (r: Result<(), Error>) {
        self.kind.check()?;
        self.generation.check()?;
        self.operation.check()?;
        self.parameters.check()?;
        Ok(())
    }

    fn same(&self, other: &Self) -> (r: bool) {
        self.kind.same(&other.kind)
            && self.generation.same(&other.generation)
            && self.operation.same(&other.operation)
            && self.parameters.same(&other.parameters)
    }

    fn duplicate(&self) -> (r: Self) {
        InputHeader {
            kind: self.kind.duplicate(),
            generation: self.generation.duplicate(),
            operation: self.operation.duplicate(),
            parameters: self.parameters.duplicate(),
        }
    }

    fn write(&self, w: &mut Writer) {
        w.array(4);
        self.kind.write(w);
        self.generation.write(w);
        self.operation.write(w);
        self.parameters.write(w);
        proof {
            broadcast use wire::lemma_concat_assoc;

            assert(w@ == old(w)@ + self.wire());
        }
    }

    fn read(bytes: &[u8], pos: usize) -> (r: Result<(Self, usize), Error>) {
        proof {
            assert forall|v: InputHeader|
                v.shaped() && #[trigger] cbor::at(bytes@, pos as int, v.wire()) implies cbor::at(
                bytes@,
                pos as int,
                cbor::head(4, 4),
            ) && cbor::at(bytes@, pos + cbor::head(4, 4).len(), v.fields().wire()) by {
                cbor::lemma_at_concat(bytes@, pos as int, cbor::head(4, 4), v.fields().wire());
            }
        }
        let start = read_array_head(bytes, pos, 4)?;
        let (fields, next) = <(Literal<0>, (Id, (OperationId, AdmitParameters)))>::read(bytes, start)?;
        let (kind, (generation, (operation, parameters))) = fields;
        Ok((InputHeader { kind, generation, operation, parameters }, next))
    }
}

impl Solid for InputHeader {
    proof fn solid(&self) {
        cbor::lemma_head(4, 4);
        assert(self.wire()[0] == cbor::head(4, 4)[0]);
    }

    proof fn plain(&self) {
    }
}

/// The header of a result stream.
#[derive(Debug, Clone, PartialEq, Eq)]
pub struct ResultHeader {
    pub kind: Literal<1>,
    pub request: Id,
    pub generation: Id,
    pub work: WorkKey,
    pub attempt: Id,
    pub index: OutputIndex,
    pub length: Number,
    pub sha256: Digest,
}

impl ResultHeader {
    /// The fields in the order of their encoding.
    pub open spec fn fields(self) -> (Literal<1>, (Id, (Id, (WorkKey, (Id, (OutputIndex, (Number, Digest))))))) {
        (self.kind, (self.request, (self.generation, (self.work, (self.attempt, (self.index, (self.length, self.sha256)))))))
    }
}

impl Wire for ResultHeader {
    open spec fn wire(&self) -> Seq<u8> {
        cbor::head(4, 8) + self.fields().wire()
    }

    open spec fn shaped(&self) -> bool {
        self.fields().shaped()
    }

    open spec fn valid(&self) -> bool {
        self.fields().valid()
    }

    open spec fn refusal(&self) -> ErrorCode {
        ErrorCode::FrameError
    }

    open spec fn agrees(&self, other: &Self) -> bool {
        self.fields().agrees(&other.fields())
    }

    proof fn valid_shaped(&self) {
        self.fields().valid_shaped();
    }

    proof fn prefix_free(a: &Self, b: &Self, x: Seq<u8>, y: Seq<u8>) {
        let ra = a.fields().wire() + x;
        let rb = b.fields().wire() + y;
        assert(a.wire() + x =~= cbor::head(4, 8) + ra);
        assert(b.wire() + y =~= cbor::head(4, 8) + rb);
        cbor::lemma_head_prefix_free(4, 8, ra, 4, 8, rb);
        <(Literal<1>, (Id, (Id, (WorkKey, (Id, (OutputIndex, (Number, Digest)))))))>::prefix_free(&a.fields(), &b.fields(), x, y);
    }

    proof fn agrees_reflexive(&self) {
        self.fields().agrees_reflexive();
    }

    proof fn agrees_carries(a: &Self, b: &Self) {
        <(Literal<1>, (Id, (Id, (WorkKey, (Id, (OutputIndex, (Number, Digest)))))))>::agrees_carries(&a.fields(), &b.fields());
    }

    fn check(&self) -> (r: Result<(), Error>) {
        self.kind.check()?;
        self.request.check()?;
        self.generation.check()?;
        self.work.check()?;
        self.attempt.check()?;
        self.index.check()?;
        self.length.check()?;
        self.sha256.check()?;
        Ok(())
    }

    fn same(&self, other: &Self) -> (r: bool) {
        self.kind.same(&other.kind)
            && self.request.same(&other.request)
            && self.generation.same(&other.generation)
            && self.work.same(&other.work)
            && self.attempt.same(&other.attempt)
            && self.index.same(&other.index)
            && self.length.same(&other.length)
            && self.sha256.same(&other.sha256)
    }

    fn duplicate(&self) -> (r: Self) {
        ResultHeader {
            kind: self.kind.duplicate(),
            request: self.request.duplicate(),
            generation: self.generation.duplicate(),
            work: self.work.duplicate(),
            attempt: self.attempt.duplicate(),
            index: self.index.duplicate(),
            length: self.length.duplicate(),
            sha256: self.sha256.duplicate(),
        }
    }

    fn write(&self, w: &mut Writer) {
        w.array(8);
        self.kind.write(w);
        self.request.write(w);
        self.generation.write(w);
        self.work.write(w);
        self.attempt.write(w);
        self.index.write(w);
        self.length.write(w);
        self.sha256.write(w);
        proof {
            broadcast use wire::lemma_concat_assoc;

            assert(w@ == old(w)@ + self.wire());
        }
    }

    fn read(bytes: &[u8], pos: usize) -> (r: Result<(Self, usize), Error>) {
        proof {
            assert forall|v: ResultHeader|
                v.shaped() && #[trigger] cbor::at(bytes@, pos as int, v.wire()) implies cbor::at(
                bytes@,
                pos as int,
                cbor::head(4, 8),
            ) && cbor::at(bytes@, pos + cbor::head(4, 8).len(), v.fields().wire()) by {
                cbor::lemma_at_concat(bytes@, pos as int, cbor::head(4, 8), v.fields().wire());
            }
        }
        let start = read_array_head(bytes, pos, 8)?;
        let (fields, next) = <(Literal<1>, (Id, (Id, (WorkKey, (Id, (OutputIndex, (Number, Digest)))))))>::read(bytes, start)?;
        let (kind, (request, (generation, (work, (attempt, (index, (length, sha256))))))) = fields;
        Ok((ResultHeader { kind, request, generation, work, attempt, index, length, sha256 }, next))
    }
}

impl Solid for ResultHeader {
    proof fn solid(&self) {
        cbor::lemma_head(4, 8);
        assert(self.wire()[0] == cbor::head(4, 8)[0]);
    }

    proof fn plain(&self) {
    }
}

/// One output of an attempt.
#[derive(Debug, Clone, PartialEq, Eq)]
pub struct Output {
    pub index: OutputIndex,
    pub length: Number,
    pub sha256: Digest,
    pub content_type: ApplicationLabel,
    pub locator: ResultLocator,
}

impl Output {
    /// The fields in the order of their encoding.
    pub open spec fn fields(self) -> (OutputIndex, (Number, (Digest, (ApplicationLabel, ResultLocator)))) {
        (self.index, (self.length, (self.sha256, (self.content_type, self.locator))))
    }
}

impl Wire for Output {
    open spec fn wire(&self) -> Seq<u8> {
        cbor::head(4, 5) + self.fields().wire()
    }

    open spec fn shaped(&self) -> bool {
        self.fields().shaped()
    }

    open spec fn valid(&self) -> bool {
        self.fields().valid()
    }

    open spec fn refusal(&self) -> ErrorCode {
        ErrorCode::FrameError
    }

    open spec fn agrees(&self, other: &Self) -> bool {
        self.fields().agrees(&other.fields())
    }

    proof fn valid_shaped(&self) {
        self.fields().valid_shaped();
    }

    proof fn prefix_free(a: &Self, b: &Self, x: Seq<u8>, y: Seq<u8>) {
        let ra = a.fields().wire() + x;
        let rb = b.fields().wire() + y;
        assert(a.wire() + x =~= cbor::head(4, 5) + ra);
        assert(b.wire() + y =~= cbor::head(4, 5) + rb);
        cbor::lemma_head_prefix_free(4, 5, ra, 4, 5, rb);
        <(OutputIndex, (Number, (Digest, (ApplicationLabel, ResultLocator))))>::prefix_free(&a.fields(), &b.fields(), x, y);
    }

    proof fn agrees_reflexive(&self) {
        self.fields().agrees_reflexive();
    }

    proof fn agrees_carries(a: &Self, b: &Self) {
        <(OutputIndex, (Number, (Digest, (ApplicationLabel, ResultLocator))))>::agrees_carries(&a.fields(), &b.fields());
    }

    fn check(&self) -> (r: Result<(), Error>) {
        self.index.check()?;
        self.length.check()?;
        self.sha256.check()?;
        self.content_type.check()?;
        self.locator.check()?;
        Ok(())
    }

    fn same(&self, other: &Self) -> (r: bool) {
        self.index.same(&other.index)
            && self.length.same(&other.length)
            && self.sha256.same(&other.sha256)
            && self.content_type.same(&other.content_type)
            && self.locator.same(&other.locator)
    }

    fn duplicate(&self) -> (r: Self) {
        Output {
            index: self.index.duplicate(),
            length: self.length.duplicate(),
            sha256: self.sha256.duplicate(),
            content_type: self.content_type.duplicate(),
            locator: self.locator.duplicate(),
        }
    }

    fn write(&self, w: &mut Writer) {
        w.array(5);
        self.index.write(w);
        self.length.write(w);
        self.sha256.write(w);
        self.content_type.write(w);
        self.locator.write(w);
        proof {
            broadcast use wire::lemma_concat_assoc;

            assert(w@ == old(w)@ + self.wire());
        }
    }

    fn read(bytes: &[u8], pos: usize) -> (r: Result<(Self, usize), Error>) {
        proof {
            assert forall|v: Output|
                v.shaped() && #[trigger] cbor::at(bytes@, pos as int, v.wire()) implies cbor::at(
                bytes@,
                pos as int,
                cbor::head(4, 5),
            ) && cbor::at(bytes@, pos + cbor::head(4, 5).len(), v.fields().wire()) by {
                cbor::lemma_at_concat(bytes@, pos as int, cbor::head(4, 5), v.fields().wire());
            }
        }
        let start = read_array_head(bytes, pos, 5)?;
        let (fields, next) = <(OutputIndex, (Number, (Digest, (ApplicationLabel, ResultLocator))))>::read(bytes, start)?;
        let (index, (length, (sha256, (content_type, locator)))) = fields;
        Ok((Output { index, length, sha256, content_type, locator }, next))
    }
}

impl Solid for Output {
    proof fn solid(&self) {
        cbor::lemma_head(4, 5);
        assert(self.wire()[0] == cbor::head(4, 5)[0]);
    }

    proof fn plain(&self) {
    }
}

/// The octets of all outputs together.
pub open spec fn output_octets(outputs: Seq<Output>) -> nat
    decreases outputs.len(),
{
    if outputs.len() == 0 {
        0
    } else {
        output_octets(outputs.drop_last()) + outputs.last().length.0 as nat
    }
}

pub proof fn lemma_output_octets_grow(outputs: Seq<Output>, i: int)
    requires
        0 <= i <= outputs.len(),
    ensures
        output_octets(outputs.take(i)) <= output_octets(outputs),
    decreases outputs.len() - i,
{
    if i < outputs.len() {
        lemma_output_octets_grow(outputs, i + 1);
        assert(outputs.take(i + 1).drop_last() =~= outputs.take(i));
    } else {
        assert(outputs.take(i) =~= outputs);
    }
}

proof fn lemma_output_octets_agree(a: Seq<Output>, b: Seq<Output>)
    requires
        wire::items_agree(a, b),
    ensures
        output_octets(a) == output_octets(b),
    decreases a.len(),
{
    if a.len() > 0 {
        assert(a.last().agrees(&b.last()));
        assert forall|i: int| 0 <= i < a.drop_last().len() implies (
        #[trigger] a.drop_last()[i]).agrees(&b.drop_last()[i]) by {
            assert(a[i].agrees(&b[i]));
        }
        lemma_output_octets_agree(a.drop_last(), b.drop_last());
    }
}

/// The output stands at its own index and its locator names exactly it.
pub open spec fn output_placed(
    output: Output,
    i: int,
    generation: Id,
    work: WorkKey,
    attempt: Id,
) -> bool {
    &&& output.index.0 == i
    &&& uri::target_of(encode_utf8(output.locator.0@)) matches Some(t) && t.generation == generation
        && t.work == work && t.attempt == attempt && t.index == output.index
}

/// The committed outputs of a successful attempt.
#[derive(Debug, Clone, PartialEq, Eq)]
pub struct Manifest {
    pub version: Literal<2>,
    pub authority: IdentityLabel,
    pub owner: IdentityLabel,
    pub generation: Id,
    pub work: WorkKey,
    pub attempt: Id,
    pub input_sha256: Digest,
    pub committed_at: Number,
    pub available_until: Number,
    pub outputs: Vec<Output>,
}

impl Manifest {
    /// The fields in the order of their encoding.
    pub open spec fn fields(self) -> (Literal<2>, (IdentityLabel, (IdentityLabel, (Id, (WorkKey, (Id, (Digest, (Number, (Number, Vec<Output>))))))))) {
        (self.version, (self.authority, (self.owner, (self.generation, (self.work, (self.attempt, (self.input_sha256, (self.committed_at, (self.available_until, self.outputs)))))))))
    }

    /// What must hold between the fields.
    pub open spec fn rule(self) -> bool {
        &&& self.committed_at.0 < self.available_until.0
        &&& self.available_until.0 - self.committed_at.0 <= MAX_DURATION
        &&& forall|i: int|
            0 <= i < self.outputs@.len() ==> output_placed(
                #[trigger] self.outputs@[i],
                i,
                self.generation,
                self.work,
                self.attempt,
            )
        &&& output_octets(self.outputs@) <= MAX_NUMBER
    }
}

impl Wire for Manifest {
    open spec fn wire(&self) -> Seq<u8> {
        cbor::head(4, 10) + self.fields().wire()
    }

    open spec fn shaped(&self) -> bool {
        self.fields().shaped()
    }

    open spec fn valid(&self) -> bool {
        self.fields().valid() && self.rule()
    }

    open spec fn refusal(&self) -> ErrorCode {
        ErrorCode::FrameError
    }

    open spec fn agrees(&self, other: &Self) -> bool {
        self.fields().agrees(&other.fields())
    }

    proof fn valid_shaped(&self) {
        self.fields().valid_shaped();
    }

    proof fn prefix_free(a: &Self, b: &Self, x: Seq<u8>, y: Seq<u8>) {
        let ra = a.fields().wire() + x;
        let rb = b.fields().wire() + y;
        assert(a.wire() + x =~= cbor::head(4, 10) + ra);
        assert(b.wire() + y =~= cbor::head(4, 10) + rb);
        cbor::lemma_head_prefix_free(4, 10, ra, 4, 10, rb);
        <(Literal<2>, (IdentityLabel, (IdentityLabel, (Id, (WorkKey, (Id, (Digest, (Number, (Number, Vec<Output>)))))))))>::prefix_free(&a.fields(), &b.fields(), x, y);
    }

    proof fn agrees_reflexive(&self) {
        self.fields().agrees_reflexive();
    }

    proof fn agrees_carries(a: &Self, b: &Self) {
        <(Literal<2>, (IdentityLabel, (IdentityLabel, (Id, (WorkKey, (Id, (Digest, (Number, (Number, Vec<Output>)))))))))>::agrees_carries(&a.fields(), &b.fields());
        lemma_output_octets_agree(a.outputs@, b.outputs@);
        assert forall|i: int| 0 <= i < a.outputs@.len() implies output_placed(
            #[trigger] a.outputs@[i],
            i,
            a.generation,
            a.work,
            a.attempt,
        ) == output_placed(b.outputs@[i], i, b.generation, b.work, b.attempt) by {
            assert(a.outputs@[i].agrees(&b.outputs@[i]));
        }
        assert forall|i: int| 0 <= i < a.outputs@.len() implies output_placed(
            #[trigger] b.outputs@[i],
            i,
            b.generation,
            b.work,
            b.attempt,
        ) == output_placed(a.outputs@[i], i, a.generation, a.work, a.attempt) by {
            assert(a.outputs@[i].agrees(&b.outputs@[i]));
        }
    }

    fn check(&self) -> (r: Result<(), Error>) {
        self.version.check()?;
        self.authority.check()?;
        self.owner.check()?;
        self.generation.check()?;
        self.work.check()?;
        self.attempt.check()?;
        self.input_sha256.check()?;
        self.committed_at.check()?;
        self.available_until.check()?;
        self.outputs.check()?;
        require(self.available_until.0 > self.committed_at.0, "nonpositive output retention")?;
        require(
            self.available_until.0 - self.committed_at.0 <= MAX_DURATION,
            "output retention exceeds maximum",
        )?;
        let mut total: u64 = 0;
        let mut i: usize = 0;
        while i < self.outputs.len()
            invariant
                i <= self.outputs@.len(),
                total == output_octets(self.outputs@.take(i as int)),
                total <= MAX_NUMBER,
                forall|j: int|
                    0 <= j < i ==> output_placed(
                        #[trigger] self.outputs@[j],
                        j,
                        self.generation,
                        self.work,
                        self.attempt,
                    ),
            decreases self.outputs@.len() - i,
        {
            let output = &self.outputs[i];
            let ghost placed = output_placed(
                self.outputs@[i as int],
                i as int,
                self.generation,
                self.work,
                self.attempt,
            );
            if output.index.0 != i as u64 {
                assert(!placed);
                return Err(Error::frame("noncontiguous output index"));
            }
            let target = match output.locator.target() {
                Ok(target) => target,
                Err(e) => {
                    assert(!placed);
                    return Err(e);
                },
            };
            if !(target.generation == self.generation && target.work == self.work && target.attempt
                == self.attempt && target.index == output.index) {
                assert(!placed);
                return Err(Error::frame("locator/manifest identity mismatch"));
            }
            proof {
                lemma_output_octets_grow(self.outputs@, i + 1);
                assert(self.outputs@.take(i + 1).drop_last() =~= self.outputs@.take(i as int));
            }
            match total.checked_add(output.length.0) {
                Some(n) => {
                    if n > MAX_NUMBER {
                        return Err(Error::frame("output aggregate overflow"));
                    }
                    total = n;
                },
                None => {
                    return Err(Error::frame("output aggregate overflow"));
                },
            }
            i += 1;
        }
        assert(self.outputs@.take(i as int) =~= self.outputs@);
        Ok(())
    }

    fn same(&self, other: &Self) -> (r: bool) {
        self.version.same(&other.version)
            && self.authority.same(&other.authority)
            && self.owner.same(&other.owner)
            && self.generation.same(&other.generation)
            && self.work.same(&other.work)
            && self.attempt.same(&other.attempt)
            && self.input_sha256.same(&other.input_sha256)
            && self.committed_at.same(&other.committed_at)
            && self.available_until.same(&other.available_until)
            && self.outputs.same(&other.outputs)
    }

    fn duplicate(&self) -> (r: Self) {
        Manifest {
            version: self.version.duplicate(),
            authority: self.authority.duplicate(),
            owner: self.owner.duplicate(),
            generation: self.generation.duplicate(),
            work: self.work.duplicate(),
            attempt: self.attempt.duplicate(),
            input_sha256: self.input_sha256.duplicate(),
            committed_at: self.committed_at.duplicate(),
            available_until: self.available_until.duplicate(),
            outputs: self.outputs.duplicate(),
        }
    }

    fn write(&self, w: &mut Writer) {
        w.array(10);
        self.version.write(w);
        self.authority.write(w);
        self.owner.write(w);
        self.generation.write(w);
        self.work.write(w);
        self.attempt.write(w);
        self.input_sha256.write(w);
        self.committed_at.write(w);
        self.available_until.write(w);
        self.outputs.write(w);
        proof {
            broadcast use wire::lemma_concat_assoc;

            assert(w@ == old(w)@ + self.wire());
        }
    }

    fn read(bytes: &[u8], pos: usize) -> (r: Result<(Self, usize), Error>) {
        proof {
            assert forall|v: Manifest|
                v.shaped() && #[trigger] cbor::at(bytes@, pos as int, v.wire()) implies cbor::at(
                bytes@,
                pos as int,
                cbor::head(4, 10),
            ) && cbor::at(bytes@, pos + cbor::head(4, 10).len(), v.fields().wire()) by {
                cbor::lemma_at_concat(bytes@, pos as int, cbor::head(4, 10), v.fields().wire());
            }
        }
        let start = read_array_head(bytes, pos, 10)?;
        let (fields, next) = <(Literal<2>, (IdentityLabel, (IdentityLabel, (Id, (WorkKey, (Id, (Digest, (Number, (Number, Vec<Output>)))))))))>::read(bytes, start)?;
        let (version, (authority, (owner, (generation, (work, (attempt, (input_sha256, (committed_at, (available_until, outputs))))))))) = fields;
        Ok((Manifest { version, authority, owner, generation, work, attempt, input_sha256, committed_at, available_until, outputs }, next))
    }
}

impl Solid for Manifest {
    proof fn solid(&self) {
        cbor::lemma_head(4, 10);
        assert(self.wire()[0] == cbor::head(4, 10)[0]);
    }

    proof fn plain(&self) {
    }
}

/// What a client may see of one unit of work.
#[derive(Debug, Clone, PartialEq, Eq)]
pub struct WorkView {
    pub work: WorkKey,
    pub state: State,
    pub attempt: Number,
    pub input: Option<Input>,
    pub admitted_at: Option<Number>,
    pub deadline: Option<Number>,
    pub terminal_at: Option<Number>,
    pub receipt_until: Option<Number>,
    pub output_until: Option<Number>,
    pub child: Option<ChildScope>,
    pub manifest: Option<Manifest>,
    pub diagnostic: Option<Diagnostic>,
}

impl WorkView {
    /// The fields in the order of their encoding.
    pub open spec fn fields(self) -> (WorkKey, (State, (Number, (Option<Input>, (Option<Number>, (Option<Number>, (Option<Number>, (Option<Number>, (Option<Number>, (Option<ChildScope>, (Option<Manifest>, Option<Diagnostic>))))))))))) {
        (self.work, (self.state, (self.attempt, (self.input, (self.admitted_at, (self.deadline, (self.terminal_at, (self.receipt_until, (self.output_until, (self.child, (self.manifest, self.diagnostic)))))))))))
    }

    /// What must hold between the fields.
    pub open spec fn rule(self) -> bool {
        &&& self.admission_rule()
        &&& self.terminal_rule()
        &&& self.success_rule()
    }
}

impl Wire for WorkView {
    open spec fn wire(&self) -> Seq<u8> {
        cbor::head(4, 12) + self.fields().wire()
    }

    open spec fn shaped(&self) -> bool {
        self.fields().shaped()
    }

    open spec fn valid(&self) -> bool {
        self.fields().valid() && self.rule()
    }

    open spec fn refusal(&self) -> ErrorCode {
        ErrorCode::FrameError
    }

    open spec fn agrees(&self, other: &Self) -> bool {
        self.fields().agrees(&other.fields())
    }

    proof fn valid_shaped(&self) {
        self.fields().valid_shaped();
    }

    proof fn prefix_free(a: &Self, b: &Self, x: Seq<u8>, y: Seq<u8>) {
        let ra = a.fields().wire() + x;
        let rb = b.fields().wire() + y;
        assert(a.wire() + x =~= cbor::head(4, 12) + ra);
        assert(b.wire() + y =~= cbor::head(4, 12) + rb);
        cbor::lemma_head_prefix_free(4, 12, ra, 4, 12, rb);
        <(WorkKey, (State, (Number, (Option<Input>, (Option<Number>, (Option<Number>, (Option<Number>, (Option<Number>, (Option<Number>, (Option<ChildScope>, (Option<Manifest>, Option<Diagnostic>)))))))))))>::prefix_free(&a.fields(), &b.fields(), x, y);
    }

    proof fn agrees_reflexive(&self) {
        self.fields().agrees_reflexive();
    }

    proof fn agrees_carries(a: &Self, b: &Self) {
        <(WorkKey, (State, (Number, (Option<Input>, (Option<Number>, (Option<Number>, (Option<Number>, (Option<Number>, (Option<Number>, (Option<ChildScope>, (Option<Manifest>, Option<Diagnostic>)))))))))))>::agrees_carries(&a.fields(), &b.fields());
    }

    fn check(&self) -> (r: Result<(), Error>) {
        self.work.check()?;
        self.state.check()?;
        self.attempt.check()?;
        self.input.check()?;
        self.admitted_at.check()?;
        self.deadline.check()?;
        self.terminal_at.check()?;
        self.receipt_until.check()?;
        self.output_until.check()?;
        self.child.check()?;
        self.manifest.check()?;
        self.diagnostic.check()?;
        match self.admitted_at {
            Some(admitted) => {
                let deadline = match self.deadline {
                    Some(deadline) => deadline,
                    None => {
                        return Err(Error::frame("admitted work lacks deadline"));
                    },
                };
                require(
                    self.input.is_some() && self.attempt.0 > 0 && self.state.0 != State::DECLARED,
                    "admitted work lacks input/attempt",
                )?;
                require(
                    deadline.0 > admitted.0 && deadline.0 - admitted.0 <= MAX_DURATION,
                    "invalid execution interval",
                )?;
            },
            None => {
                require(
                    self.input.is_none() && self.deadline.is_none() && self.child.is_none()
                        && self.attempt.0 == 0 && (self.state.0 == State::DECLARED || self.state.0
                        == State::CANCELLING || self.state.0 == State::CANCELLED || self.state.0
                        == State::SKIPPED),
                    "invalid inputless work",
                )?;
            },
        }
        match &self.child {
            Some(child) => {
                require(
                    child.scope.0 > self.work.scope.0,
                    "child scope is not newer than parent",
                )?;
            },
            None => {
                require(
                    self.state.0 != State::WAITING_CHILDREN,
                    "waiting for children without child scope",
                )?;
            },
        }
        if self.state.is_terminal() {
            let terminal = match self.terminal_at {
                Some(terminal) => terminal,
                None => {
                    return Err(Error::frame("terminal time absent"));
                },
            };
            let receipt = match self.receipt_until {
                Some(receipt) => receipt,
                None => {
                    return Err(Error::frame("receipt expiry absent"));
                },
            };
            require(
                receipt.0 > terminal.0 && receipt.0 - terminal.0 <= MAX_DURATION,
                "invalid receipt retention",
            )?;
            match self.admitted_at {
                Some(admitted) => {
                    require(admitted.0 <= terminal.0, "terminal precedes admission")?;
                },
                None => {},
            }
        } else {
            require(
                self.terminal_at.is_none() && self.receipt_until.is_none()
                    && self.output_until.is_none() && self.manifest.is_none(),
                "nonterminal work has terminal evidence",
            )?;
        }
        if self.state.0 == State::FAILED || self.state.0 == State::AWAITING_RETRY {
            require(self.diagnostic.is_some(), "failure diagnostic absent")?;
        }
        if self.state.0 != State::SUCCEEDED {
            return require(
                self.manifest.is_none() && self.output_until.is_none(),
                "nonsuccess manifest",
            );
        }
        let input = match &self.input {
            Some(input) => input,
            None => {
                return Err(Error::frame("success without input"));
            },
        };
        require(
            self.manifest.is_some() == self.output_until.is_some(),
            "partial success manifest",
        )?;
        match &self.manifest {
            Some(manifest) => require(
                manifest.work == self.work && manifest.attempt.0 == self.attempt.0
                    && same_time(Some(manifest.committed_at), self.terminal_at) && same_time(
                    Some(manifest.available_until),
                    self.output_until,
                ) && input.sha256.same(&manifest.input_sha256),
                "manifest disagrees with work view",
            ),
            None => Ok(()),
        }
    }

    fn same(&self, other: &Self) -> (r: bool) {
        self.work.same(&other.work)
            && self.state.same(&other.state)
            && self.attempt.same(&other.attempt)
            && self.input.same(&other.input)
            && self.admitted_at.same(&other.admitted_at)
            && self.deadline.same(&other.deadline)
            && self.terminal_at.same(&other.terminal_at)
            && self.receipt_until.same(&other.receipt_until)
            && self.output_until.same(&other.output_until)
            && self.child.same(&other.child)
            && self.manifest.same(&other.manifest)
            && self.diagnostic.same(&other.diagnostic)
    }

    fn duplicate(&self) -> (r: Self) {
        WorkView {
            work: self.work.duplicate(),
            state: self.state.duplicate(),
            attempt: self.attempt.duplicate(),
            input: self.input.duplicate(),
            admitted_at: self.admitted_at.duplicate(),
            deadline: self.deadline.duplicate(),
            terminal_at: self.terminal_at.duplicate(),
            receipt_until: self.receipt_until.duplicate(),
            output_until: self.output_until.duplicate(),
            child: self.child.duplicate(),
            manifest: self.manifest.duplicate(),
            diagnostic: self.diagnostic.duplicate(),
        }
    }

    fn write(&self, w: &mut Writer) {
        w.array(12);
        self.work.write(w);
        self.state.write(w);
        self.attempt.write(w);
        self.input.write(w);
        self.admitted_at.write(w);
        self.deadline.write(w);
        self.terminal_at.write(w);
        self.receipt_until.write(w);
        self.output_until.write(w);
        self.child.write(w);
        self.manifest.write(w);
        self.diagnostic.write(w);
        proof {
            broadcast use wire::lemma_concat_assoc;

            assert(w@ == old(w)@ + self.wire());
        }
    }

    fn read(bytes: &[u8], pos: usize) -> (r: Result<(Self, usize), Error>) {
        proof {
            assert forall|v: WorkView|
                v.shaped() && #[trigger] cbor::at(bytes@, pos as int, v.wire()) implies cbor::at(
                bytes@,
                pos as int,
                cbor::head(4, 12),
            ) && cbor::at(bytes@, pos + cbor::head(4, 12).len(), v.fields().wire()) by {
                cbor::lemma_at_concat(bytes@, pos as int, cbor::head(4, 12), v.fields().wire());
            }
        }
        let start = read_array_head(bytes, pos, 12)?;
        let (fields, next) = <(WorkKey, (State, (Number, (Option<Input>, (Option<Number>, (Option<Number>, (Option<Number>, (Option<Number>, (Option<Number>, (Option<ChildScope>, (Option<Manifest>, Option<Diagnostic>)))))))))))>::read(bytes, start)?;
        let (work, (state, (attempt, (input, (admitted_at, (deadline, (terminal_at, (receipt_until, (output_until, (child, (manifest, diagnostic))))))))))) = fields;
        Ok((WorkView { work, state, attempt, input, admitted_at, deadline, terminal_at, receipt_until, output_until, child, manifest, diagnostic }, next))
    }
}

impl Solid for WorkView {
    proof fn solid(&self) {
        cbor::lemma_head(4, 12);
        assert(self.wire()[0] == cbor::head(4, 12)[0]);
    }

    proof fn plain(&self) {
    }
}

fn same_time(a: Option<Number>, b: Option<Number>) -> (r: bool)
    ensures
        r == (a == b),
{
    match (a, b) {
        (Some(x), Some(y)) => x.0 == y.0,
        (None, None) => true,
        _ => false,
    }
}

impl WorkView {
    /// Admitted work has an input, an attempt and an execution interval; work that was never
    /// admitted has none of these and cannot have run.
    pub open spec fn admission_rule(self) -> bool {
        &&& match self.admitted_at {
            Some(admitted) => {
                &&& self.deadline matches Some(deadline) && admitted.0 < deadline.0 && deadline.0
                    - admitted.0 <= MAX_DURATION
                &&& self.input is Some
                &&& self.attempt.0 > 0
                &&& self.state.0 != State::DECLARED
            },
            None => {
                &&& self.input is None
                &&& self.deadline is None
                &&& self.child is None
                &&& self.attempt.0 == 0
                &&& (self.state.0 == State::DECLARED || self.state.0 == State::CANCELLING
                    || self.state.0 == State::CANCELLED || self.state.0 == State::SKIPPED)
            },
        }
        &&& self.child matches Some(child) ==> child.scope.0 > self.work.scope.0
        &&& self.state.0 == State::WAITING_CHILDREN ==> self.child is Some
    }

    /// Terminal work, and no other, has a terminal time and a receipt that outlives it.
    pub open spec fn terminal_rule(self) -> bool {
        &&& if self.state.terminal() {
            &&& self.terminal_at matches Some(terminal) && self.receipt_until matches Some(receipt)
                && terminal.0 < receipt.0 && receipt.0 - terminal.0 <= MAX_DURATION && (
            self.admitted_at matches Some(admitted) ==> admitted.0 <= terminal.0)
        } else {
            &&& self.terminal_at is None
            &&& self.receipt_until is None
            &&& self.output_until is None
            &&& self.manifest is None
        }
        &&& (self.state.0 == State::FAILED || self.state.0 == State::AWAITING_RETRY)
            ==> self.diagnostic is Some
    }

    /// Only success has outputs, and its manifest commits to this very work.
    pub open spec fn success_rule(self) -> bool {
        if self.state.0 != State::SUCCEEDED {
            self.manifest is None && self.output_until is None
        } else {
            &&& self.input is Some
            &&& self.manifest is Some <==> self.output_until is Some
            &&& self.manifest matches Some(m) ==> {
                &&& m.work == self.work
                &&& m.attempt.0 == self.attempt.0
                &&& Some(m.committed_at) == self.terminal_at
                &&& Some(m.available_until) == self.output_until
                &&& self.input->0.sha256.0@ == m.input_sha256.0@
            }
        }
    }

    /// The success shape that depends on the selected profiles, besides every context-free rule.
    pub fn validate_profiles(&self, results_selected: bool) -> (r: Result<(), Error>)
        ensures
            match r {
                Ok(_) => self.valid() && (self.state.0 == State::SUCCEEDED ==> (self.manifest is Some)
                    == results_selected),
                Err(e) => e.code == ErrorCode::FrameError && !(self.valid() && (self.state.0
                    == State::SUCCEEDED ==> (self.manifest is Some) == results_selected)),
            },
    {
        self.check()?;
        require(
            self.state.0 != State::SUCCEEDED || self.manifest.is_some() == results_selected,
            "success disagrees with selected result profile",
        )
    }
}

/// Which request a response or a refusal answers.
#[derive(Debug, Clone, PartialEq, Eq)]
pub enum RequestTag {
    Control { request: Id },
    Input { stream: StreamId },
}

impl RequestTag {
    /// The number that announces the variant.
    pub open spec fn tag(self) -> nat {
        match self {
            RequestTag::Control { .. } => 0,
            RequestTag::Input { .. } => 1,
        }
    }

    /// The number of elements of the encoded array.
    pub open spec fn arity(self) -> nat {
        match self {
            RequestTag::Control { .. } => 2,
            RequestTag::Input { .. } => 2,
        }
    }

    /// The encoding of the fields.
    pub open spec fn payload(self) -> Seq<u8> {
        match self {
            RequestTag::Control { request } => request.wire(),
            RequestTag::Input { stream } => stream.wire(),
        }
    }

    /// What must hold between the fields.
    pub open spec fn rule(self) -> bool {
        match self {
            RequestTag::Input { stream } => stream.0 % 4 == 2,
            _ => true,
        }
    }
}

impl Wire for RequestTag {
    open spec fn wire(&self) -> Seq<u8> {
        cbor::head(4, self.arity()) + (cbor::head(0, self.tag()) + self.payload())
    }

    open spec fn shaped(&self) -> bool {
        match *self {
            RequestTag::Control { request } => request.shaped(),
            RequestTag::Input { stream } => stream.shaped(),
        }
    }

    open spec fn valid(&self) -> bool {
        &&& self.rule()
        &&& match *self {
            RequestTag::Control { request } => request.valid(),
            RequestTag::Input { stream } => stream.valid(),
        }
    }

    open spec fn refusal(&self) -> ErrorCode {
        ErrorCode::FrameError
    }

    open spec fn agrees(&self, other: &Self) -> bool {
        match (*self, *other) {
            (RequestTag::Control { request: a_request }, RequestTag::Control { request: b_request }) => a_request.agrees(
                &b_request,
            ),
            (RequestTag::Input { stream: a_stream }, RequestTag::Input { stream: b_stream }) => a_stream.agrees(
                &b_stream,
            ),
            _ => false,
        }
    }

    proof fn valid_shaped(&self) {
        match *self {
            RequestTag::Control { request } => request.valid_shaped(),
            RequestTag::Input { stream } => stream.valid_shaped(),
        }
    }

    proof fn prefix_free(a: &Self, b: &Self, x: Seq<u8>, y: Seq<u8>) {
        wire::lemma_message_prefix(
            (a.arity(), a.tag(), a.payload()),
            x,
            (b.arity(), b.tag(), b.payload()),
            y,
        );
        match (*a, *b) {
            (RequestTag::Control { request: a_request }, RequestTag::Control { request: b_request }) => <Id>::prefix_free(
                &a_request,
                &b_request,
                x,
                y,
            ),
            (RequestTag::Input { stream: a_stream }, RequestTag::Input { stream: b_stream }) => <StreamId>::prefix_free(
                &a_stream,
                &b_stream,
                x,
                y,
            ),
            _ => {},
        }
    }

    proof fn agrees_reflexive(&self) {
        match *self {
            RequestTag::Control { request } => request.agrees_reflexive(),
            RequestTag::Input { stream } => stream.agrees_reflexive(),
        }
    }

    proof fn agrees_carries(a: &Self, b: &Self) {
        match (*a, *b) {
            (RequestTag::Control { request: a_request }, RequestTag::Control { request: b_request }) => {
                <Id>::agrees_carries(
                    &a_request,
                    &b_request,
                );
            },
            (RequestTag::Input { stream: a_stream }, RequestTag::Input { stream: b_stream }) => {
                <StreamId>::agrees_carries(
                    &a_stream,
                    &b_stream,
                );
            },
            _ => {},
        }
    }

    fn check(&self) -> (r: Result<(), Error>) {
        match self {
            RequestTag::Control { request } => {
                request.check()?;
                Ok(())
            },
            RequestTag::Input { stream } => {
                stream.check()?;
                require(stream.0 % 4 == 2, "input tag must name client unidirectional stream")
            },
        }
    }

    fn same(&self, other: &Self) -> (r: bool) {
        match (self, other) {
            (RequestTag::Control { request: a_request }, RequestTag::Control { request: b_request }) => a_request.same(b_request),
            (RequestTag::Input { stream: a_stream }, RequestTag::Input { stream: b_stream }) => a_stream.same(b_stream),
            _ => false,
        }
    }

    fn duplicate(&self) -> (r: Self) {
        match self {
            RequestTag::Control { request } => RequestTag::Control {
                request: request.duplicate(),
            },
            RequestTag::Input { stream } => RequestTag::Input {
                stream: stream.duplicate(),
            },
        }
    }

    fn write(&self, w: &mut Writer) {
        match self {
            RequestTag::Control { request } => {
                w.array(2);
                w.uint(0);
                request.write(w);
                proof {
                    broadcast use wire::lemma_concat_assoc;

                    assert(w@ == old(w)@ + self.wire());
                }
            },
            RequestTag::Input { stream } => {
                w.array(2);
                w.uint(1);
                stream.write(w);
                proof {
                    broadcast use wire::lemma_concat_assoc;

                    assert(w@ == old(w)@ + self.wire());
                }
            },
        }
    }

    fn read(bytes: &[u8], pos: usize) -> (r: Result<(Self, usize), Error>) {
        let ghost b = bytes@;
        proof {
            assert forall|v: RequestTag|
                v.shaped() && #[trigger] cbor::at(b, pos as int, v.wire()) implies v.opens(b, pos as int) by {
                v.lemma_opens(b, pos as int);
            }
        }
        let (count, middle) = match get_array(bytes, pos) {
            Some(o) => o,
            None => return Err(malformed()),
        };
        let (tag, body) = read_uint(bytes, middle)?;
        match tag {
            0 => {
                require(count == Some(2), "wrong message cardinality")?;
                let (fields, next) = <Id>::read(bytes, body)?;
                let request = fields;
                Ok((RequestTag::Control { request }, next))
            },
            1 => {
                require(count == Some(2), "wrong message cardinality")?;
                let (fields, next) = <StreamId>::read(bytes, body)?;
                let stream = fields;
                Ok((RequestTag::Input { stream }, next))
            },
            _ => Err(Error::frame("unknown message discriminant")),
        }
    }
}

impl RequestTag {
    /// The value stands at `p`: its array head, its tag and its fields, one behind the other.
    pub open spec fn opens(self, b: Seq<u8>, p: int) -> bool {
        let middle = p + cbor::head(4, self.arity()).len();
        let body = middle + cbor::head(0, self.tag()).len();
        &&& 0 <= p < b.len()
        &&& cbor::major_at(b, p) == 4
        &&& b[p] != 0x9f
        &&& cbor::argument(b, p) == Some((self.arity(), middle))
        &&& cbor::at(b, middle, cbor::head(0, self.tag()))
        &&& cbor::at(b, body, self.payload())
        &&& body + self.payload().len() == p + self.wire().len()
    }

    proof fn lemma_opens(self, b: Seq<u8>, p: int)
        requires
            cbor::at(b, p, self.wire()),
        ensures
            self.opens(b, p),
    {
        let rest = cbor::head(0, self.tag()) + self.payload();
        cbor::lemma_at_concat(b, p, cbor::head(4, self.arity()), rest);
        cbor::lemma_head_at(b, p, 4, self.arity());
        cbor::lemma_at_concat(
            b,
            p + cbor::head(4, self.arity()).len(),
            cbor::head(0, self.tag()),
            self.payload(),
        );
    }
}

impl Solid for RequestTag {
    proof fn solid(&self) {
        cbor::lemma_head(4, self.arity());
        assert(self.wire()[0] == cbor::head(4, self.arity())[0]);
    }

    proof fn plain(&self) {
    }
}

/// What a committed mutation did.
#[derive(Debug, Clone, PartialEq, Eq)]
pub enum Outcome {
    Admitted { work: WorkKey, attempt: Id, admitted_at: Number, deadline: Number, child: Option<ChildScope> },
    Declared { scope: Number, producer: Producer, accepted_count: BatchCount, declared: Number, seal: Option<Digest> },
    Retried { work: WorkKey, expected_attempt: Id, replacement_attempt: Id, accepted_at: Number },
    Cancelled { work: WorkKey, accepted_at: Number, disposition: Disposition, state_at_commit: State },
    ScopeCancelled { scope: Number, accepted_at: Number },
    Skipped { work: WorkKey, accepted_at: Number, disposition: Disposition, state_at_commit: State },
}

impl Outcome {
    /// The number that announces the variant.
    pub open spec fn tag(self) -> nat {
        match self {
            Outcome::Admitted { .. } => 0,
            Outcome::Declared { .. } => 1,
            Outcome::Retried { .. } => 2,
            Outcome::Cancelled { .. } => 3,
            Outcome::ScopeCancelled { .. } => 4,
            Outcome::Skipped { .. } => 5,
        }
    }

    /// The number of elements of the encoded array.
    pub open spec fn arity(self) -> nat {
        match self {
            Outcome::Admitted { .. } => 6,
            Outcome::Declared { .. } => 6,
            Outcome::Retried { .. } => 5,
            Outcome::Cancelled { .. } => 5,
            Outcome::ScopeCancelled { .. } => 3,
            Outcome::Skipped { .. } => 5,
        }
    }

    /// The encoding of the fields.
    pub open spec fn payload(self) -> Seq<u8> {
        match self {
            Outcome::Admitted { work, attempt, admitted_at, deadline, child } => (work, (attempt, (admitted_at, (deadline, child)))).wire(),
            Outcome::Declared { scope, producer, accepted_count, declared, seal } => (scope, (producer, (accepted_count, (declared, seal)))).wire(),
            Outcome::Retried { work, expected_attempt, replacement_attempt, accepted_at } => (work, (expected_attempt, (replacement_attempt, accepted_at))).wire(),
            Outcome::Cancelled { work, accepted_at, disposition, state_at_commit } => (work, (accepted_at, (disposition, state_at_commit))).wire(),
            Outcome::ScopeCancelled { scope, accepted_at } => (scope, accepted_at).wire(),
            Outcome::Skipped { work, accepted_at, disposition, state_at_commit } => (work, (accepted_at, (disposition, state_at_commit))).wire(),
        }
    }

    /// What must hold between the fields.
    pub open spec fn rule(self) -> bool {
        match self {
            Outcome::Admitted { work, attempt, admitted_at, deadline, child } => {
                &&& attempt.0 == 1
                &&& admitted_at.0 < deadline.0
                &&& deadline.0 - admitted_at.0 <= MAX_DURATION
                &&& child matches Some(c) ==> c.scope.0 > work.scope.0
            },
            Outcome::Declared { scope, producer, accepted_count, declared, seal } => {
                &&& scope.0 != 0 || producer.0 == 0
                &&& accepted_count.0 <= declared.0
                &&& accepted_count.0 != 0 || seal is Some
            },
            Outcome::Retried { expected_attempt, replacement_attempt, .. } => expected_attempt.0 + 1 == replacement_attempt.0,
            Outcome::Cancelled { disposition, state_at_commit, .. } => fence_rule(
                disposition,
                state_at_commit,
                State::CANCELLED,
            ),
            Outcome::Skipped { disposition, state_at_commit, .. } => fence_rule(
                disposition,
                state_at_commit,
                State::SKIPPED,
            ),
            _ => true,
        }
    }
}

impl Wire for Outcome {
    open spec fn wire(&self) -> Seq<u8> {
        cbor::head(4, self.arity()) + (cbor::head(0, self.tag()) + self.payload())
    }

    open spec fn shaped(&self) -> bool {
        match *self {
            Outcome::Admitted { work, attempt, admitted_at, deadline, child } => (work, (attempt, (admitted_at, (deadline, child)))).shaped(),
            Outcome::Declared { scope, producer, accepted_count, declared, seal } => (scope, (producer, (accepted_count, (declared, seal)))).shaped(),
            Outcome::Retried { work, expected_attempt, replacement_attempt, accepted_at } => (work, (expected_attempt, (replacement_attempt, accepted_at))).shaped(),
            Outcome::Cancelled { work, accepted_at, disposition, state_at_commit } => (work, (accepted_at, (disposition, state_at_commit))).shaped(),
            Outcome::ScopeCancelled { scope, accepted_at } => (scope, accepted_at).shaped(),
            Outcome::Skipped { work, accepted_at, disposition, state_at_commit } => (work, (accepted_at, (disposition, state_at_commit))).shaped(),
        }
    }

    open spec fn valid(&self) -> bool {
        &&& self.rule()
        &&& match *self {
            Outcome::Admitted { work, attempt, admitted_at, deadline, child } => (work, (attempt, (admitted_at, (deadline, child)))).valid(),
            Outcome::Declared { scope, producer, accepted_count, declared, seal } => (scope, (producer, (accepted_count, (declared, seal)))).valid(),
            Outcome::Retried { work, expected_attempt, replacement_attempt, accepted_at } => (work, (expected_attempt, (replacement_attempt, accepted_at))).valid(),
            Outcome::Cancelled { work, accepted_at, disposition, state_at_commit } => (work, (accepted_at, (disposition, state_at_commit))).valid(),
            Outcome::ScopeCancelled { scope, accepted_at } => (scope, accepted_at).valid(),
            Outcome::Skipped { work, accepted_at, disposition, state_at_commit } => (work, (accepted_at, (disposition, state_at_commit))).valid(),
        }
    }

    open spec fn refusal(&self) -> ErrorCode {
        ErrorCode::FrameError
    }

    open spec fn agrees(&self, other: &Self) -> bool {
        match (*self, *other) {
            (Outcome::Admitted { work: a_work, attempt: a_attempt, admitted_at: a_admitted_at, deadline: a_deadline, child: a_child }, Outcome::Admitted { work: b_work, attempt: b_attempt, admitted_at: b_admitted_at, deadline: b_deadline, child: b_child }) => (a_work, (a_attempt, (a_admitted_at, (a_deadline, a_child)))).agrees(
                &(b_work, (b_attempt, (b_admitted_at, (b_deadline, b_child)))),
            ),
            (Outcome::Declared { scope: a_scope, producer: a_producer, accepted_count: a_accepted_count, declared: a_declared, seal: a_seal }, Outcome::Declared { scope: b_scope, producer: b_producer, accepted_count: b_accepted_count, declared: b_declared, seal: b_seal }) => (a_scope, (a_producer, (a_accepted_count, (a_declared, a_seal)))).agrees(
                &(b_scope, (b_producer, (b_accepted_count, (b_declared, b_seal)))),
            ),
            (Outcome::Retried { work: a_work, expected_attempt: a_expected_attempt, replacement_attempt: a_replacement_attempt, accepted_at: a_accepted_at }, Outcome::Retried { work: b_work, expected_attempt: b_expected_attempt, replacement_attempt: b_replacement_attempt, accepted_at: b_accepted_at }) => (a_work, (a_expected_attempt, (a_replacement_attempt, a_accepted_at))).agrees(
                &(b_work, (b_expected_attempt, (b_replacement_attempt, b_accepted_at))),
            ),
            (Outcome::Cancelled { work: a_work, accepted_at: a_accepted_at, disposition: a_disposition, state_at_commit: a_state_at_commit }, Outcome::Cancelled { work: b_work, accepted_at: b_accepted_at, disposition: b_disposition, state_at_commit: b_state_at_commit }) => (a_work, (a_accepted_at, (a_disposition, a_state_at_commit))).agrees(
                &(b_work, (b_accepted_at, (b_disposition, b_state_at_commit))),
            ),
            (Outcome::ScopeCancelled { scope: a_scope, accepted_at: a_accepted_at }, Outcome::ScopeCancelled { scope: b_scope, accepted_at: b_accepted_at }) => (a_scope, a_accepted_at).agrees(
                &(b_scope, b_accepted_at),
            ),
            (Outcome::Skipped { work: a_work, accepted_at: a_accepted_at, disposition: a_disposition, state_at_commit: a_state_at_commit }, Outcome::Skipped { work: b_work, accepted_at: b_accepted_at, disposition: b_disposition, state_at_commit: b_state_at_commit }) => (a_work, (a_accepted_at, (a_disposition, a_state_at_commit))).agrees(
                &(b_work, (b_accepted_at, (b_disposition, b_state_at_commit))),
            ),
            _ => false,
        }
    }

    proof fn valid_shaped(&self) {
        match *self {
            Outcome::Admitted { work, attempt, admitted_at, deadline, child } => (work, (attempt, (admitted_at, (deadline, child)))).valid_shaped(),
            Outcome::Declared { scope, producer, accepted_count, declared, seal } => (scope, (producer, (accepted_count, (declared, seal)))).valid_shaped(),
            Outcome::Retried { work, expected_attempt, replacement_attempt, accepted_at } => (work, (expected_attempt, (replacement_attempt, accepted_at))).valid_shaped(),
            Outcome::Cancelled { work, accepted_at, disposition, state_at_commit } => (work, (accepted_at, (disposition, state_at_commit))).valid_shaped(),
            Outcome::ScopeCancelled { scope, accepted_at } => (scope, accepted_at).valid_shaped(),
            Outcome::Skipped { work, accepted_at, disposition, state_at_commit } => (work, (accepted_at, (disposition, state_at_commit))).valid_shaped(),
        }
    }

    proof fn prefix_free(a: &Self, b: &Self, x: Seq<u8>, y: Seq<u8>) {
        wire::lemma_message_prefix(
            (a.arity(), a.tag(), a.payload()),
            x,
            (b.arity(), b.tag(), b.payload()),
            y,
        );
        match (*a, *b) {
            (Outcome::Admitted { work: a_work, attempt: a_attempt, admitted_at: a_admitted_at, deadline: a_deadline, child: a_child }, Outcome::Admitted { work: b_work, attempt: b_attempt, admitted_at: b_admitted_at, deadline: b_deadline, child: b_child }) => <(WorkKey, (Id, (Number, (Number, Option<ChildScope>))))>::prefix_free(
                &(a_work, (a_attempt, (a_admitted_at, (a_deadline, a_child)))),
                &(b_work, (b_attempt, (b_admitted_at, (b_deadline, b_child)))),
                x,
                y,
            ),
            (Outcome::Declared { scope: a_scope, producer: a_producer, accepted_count: a_accepted_count, declared: a_declared, seal: a_seal }, Outcome::Declared { scope: b_scope, producer: b_producer, accepted_count: b_accepted_count, declared: b_declared, seal: b_seal }) => <(Number, (Producer, (BatchCount, (Number, Option<Digest>))))>::prefix_free(
                &(a_scope, (a_producer, (a_accepted_count, (a_declared, a_seal)))),
                &(b_scope, (b_producer, (b_accepted_count, (b_declared, b_seal)))),
                x,
                y,
            ),
            (Outcome::Retried { work: a_work, expected_attempt: a_expected_attempt, replacement_attempt: a_replacement_attempt, accepted_at: a_accepted_at }, Outcome::Retried { work: b_work, expected_attempt: b_expected_attempt, replacement_attempt: b_replacement_attempt, accepted_at: b_accepted_at }) => <(WorkKey, (Id, (Id, Number)))>::prefix_free(
                &(a_work, (a_expected_attempt, (a_replacement_attempt, a_accepted_at))),
                &(b_work, (b_expected_attempt, (b_replacement_attempt, b_accepted_at))),
                x,
                y,
            ),
            (Outcome::Cancelled { work: a_work, accepted_at: a_accepted_at, disposition: a_disposition, state_at_commit: a_state_at_commit }, Outcome::Cancelled { work: b_work, accepted_at: b_accepted_at, disposition: b_disposition, state_at_commit: b_state_at_commit }) => <(WorkKey, (Number, (Disposition, State)))>::prefix_free(
                &(a_work, (a_accepted_at, (a_disposition, a_state_at_commit))),
                &(b_work, (b_accepted_at, (b_disposition, b_state_at_commit))),
                x,
                y,
            ),
            (Outcome::ScopeCancelled { scope: a_scope, accepted_at: a_accepted_at }, Outcome::ScopeCancelled { scope: b_scope, accepted_at: b_accepted_at }) => <(Number, Number)>::prefix_free(
                &(a_scope, a_accepted_at),
                &(b_scope, b_accepted_at),
                x,
                y,
            ),
            (Outcome::Skipped { work: a_work, accepted_at: a_accepted_at, disposition: a_disposition, state_at_commit: a_state_at_commit }, Outcome::Skipped { work: b_work, accepted_at: b_accepted_at, disposition: b_disposition, state_at_commit: b_state_at_commit }) => <(WorkKey, (Number, (Disposition, State)))>::prefix_free(
                &(a_work, (a_accepted_at, (a_disposition, a_state_at_commit))),
                &(b_work, (b_accepted_at, (b_disposition, b_state_at_commit))),
                x,
                y,
            ),
            _ => {},
        }
    }

    proof fn agrees_reflexive(&self) {
        match *self {
            Outcome::Admitted { work, attempt, admitted_at, deadline, child } => (work, (attempt, (admitted_at, (deadline, child)))).agrees_reflexive(),
            Outcome::Declared { scope, producer, accepted_count, declared, seal } => (scope, (producer, (accepted_count, (declared, seal)))).agrees_reflexive(),
            Outcome::Retried { work, expected_attempt, replacement_attempt, accepted_at } => (work, (expected_attempt, (replacement_attempt, accepted_at))).agrees_reflexive(),
            Outcome::Cancelled { work, accepted_at, disposition, state_at_commit } => (work, (accepted_at, (disposition, state_at_commit))).agrees_reflexive(),
            Outcome::ScopeCancelled { scope, accepted_at } => (scope, accepted_at).agrees_reflexive(),
            Outcome::Skipped { work, accepted_at, disposition, state_at_commit } => (work, (accepted_at, (disposition, state_at_commit))).agrees_reflexive(),
        }
    }

    proof fn agrees_carries(a: &Self, b: &Self) {
        match (*a, *b) {
            (Outcome::Admitted { work: a_work, attempt: a_attempt, admitted_at: a_admitted_at, deadline: a_deadline, child: a_child }, Outcome::Admitted { work: b_work, attempt: b_attempt, admitted_at: b_admitted_at, deadline: b_deadline, child: b_child }) => {
                <(WorkKey, (Id, (Number, (Number, Option<ChildScope>))))>::agrees_carries(
                    &(a_work, (a_attempt, (a_admitted_at, (a_deadline, a_child)))),
                    &(b_work, (b_attempt, (b_admitted_at, (b_deadline, b_child)))),
                );
            },
            (Outcome::Declared { scope: a_scope, producer: a_producer, accepted_count: a_accepted_count, declared: a_declared, seal: a_seal }, Outcome::Declared { scope: b_scope, producer: b_producer, accepted_count: b_accepted_count, declared: b_declared, seal: b_seal }) => {
                <(Number, (Producer, (BatchCount, (Number, Option<Digest>))))>::agrees_carries(
                    &(a_scope, (a_producer, (a_accepted_count, (a_declared, a_seal)))),
                    &(b_scope, (b_producer, (b_accepted_count, (b_declared, b_seal)))),
                );
            },
            (Outcome::Retried { work: a_work, expected_attempt: a_expected_attempt, replacement_attempt: a_replacement_attempt, accepted_at: a_accepted_at }, Outcome::Retried { work: b_work, expected_attempt: b_expected_attempt, replacement_attempt: b_replacement_attempt, accepted_at: b_accepted_at }) => {
                <(WorkKey, (Id, (Id, Number)))>::agrees_carries(
                    &(a_work, (a_expected_attempt, (a_replacement_attempt, a_accepted_at))),
                    &(b_work, (b_expected_attempt, (b_replacement_attempt, b_accepted_at))),
                );
            },
            (Outcome::Cancelled { work: a_work, accepted_at: a_accepted_at, disposition: a_disposition, state_at_commit: a_state_at_commit }, Outcome::Cancelled { work: b_work, accepted_at: b_accepted_at, disposition: b_disposition, state_at_commit: b_state_at_commit }) => {
                <(WorkKey, (Number, (Disposition, State)))>::agrees_carries(
                    &(a_work, (a_accepted_at, (a_disposition, a_state_at_commit))),
                    &(b_work, (b_accepted_at, (b_disposition, b_state_at_commit))),
                );
            },
            (Outcome::ScopeCancelled { scope: a_scope, accepted_at: a_accepted_at }, Outcome::ScopeCancelled { scope: b_scope, accepted_at: b_accepted_at }) => {
                <(Number, Number)>::agrees_carries(
                    &(a_scope, a_accepted_at),
                    &(b_scope, b_accepted_at),
                );
            },
            (Outcome::Skipped { work: a_work, accepted_at: a_accepted_at, disposition: a_disposition, state_at_commit: a_state_at_commit }, Outcome::Skipped { work: b_work, accepted_at: b_accepted_at, disposition: b_disposition, state_at_commit: b_state_at_commit }) => {
                <(WorkKey, (Number, (Disposition, State)))>::agrees_carries(
                    &(a_work, (a_accepted_at, (a_disposition, a_state_at_commit))),
                    &(b_work, (b_accepted_at, (b_disposition, b_state_at_commit))),
                );
            },
            _ => {},
        }
    }

    fn check(&self) -> (r: Result<(), Error>) {
        match self {
            Outcome::Admitted { work, attempt, admitted_at, deadline, child } => {
                work.check()?;
                attempt.check()?;
                admitted_at.check()?;
                deadline.check()?;
                child.check()?;
                require(attempt.0 == 1, "admission must allocate attempt one")?;
                require(
                    deadline.0 > admitted_at.0 && deadline.0 - admitted_at.0 <= MAX_DURATION,
                    "invalid admission interval",
                )?;
                let newer = match child {
                    Some(c) => c.scope.0 > work.scope.0,
                    None => true,
                };
                require(newer, "invalid child scope")
            },
            Outcome::Declared { scope, producer, accepted_count, declared, seal } => {
                scope.check()?;
                producer.check()?;
                accepted_count.check()?;
                declared.check()?;
                seal.check()?;
                require(scope.0 != 0 || producer.0 == 0, "root producer mismatch")?;
                require(
                    accepted_count.0 <= declared.0 && (accepted_count.0 != 0 || seal.is_some()),
                    "invalid declaration receipt count",
                )
            },
            Outcome::Retried { work, expected_attempt, replacement_attempt, accepted_at } => {
                work.check()?;
                expected_attempt.check()?;
                replacement_attempt.check()?;
                accepted_at.check()?;
                require(
                    expected_attempt.0 < u64::MAX && expected_attempt.0 + 1 == replacement_attempt.0,
                    "retry must increment attempt once",
                )
            },
            Outcome::Cancelled { work, accepted_at, disposition, state_at_commit } => {
                work.check()?;
                accepted_at.check()?;
                disposition.check()?;
                state_at_commit.check()?;
                require(
                    fence_holds(*disposition, *state_at_commit, State::CANCELLED),
                    "invalid fence disposition/state",
                )
            },
            Outcome::ScopeCancelled { scope, accepted_at } => {
                scope.check()?;
                accepted_at.check()?;
                Ok(())
            },
            Outcome::Skipped { work, accepted_at, disposition, state_at_commit } => {
                work.check()?;
                accepted_at.check()?;
                disposition.check()?;
                state_at_commit.check()?;
                require(
                    fence_holds(*disposition, *state_at_commit, State::SKIPPED),
                    "invalid fence disposition/state",
                )
            },
        }
    }

    fn same(&self, other: &Self) -> (r: bool) {
        match (self, other) {
            (Outcome::Admitted { work: a_work, attempt: a_attempt, admitted_at: a_admitted_at, deadline: a_deadline, child: a_child }, Outcome::Admitted { work: b_work, attempt: b_attempt, admitted_at: b_admitted_at, deadline: b_deadline, child: b_child }) => a_work.same(b_work) && a_attempt.same(b_attempt) && a_admitted_at.same(b_admitted_at) && a_deadline.same(b_deadline) && a_child.same(b_child),
            (Outcome::Declared { scope: a_scope, producer: a_producer, accepted_count: a_accepted_count, declared: a_declared, seal: a_seal }, Outcome::Declared { scope: b_scope, producer: b_producer, accepted_count: b_accepted_count, declared: b_declared, seal: b_seal }) => a_scope.same(b_scope) && a_producer.same(b_producer) && a_accepted_count.same(b_accepted_count) && a_declared.same(b_declared) && a_seal.same(b_seal),
            (Outcome::Retried { work: a_work, expected_attempt: a_expected_attempt, replacement_attempt: a_replacement_attempt, accepted_at: a_accepted_at }, Outcome::Retried { work: b_work, expected_attempt: b_expected_attempt, replacement_attempt: b_replacement_attempt, accepted_at: b_accepted_at }) => a_work.same(b_work) && a_expected_attempt.same(b_expected_attempt) && a_replacement_attempt.same(b_replacement_attempt) && a_accepted_at.same(b_accepted_at),
            (Outcome::Cancelled { work: a_work, accepted_at: a_accepted_at, disposition: a_disposition, state_at_commit: a_state_at_commit }, Outcome::Cancelled { work: b_work, accepted_at: b_accepted_at, disposition: b_disposition, state_at_commit: b_state_at_commit }) => a_work.same(b_work) && a_accepted_at.same(b_accepted_at) && a_disposition.same(b_disposition) && a_state_at_commit.same(b_state_at_commit),
            (Outcome::ScopeCancelled { scope: a_scope, accepted_at: a_accepted_at }, Outcome::ScopeCancelled { scope: b_scope, accepted_at: b_accepted_at }) => a_scope.same(b_scope) && a_accepted_at.same(b_accepted_at),
            (Outcome::Skipped { work: a_work, accepted_at: a_accepted_at, disposition: a_disposition, state_at_commit: a_state_at_commit }, Outcome::Skipped { work: b_work, accepted_at: b_accepted_at, disposition: b_disposition, state_at_commit: b_state_at_commit }) => a_work.same(b_work) && a_accepted_at.same(b_accepted_at) && a_disposition.same(b_disposition) && a_state_at_commit.same(b_state_at_commit),
            _ => false,
        }
    }

    fn duplicate(&self) -> (r: Self) {
        match self {
            Outcome::Admitted { work, attempt, admitted_at, deadline, child } => Outcome::Admitted {
                work: work.duplicate(),
                attempt: attempt.duplicate(),
                admitted_at: admitted_at.duplicate(),
                deadline: deadline.duplicate(),
                child: child.duplicate(),
            },
            Outcome::Declared { scope, producer, accepted_count, declared, seal } => Outcome::Declared {
                scope: scope.duplicate(),
                producer: producer.duplicate(),
                accepted_count: accepted_count.duplicate(),
                declared: declared.duplicate(),
                seal: seal.duplicate(),
            },
            Outcome::Retried { work, expected_attempt, replacement_attempt, accepted_at } => Outcome::Retried {
                work: work.duplicate(),
                expected_attempt: expected_attempt.duplicate(),
                replacement_attempt: replacement_attempt.duplicate(),
                accepted_at: accepted_at.duplicate(),
            },
            Outcome::Cancelled { work, accepted_at, disposition, state_at_commit } => Outcome::Cancelled {
                work: work.duplicate(),
                accepted_at: accepted_at.duplicate(),
                disposition: disposition.duplicate(),
                state_at_commit: state_at_commit.duplicate(),
            },
            Outcome::ScopeCancelled { scope, accepted_at } => Outcome::ScopeCancelled {
                scope: scope.duplicate(),
                accepted_at: accepted_at.duplicate(),
            },
            Outcome::Skipped { work, accepted_at, disposition, state_at_commit } => Outcome::Skipped {
                work: work.duplicate(),
                accepted_at: accepted_at.duplicate(),
                disposition: disposition.duplicate(),
                state_at_commit: state_at_commit.duplicate(),
            },
        }
    }

    fn write(&self, w: &mut Writer) {
        match self {
            Outcome::Admitted { work, attempt, admitted_at, deadline, child } => {
                w.array(6);
                w.uint(0);
                work.write(w);
                attempt.write(w);
                admitted_at.write(w);
                deadline.write(w);
                child.write(w);
                proof {
                    broadcast use wire::lemma_concat_assoc;

                    assert(w@ == old(w)@ + self.wire());
                }
            },
            Outcome::Declared { scope, producer, accepted_count, declared, seal } => {
                w.array(6);
                w.uint(1);
                scope.write(w);
                producer.write(w);
                accepted_count.write(w);
                declared.write(w);
                seal.write(w);
                proof {
                    broadcast use wire::lemma_concat_assoc;

                    assert(w@ == old(w)@ + self.wire());
                }
            },
            Outcome::Retried { work, expected_attempt, replacement_attempt, accepted_at } => {
                w.array(5);
                w.uint(2);
                work.write(w);
                expected_attempt.write(w);
                replacement_attempt.write(w);
                accepted_at.write(w);
                proof {
                    broadcast use wire::lemma_concat_assoc;

                    assert(w@ == old(w)@ + self.wire());
                }
            },
            Outcome::Cancelled { work, accepted_at, disposition, state_at_commit } => {
                w.array(5);
                w.uint(3);
                work.write(w);
                accepted_at.write(w);
                disposition.write(w);
                state_at_commit.write(w);
                proof {
                    broadcast use wire::lemma_concat_assoc;

                    assert(w@ == old(w)@ + self.wire());
                }
            },
            Outcome::ScopeCancelled { scope, accepted_at } => {
                w.array(3);
                w.uint(4);
                scope.write(w);
                accepted_at.write(w);
                proof {
                    broadcast use wire::lemma_concat_assoc;

                    assert(w@ == old(w)@ + self.wire());
                }
            },
            Outcome::Skipped { work, accepted_at, disposition, state_at_commit } => {
                w.array(5);
                w.uint(5);
                work.write(w);
                accepted_at.write(w);
                disposition.write(w);
                state_at_commit.write(w);
                proof {
                    broadcast use wire::lemma_concat_assoc;

                    assert(w@ == old(w)@ + self.wire());
                }
            },
        }
    }

    fn read(bytes: &[u8], pos: usize) -> (r: Result<(Self, usize), Error>) {
        let ghost b = bytes@;
        proof {
            assert forall|v: Outcome|
                v.shaped() && #[trigger] cbor::at(b, pos as int, v.wire()) implies v.opens(b, pos as int) by {
                v.lemma_opens(b, pos as int);
            }
        }
        let (count, middle) = match get_array(bytes, pos) {
            Some(o) => o,
            None => return Err(malformed()),
        };
        let (tag, body) = read_uint(bytes, middle)?;
        match tag {
            0 => {
                require(count == Some(6), "wrong message cardinality")?;
                let (fields, next) = <(WorkKey, (Id, (Number, (Number, Option<ChildScope>))))>::read(bytes, body)?;
                let (work, (attempt, (admitted_at, (deadline, child)))) = fields;
                Ok((Outcome::Admitted { work, attempt, admitted_at, deadline, child }, next))
            },
            1 => {
                require(count == Some(6), "wrong message cardinality")?;
                let (fields, next) = <(Number, (Producer, (BatchCount, (Number, Option<Digest>))))>::read(bytes, body)?;
                let (scope, (producer, (accepted_count, (declared, seal)))) = fields;
                Ok((Outcome::Declared { scope, producer, accepted_count, declared, seal }, next))
            },
            2 => {
                require(count == Some(5), "wrong message cardinality")?;
                let (fields, next) = <(WorkKey, (Id, (Id, Number)))>::read(bytes, body)?;
                let (work, (expected_attempt, (replacement_attempt, accepted_at))) = fields;
                Ok((Outcome::Retried { work, expected_attempt, replacement_attempt, accepted_at }, next))
            },
            3 => {
                require(count == Some(5), "wrong message cardinality")?;
                let (fields, next) = <(WorkKey, (Number, (Disposition, State)))>::read(bytes, body)?;
                let (work, (accepted_at, (disposition, state_at_commit))) = fields;
                Ok((Outcome::Cancelled { work, accepted_at, disposition, state_at_commit }, next))
            },
            4 => {
                require(count == Some(3), "wrong message cardinality")?;
                let (fields, next) = <(Number, Number)>::read(bytes, body)?;
                let (scope, accepted_at) = fields;
                Ok((Outcome::ScopeCancelled { scope, accepted_at }, next))
            },
            5 => {
                require(count == Some(5), "wrong message cardinality")?;
                let (fields, next) = <(WorkKey, (Number, (Disposition, State)))>::read(bytes, body)?;
                let (work, (accepted_at, (disposition, state_at_commit))) = fields;
                Ok((Outcome::Skipped { work, accepted_at, disposition, state_at_commit }, next))
            },
            _ => Err(Error::frame("unknown message discriminant")),
        }
    }
}

impl Outcome {
    /// The value stands at `p`: its array head, its tag and its fields, one behind the other.
    pub open spec fn opens(self, b: Seq<u8>, p: int) -> bool {
        let middle = p + cbor::head(4, self.arity()).len();
        let body = middle + cbor::head(0, self.tag()).len();
        &&& 0 <= p < b.len()
        &&& cbor::major_at(b, p) == 4
        &&& b[p] != 0x9f
        &&& cbor::argument(b, p) == Some((self.arity(), middle))
        &&& cbor::at(b, middle, cbor::head(0, self.tag()))
        &&& cbor::at(b, body, self.payload())
        &&& body + self.payload().len() == p + self.wire().len()
    }

    proof fn lemma_opens(self, b: Seq<u8>, p: int)
        requires
            cbor::at(b, p, self.wire()),
        ensures
            self.opens(b, p),
    {
        let rest = cbor::head(0, self.tag()) + self.payload();
        cbor::lemma_at_concat(b, p, cbor::head(4, self.arity()), rest);
        cbor::lemma_head_at(b, p, 4, self.arity());
        cbor::lemma_at_concat(
            b,
            p + cbor::head(4, self.arity()).len(),
            cbor::head(0, self.tag()),
            self.payload(),
        );
    }
}

impl Solid for Outcome {
    proof fn solid(&self) {
        cbor::lemma_head(4, self.arity());
        assert(self.wire()[0] == cbor::head(4, self.arity())[0]);
    }

    proof fn plain(&self) {
    }
}

/// A fence that was set leaves the work cancelling or in the fence's own end state; one that came
/// too late found the work in some end state.
pub open spec fn fence_rule(disposition: Disposition, state: State, end: u64) -> bool {
    if disposition.0 == 0 {
        state.0 == State::CANCELLING || state.0 == end
    } else {
        state.terminal()
    }
}

fn fence_holds(disposition: Disposition, state: State, end: u64) -> (r: bool)
    ensures
        r == fence_rule(disposition, state, end),
{
    if disposition.0 == 0 {
        state.0 == State::CANCELLING || state.0 == end
    } else {
        state.is_terminal()
    }
}

impl Outcome {
    pub open spec fn kind_of(self) -> u8 {
        match self {
            Outcome::Admitted { .. } => 0,
            Outcome::Declared { .. } => 1,
            Outcome::Retried { .. } => 2,
            Outcome::Cancelled { .. } => 3,
            Outcome::ScopeCancelled { .. } => 4,
            Outcome::Skipped { .. } => 5,
        }
    }

    pub fn kind(&self) -> (r: u8)
        ensures
            r == self.kind_of(),
            r == self.tag(),
    {
        match self {
            Outcome::Admitted { .. } => 0,
            Outcome::Declared { .. } => 1,
            Outcome::Retried { .. } => 2,
            Outcome::Cancelled { .. } => 3,
            Outcome::ScopeCancelled { .. } => 4,
            Outcome::Skipped { .. } => 5,
        }
    }
}

/// The durable answer to one mutation.
#[derive(Debug, Clone, PartialEq, Eq)]
pub struct OperationReceipt {
    pub operation: OperationId,
    pub request_digest: Digest,
    pub body: Outcome,
}

impl OperationReceipt {
    /// The fields in the order of their encoding.
    pub open spec fn fields(self) -> (OperationId, (Digest, Outcome)) {
        (self.operation, (self.request_digest, self.body))
    }
}

impl Wire for OperationReceipt {
    open spec fn wire(&self) -> Seq<u8> {
        cbor::head(4, 3) + self.fields().wire()
    }

    open spec fn shaped(&self) -> bool {
        self.fields().shaped()
    }

    open spec fn valid(&self) -> bool {
        self.fields().valid()
    }

    open spec fn refusal(&self) -> ErrorCode {
        ErrorCode::FrameError
    }

    open spec fn agrees(&self, other: &Self) -> bool {
        self.fields().agrees(&other.fields())
    }

    proof fn valid_shaped(&self) {
        self.fields().valid_shaped();
    }

    proof fn prefix_free(a: &Self, b: &Self, x: Seq<u8>, y: Seq<u8>) {
        let ra = a.fields().wire() + x;
        let rb = b.fields().wire() + y;
        assert(a.wire() + x =~= cbor::head(4, 3) + ra);
        assert(b.wire() + y =~= cbor::head(4, 3) + rb);
        cbor::lemma_head_prefix_free(4, 3, ra, 4, 3, rb);
        <(OperationId, (Digest, Outcome))>::prefix_free(&a.fields(), &b.fields(), x, y);
    }

    proof fn agrees_reflexive(&self) {
        self.fields().agrees_reflexive();
    }

    proof fn agrees_carries(a: &Self, b: &Self) {
        <(OperationId, (Digest, Outcome))>::agrees_carries(&a.fields(), &b.fields());
    }

    fn check(&self) -> (r: Result<(), Error>) {
        self.operation.check()?;
        self.request_digest.check()?;
        self.body.check()?;
        Ok(())
    }

    fn same(&self, other: &Self) -> (r: bool) {
        self.operation.same(&other.operation)
            && self.request_digest.same(&other.request_digest)
            && self.body.same(&other.body)
    }

    fn duplicate(&self) -> (r: Self) {
        OperationReceipt {
            operation: self.operation.duplicate(),
            request_digest: self.request_digest.duplicate(),
            body: self.body.duplicate(),
        }
    }

    fn write(&self, w: &mut Writer) {
        w.array(3);
        self.operation.write(w);
        self.request_digest.write(w);
        self.body.write(w);
        proof {
            broadcast use wire::lemma_concat_assoc;

            assert(w@ == old(w)@ + self.wire());
        }
    }

    fn read(bytes: &[u8], pos: usize) -> (r: Result<(Self, usize), Error>) {
        proof {
            assert forall|v: OperationReceipt|
                v.shaped() && #[trigger] cbor::at(bytes@, pos as int, v.wire()) implies cbor::at(
                bytes@,
                pos as int,
                cbor::head(4, 3),
            ) && cbor::at(bytes@, pos + cbor::head(4, 3).len(), v.fields().wire()) by {
                cbor::lemma_at_concat(bytes@, pos as int, cbor::head(4, 3), v.fields().wire());
            }
        }
        let start = read_array_head(bytes, pos, 3)?;
        let (fields, next) = <(OperationId, (Digest, Outcome))>::read(bytes, start)?;
        let (operation, (request_digest, body)) = fields;
        Ok((OperationReceipt { operation, request_digest, body }, next))
    }
}

impl Solid for OperationReceipt {
    proof fn solid(&self) {
        cbor::lemma_head(4, 3);
        assert(self.wire()[0] == cbor::head(4, 3)[0]);
    }

    proof fn plain(&self) {
    }
}

/// One member of a scope page.
#[derive(Debug, Clone, Copy, PartialEq, Eq, Structural)]
pub struct ScopeEntry {
    pub entity: Id,
    pub state: State,
}

impl ScopeEntry {
    /// The fields in the order of their encoding.
    pub open spec fn fields(self) -> (Id, State) {
        (self.entity, self.state)
    }
}

impl Wire for ScopeEntry {
    open spec fn wire(&self) -> Seq<u8> {
        cbor::head(4, 2) + self.fields().wire()
    }

    open spec fn shaped(&self) -> bool {
        self.fields().shaped()
    }

    open spec fn valid(&self) -> bool {
        self.fields().valid()
    }

    open spec fn refusal(&self) -> ErrorCode {
        ErrorCode::FrameError
    }

    open spec fn agrees(&self, other: &Self) -> bool {
        self.fields().agrees(&other.fields())
    }

    proof fn valid_shaped(&self) {
        self.fields().valid_shaped();
    }

    proof fn prefix_free(a: &Self, b: &Self, x: Seq<u8>, y: Seq<u8>) {
        let ra = a.fields().wire() + x;
        let rb = b.fields().wire() + y;
        assert(a.wire() + x =~= cbor::head(4, 2) + ra);
        assert(b.wire() + y =~= cbor::head(4, 2) + rb);
        cbor::lemma_head_prefix_free(4, 2, ra, 4, 2, rb);
        <(Id, State)>::prefix_free(&a.fields(), &b.fields(), x, y);
    }

    proof fn agrees_reflexive(&self) {
        self.fields().agrees_reflexive();
    }

    proof fn agrees_carries(a: &Self, b: &Self) {
        <(Id, State)>::agrees_carries(&a.fields(), &b.fields());
    }

    fn check(&self) -> (r: Result<(), Error>) {
        self.entity.check()?;
        self.state.check()?;
        Ok(())
    }

    fn same(&self, other: &Self) -> (r: bool) {
        self.entity.same(&other.entity)
            && self.state.same(&other.state)
    }

    fn duplicate(&self) -> (r: Self) {
        ScopeEntry {
            entity: self.entity.duplicate(),
            state: self.state.duplicate(),
        }
    }

    fn write(&self, w: &mut Writer) {
        w.array(2);
        self.entity.write(w);
        self.state.write(w);
        proof {
            broadcast use wire::lemma_concat_assoc;

            assert(w@ == old(w)@ + self.wire());
        }
    }

    fn read(bytes: &[u8], pos: usize) -> (r: Result<(Self, usize), Error>) {
        proof {
            assert forall|v: ScopeEntry|
                v.shaped() && #[trigger] cbor::at(bytes@, pos as int, v.wire()) implies cbor::at(
                bytes@,
                pos as int,
                cbor::head(4, 2),
            ) && cbor::at(bytes@, pos + cbor::head(4, 2).len(), v.fields().wire()) by {
                cbor::lemma_at_concat(bytes@, pos as int, cbor::head(4, 2), v.fields().wire());
            }
        }
        let start = read_array_head(bytes, pos, 2)?;
        let (fields, next) = <(Id, State)>::read(bytes, start)?;
        let (entity, state) = fields;
        Ok((ScopeEntry { entity, state }, next))
    }
}

impl Solid for ScopeEntry {
    proof fn solid(&self) {
        cbor::lemma_head(4, 2);
        assert(self.wire()[0] == cbor::head(4, 2)[0]);
    }

    proof fn plain(&self) {
    }
}

/// The answer to a request that was refused.
#[derive(Debug, Clone, PartialEq, Eq)]
pub struct Refusal {
    pub request: RequestTag,
    pub code: ErrorCode,
    pub detail: Detail,
}

impl Refusal {
    /// The fields in the order of their encoding.
    pub open spec fn fields(self) -> (RequestTag, (ErrorCode, Detail)) {
        (self.request, (self.code, self.detail))
    }
}

impl Wire for Refusal {
    open spec fn wire(&self) -> Seq<u8> {
        cbor::head(4, 3) + self.fields().wire()
    }

    open spec fn shaped(&self) -> bool {
        self.fields().shaped()
    }

    open spec fn valid(&self) -> bool {
        self.fields().valid()
    }

    open spec fn refusal(&self) -> ErrorCode {
        ErrorCode::FrameError
    }

    open spec fn agrees(&self, other: &Self) -> bool {
        self.fields().agrees(&other.fields())
    }

    proof fn valid_shaped(&self) {
        self.fields().valid_shaped();
    }

    proof fn prefix_free(a: &Self, b: &Self, x: Seq<u8>, y: Seq<u8>) {
        let ra = a.fields().wire() + x;
        let rb = b.fields().wire() + y;
        assert(a.wire() + x =~= cbor::head(4, 3) + ra);
        assert(b.wire() + y =~= cbor::head(4, 3) + rb);
        cbor::lemma_head_prefix_free(4, 3, ra, 4, 3, rb);
        <(RequestTag, (ErrorCode, Detail))>::prefix_free(&a.fields(), &b.fields(), x, y);
    }

    proof fn agrees_reflexive(&self) {
        self.fields().agrees_reflexive();
    }

    proof fn agrees_carries(a: &Self, b: &Self) {
        <(RequestTag, (ErrorCode, Detail))>::agrees_carries(&a.fields(), &b.fields());
    }

    fn check(&self) -> (r: Result<(), Error>) {
        self.request.check()?;
        self.code.check()?;
        self.detail.check()?;
        Ok(())
    }

    fn same(&self, other: &Self) -> (r: bool) {
        self.request.same(&other.request)
            && self.code.same(&other.code)
            && self.detail.same(&other.detail)
    }

    fn duplicate(&self) -> (r: Self) {
        Refusal {
            request: self.request.duplicate(),
            code: self.code.duplicate(),
            detail: self.detail.duplicate(),
        }
    }

    fn write(&self, w: &mut Writer) {
        w.array(3);
        self.request.write(w);
        self.code.write(w);
        self.detail.write(w);
        proof {
            broadcast use wire::lemma_concat_assoc;

            assert(w@ == old(w)@ + self.wire());
        }
    }

    fn read(bytes: &[u8], pos: usize) -> (r: Result<(Self, usize), Error>) {
        proof {
            assert forall|v: Refusal|
                v.shaped() && #[trigger] cbor::at(bytes@, pos as int, v.wire()) implies cbor::at(
                bytes@,
                pos as int,
                cbor::head(4, 3),
            ) && cbor::at(bytes@, pos + cbor::head(4, 3).len(), v.fields().wire()) by {
                cbor::lemma_at_concat(bytes@, pos as int, cbor::head(4, 3), v.fields().wire());
            }
        }
        let start = read_array_head(bytes, pos, 3)?;
        let (fields, next) = <(RequestTag, (ErrorCode, Detail))>::read(bytes, start)?;
        let (request, (code, detail)) = fields;
        Ok((Refusal { request, code, detail }, next))
    }
}

impl Solid for Refusal {
    proof fn solid(&self) {
        cbor::lemma_head(4, 3);
        assert(self.wire()[0] == cbor::head(4, 3)[0]);
    }

    proof fn plain(&self) {
    }
}

impl Manifest {
    /// Decodes one bare record: accepts exactly the encodings of valid values within the bound.
    pub fn decode(bytes: &[u8]) -> (r: Result<Self, Error>)
        ensures
            match r {
                Ok(v) => v.valid() && v.wire() == bytes@ && bytes@.len() <= super::error::MAX_CONTROL_LIMIT,
                Err(e) => {
                    &&& e.code == ErrorCode::FrameError
                    &&& forall|v: Manifest|
                        v.valid() && #[trigger] v.wire() == bytes@ ==> bytes@.len() > super::error::MAX_CONTROL_LIMIT
                },
            },
    {
        proof {
            assert forall|v: Manifest| v.valid() && #[trigger] v.wire() == bytes@ implies bytes@.len()
                > 0 by {
                v.valid_shaped();
                v.solid();
            }
        }
        decode(bytes, super::error::MAX_CONTROL_LIMIT)
    }

    pub fn encode(&self) -> (r: Result<Vec<u8>, Error>)
        ensures
            match r {
                Ok(b) => self.valid() && b@ == self.wire() && b@.len() <= super::error::MAX_CONTROL_LIMIT,
                Err(e) => e.code == ErrorCode::FrameError && !(self.valid() && self.wire().len()
                    <= super::error::MAX_CONTROL_LIMIT),
            },
    {
        encode(self, super::error::MAX_CONTROL_LIMIT)
    }
}

impl ScopeSummary {
    /// Decodes one bare record: accepts exactly the encodings of valid values within the bound.
    pub fn decode(bytes: &[u8]) -> (r: Result<Self, Error>)
        ensures
            match r {
                Ok(v) => v.valid() && v.wire() == bytes@ && bytes@.len() <= super::error::MAX_CONTROL_LIMIT,
                Err(e) => {
                    &&& e.code == ErrorCode::FrameError
                    &&& forall|v: ScopeSummary|
                        v.valid() && #[trigger] v.wire() == bytes@ ==> bytes@.len() > super::error::MAX_CONTROL_LIMIT
                },
            },
    {
        proof {
            assert forall|v: ScopeSummary| v.valid() && #[trigger] v.wire() == bytes@ implies bytes@.len()
                > 0 by {
                v.valid_shaped();
                v.solid();
            }
        }
        decode(bytes, super::error::MAX_CONTROL_LIMIT)
    }

    pub fn encode(&self) -> (r: Result<Vec<u8>, Error>)
        ensures
            match r {
                Ok(b) => self.valid() && b@ == self.wire() && b@.len() <= super::error::MAX_CONTROL_LIMIT,
                Err(e) => e.code == ErrorCode::FrameError && !(self.valid() && self.wire().len()
                    <= super::error::MAX_CONTROL_LIMIT),
            },
    {
        encode(self, super::error::MAX_CONTROL_LIMIT)
    }
}

impl InputHeader {
    /// Decodes one bare record: accepts exactly the encodings of valid values within the bound.
    pub fn decode(bytes: &[u8]) -> (r: Result<Self, Error>)
        ensures
            match r {
                Ok(v) => v.valid() && v.wire() == bytes@ && bytes@.len() <= super::error::MAX_HEADER,
                Err(e) => {
                    &&& e.code == ErrorCode::FrameError
                    &&& forall|v: InputHeader|
                        v.valid() && #[trigger] v.wire() == bytes@ ==> bytes@.len() > super::error::MAX_HEADER
                },
            },
    {
        proof {
            assert forall|v: InputHeader| v.valid() && #[trigger] v.wire() == bytes@ implies bytes@.len()
                > 0 by {
                v.valid_shaped();
                v.solid();
            }
        }
        decode(bytes, super::error::MAX_HEADER)
    }

    pub fn encode(&self) -> (r: Result<Vec<u8>, Error>)
        ensures
            match r {
                Ok(b) => self.valid() && b@ == self.wire() && b@.len() <= super::error::MAX_HEADER,
                Err(e) => e.code == ErrorCode::FrameError && !(self.valid() && self.wire().len()
                    <= super::error::MAX_HEADER),
            },
    {
        encode(self, super::error::MAX_HEADER)
    }
}

impl ResultHeader {
    /// Decodes one bare record: accepts exactly the encodings of valid values within the bound.
    pub fn decode(bytes: &[u8]) -> (r: Result<Self, Error>)
        ensures
            match r {
                Ok(v) => v.valid() && v.wire() == bytes@ && bytes@.len() <= super::error::MAX_HEADER,
                Err(e) => {
                    &&& e.code == ErrorCode::FrameError
                    &&& forall|v: ResultHeader|
                        v.valid() && #[trigger] v.wire() == bytes@ ==> bytes@.len() > super::error::MAX_HEADER
                },
            },
    {
        proof {
            assert forall|v: ResultHeader| v.valid() && #[trigger] v.wire() == bytes@ implies bytes@.len()
                > 0 by {
                v.valid_shaped();
                v.solid();
            }
        }
        decode(bytes, super::error::MAX_HEADER)
    }

    pub fn encode(&self) -> (r: Result<Vec<u8>, Error>)
        ensures
            match r {
                Ok(b) => self.valid() && b@ == self.wire() && b@.len() <= super::error::MAX_HEADER,
                Err(e) => e.code == ErrorCode::FrameError && !(self.valid() && self.wire().len()
                    <= super::error::MAX_HEADER),
            },
    {
        encode(self, super::error::MAX_HEADER)
    }
}

} // verus!
