//! The unsigned integers of the protocol, each with its own range.

use super::error::{require, Error, ErrorCode, MAX_DURATION, MAX_NUMBER};
use super::wire::{read_uint, Solid, Wire, Writer};
use crate::cbor;
use vstd::prelude::*;

verus! {

proof fn lemma_uint_prefix_free(m: u64, n: u64, x: Seq<u8>, y: Seq<u8>)
    requires
        cbor::head(0, m as nat) + x == cbor::head(0, n as nat) + y,
    ensures
        m == n,
        x == y,
{
    cbor::lemma_head_prefix_free(0, m as nat, x, 0, n as nat, y);
}

/// A counter, a length or a time in milliseconds.
#[derive(Debug, Clone, Copy, PartialEq, Eq, PartialOrd, Ord, Structural)]
pub struct Number(pub u64);

impl Wire for Number {
    open spec fn wire(&self) -> Seq<u8> {
        cbor::head(0, self.0 as nat)
    }

    open spec fn shaped(&self) -> bool {
        self.0 <= MAX_NUMBER
    }

    open spec fn valid(&self) -> bool {
        self.0 <= MAX_NUMBER
    }

    open spec fn refusal(&self) -> ErrorCode {
        ErrorCode::FrameError
    }

    open spec fn agrees(&self, other: &Self) -> bool {
        *self == *other
    }

    proof fn valid_shaped(&self) {
    }

    proof fn prefix_free(a: &Self, b: &Self, x: Seq<u8>, y: Seq<u8>) {
        lemma_uint_prefix_free(a.0, b.0, x, y);
    }

    proof fn agrees_reflexive(&self) {
    }

    proof fn agrees_carries(a: &Self, b: &Self) {
    }

    fn check(&self) -> (r: Result<(), Error>) {
        require(self.0 <= MAX_NUMBER, "Number out of range")
    }

    fn same(&self, other: &Self) -> (r: bool) {
        *self == *other
    }

    fn duplicate(&self) -> (r: Self) {
        *self
    }

    fn write(&self, w: &mut Writer) {
        w.uint(self.0);
    }

    fn read(bytes: &[u8], pos: usize) -> (r: Result<(Self, usize), Error>) {
        let (n, next) = read_uint(bytes, pos)?;
        let value = Number(n);
        value.check()?;
        Ok((value, next))
    }
}

impl Solid for Number {
    proof fn solid(&self) {
        cbor::lemma_head(0, self.0 as nat);
    }

    proof fn plain(&self) {
    }
}

/// An identifier that is never zero.
#[derive(Debug, Clone, Copy, PartialEq, Eq, PartialOrd, Ord, Structural)]
pub struct Id(pub u64);

impl Wire for Id {
    open spec fn wire(&self) -> Seq<u8> {
        cbor::head(0, self.0 as nat)
    }

    open spec fn shaped(&self) -> bool {
        1 <= self.0 <= MAX_NUMBER
    }

    open spec fn valid(&self) -> bool {
        1 <= self.0 <= MAX_NUMBER
    }

    open spec fn refusal(&self) -> ErrorCode {
        ErrorCode::FrameError
    }

    open spec fn agrees(&self, other: &Self) -> bool {
        *self == *other
    }

    proof fn valid_shaped(&self) {
    }

    proof fn prefix_free(a: &Self, b: &Self, x: Seq<u8>, y: Seq<u8>) {
        lemma_uint_prefix_free(a.0, b.0, x, y);
    }

    proof fn agrees_reflexive(&self) {
    }

    proof fn agrees_carries(a: &Self, b: &Self) {
    }

    fn check(&self) -> (r: Result<(), Error>) {
        require(1 <= self.0 && self.0 <= MAX_NUMBER, "Id out of range")
    }

    fn same(&self, other: &Self) -> (r: bool) {
        *self == *other
    }

    fn duplicate(&self) -> (r: Self) {
        *self
    }

    fn write(&self, w: &mut Writer) {
        w.uint(self.0);
    }

    fn read(bytes: &[u8], pos: usize) -> (r: Result<(Self, usize), Error>) {
        let (n, next) = read_uint(bytes, pos)?;
        let value = Id(n);
        value.check()?;
        Ok((value, next))
    }
}

impl Solid for Id {
    proof fn solid(&self) {
        cbor::lemma_head(0, self.0 as nat);
    }

    proof fn plain(&self) {
    }
}

/// A positive span of milliseconds, at most a year.
#[derive(Debug, Clone, Copy, PartialEq, Eq, PartialOrd, Ord, Structural)]
pub struct Duration(pub u64);

impl Wire for Duration {
    open spec fn wire(&self) -> Seq<u8> {
        cbor::head(0, self.0 as nat)
    }

    open spec fn shaped(&self) -> bool {
        1 <= self.0 <= MAX_DURATION
    }

    open spec fn valid(&self) -> bool {
        1 <= self.0 <= MAX_DURATION
    }

    open spec fn refusal(&self) -> ErrorCode {
        ErrorCode::FrameError
    }

    open spec fn agrees(&self, other: &Self) -> bool {
        *self == *other
    }

    proof fn valid_shaped(&self) {
    }

    proof fn prefix_free(a: &Self, b: &Self, x: Seq<u8>, y: Seq<u8>) {
        lemma_uint_prefix_free(a.0, b.0, x, y);
    }

    proof fn agrees_reflexive(&self) {
    }

    proof fn agrees_carries(a: &Self, b: &Self) {
    }

    fn check(&self) -> (r: Result<(), Error>) {
        require(1 <= self.0 && self.0 <= MAX_DURATION, "Duration out of range")
    }

    fn same(&self, other: &Self) -> (r: bool) {
        *self == *other
    }

    fn duplicate(&self) -> (r: Self) {
        *self
    }

    fn write(&self, w: &mut Writer) {
        w.uint(self.0);
    }

    fn read(bytes: &[u8], pos: usize) -> (r: Result<(Self, usize), Error>) {
        let (n, next) = read_uint(bytes, pos)?;
        let value = Duration(n);
        value.check()?;
        Ok((value, next))
    }
}

impl Solid for Duration {
    proof fn solid(&self) {
        cbor::lemma_head(0, self.0 as nat);
    }

    proof fn plain(&self) {
    }
}

/// The side that declares the members of a scope: the client (0) or the application (1).
#[derive(Debug, Clone, Copy, PartialEq, Eq, PartialOrd, Ord, Structural)]
pub struct Producer(pub u64);

impl Wire for Producer {
    open spec fn wire(&self) -> Seq<u8> {
        cbor::head(0, self.0 as nat)
    }

    open spec fn shaped(&self) -> bool {
        self.0 <= 1
    }

    open spec fn valid(&self) -> bool {
        self.0 <= 1
    }

    open spec fn refusal(&self) -> ErrorCode {
        ErrorCode::FrameError
    }

    open spec fn agrees(&self, other: &Self) -> bool {
        *self == *other
    }

    proof fn valid_shaped(&self) {
    }

    proof fn prefix_free(a: &Self, b: &Self, x: Seq<u8>, y: Seq<u8>) {
        lemma_uint_prefix_free(a.0, b.0, x, y);
    }

    proof fn agrees_reflexive(&self) {
    }

    proof fn agrees_carries(a: &Self, b: &Self) {
    }

    fn check(&self) -> (r: Result<(), Error>) {
        require(self.0 <= 1, "Producer out of range")
    }

    fn same(&self, other: &Self) -> (r: bool) {
        *self == *other
    }

    fn duplicate(&self) -> (r: Self) {
        *self
    }

    fn write(&self, w: &mut Writer) {
        w.uint(self.0);
    }

    fn read(bytes: &[u8], pos: usize) -> (r: Result<(Self, usize), Error>) {
        let (n, next) = read_uint(bytes, pos)?;
        let value = Producer(n);
        value.check()?;
        Ok((value, next))
    }
}

impl Solid for Producer {
    proof fn solid(&self) {
        cbor::lemma_head(0, self.0 as nat);
    }

    proof fn plain(&self) {
    }
}

/// The state of one unit of work.
#[derive(Debug, Clone, Copy, PartialEq, Eq, PartialOrd, Ord, Structural)]
pub struct State(pub u64);

impl Wire for State {
    open spec fn wire(&self) -> Seq<u8> {
        cbor::head(0, self.0 as nat)
    }

    open spec fn shaped(&self) -> bool {
        self.0 <= 8
    }

    open spec fn valid(&self) -> bool {
        self.0 <= 8
    }

    open spec fn refusal(&self) -> ErrorCode {
        ErrorCode::FrameError
    }

    open spec fn agrees(&self, other: &Self) -> bool {
        *self == *other
    }

    proof fn valid_shaped(&self) {
    }

    proof fn prefix_free(a: &Self, b: &Self, x: Seq<u8>, y: Seq<u8>) {
        lemma_uint_prefix_free(a.0, b.0, x, y);
    }

    proof fn agrees_reflexive(&self) {
    }

    proof fn agrees_carries(a: &Self, b: &Self) {
    }

    fn check(&self) -> (r: Result<(), Error>) {
        require(self.0 <= 8, "State out of range")
    }

    fn same(&self, other: &Self) -> (r: bool) {
        *self == *other
    }

    fn duplicate(&self) -> (r: Self) {
        *self
    }

    fn write(&self, w: &mut Writer) {
        w.uint(self.0);
    }

    fn read(bytes: &[u8], pos: usize) -> (r: Result<(Self, usize), Error>) {
        let (n, next) = read_uint(bytes, pos)?;
        let value = State(n);
        value.check()?;
        Ok((value, next))
    }
}

impl Solid for State {
    proof fn solid(&self) {
        cbor::lemma_head(0, self.0 as nat);
    }

    proof fn plain(&self) {
    }
}

/// Whether admission opens a child scope, and for which producer.
#[derive(Debug, Clone, Copy, PartialEq, Eq, PartialOrd, Ord, Structural)]
pub struct Mode(pub u64);

impl Wire for Mode {
    open spec fn wire(&self) -> Seq<u8> {
        cbor::head(0, self.0 as nat)
    }

    open spec fn shaped(&self) -> bool {
        self.0 <= 2
    }

    open spec fn valid(&self) -> bool {
        self.0 <= 2
    }

    open spec fn refusal(&self) -> ErrorCode {
        ErrorCode::FrameError
    }

    open spec fn agrees(&self, other: &Self) -> bool {
        *self == *other
    }

    proof fn valid_shaped(&self) {
    }

    proof fn prefix_free(a: &Self, b: &Self, x: Seq<u8>, y: Seq<u8>) {
        lemma_uint_prefix_free(a.0, b.0, x, y);
    }

    proof fn agrees_reflexive(&self) {
    }

    proof fn agrees_carries(a: &Self, b: &Self) {
    }

    fn check(&self) -> (r: Result<(), Error>) {
        require(self.0 <= 2, "Mode out of range")
    }

    fn same(&self, other: &Self) -> (r: bool) {
        *self == *other
    }

    fn duplicate(&self) -> (r: Self) {
        *self
    }

    fn write(&self, w: &mut Writer) {
        w.uint(self.0);
    }

    fn read(bytes: &[u8], pos: usize) -> (r: Result<(Self, usize), Error>) {
        let (n, next) = read_uint(bytes, pos)?;
        let value = Mode(n);
        value.check()?;
        Ok((value, next))
    }
}

impl Solid for Mode {
    proof fn solid(&self) {
        cbor::lemma_head(0, self.0 as nat);
    }

    proof fn plain(&self) {
    }
}

/// Whether a fence was set (0) or came too late (1).
#[derive(Debug, Clone, Copy, PartialEq, Eq, PartialOrd, Ord, Structural)]
pub struct Disposition(pub u64);

impl Wire for Disposition {
    open spec fn wire(&self) -> Seq<u8> {
        cbor::head(0, self.0 as nat)
    }

    open spec fn shaped(&self) -> bool {
        self.0 <= 1
    }

    open spec fn valid(&self) -> bool {
        self.0 <= 1
    }

    open spec fn refusal(&self) -> ErrorCode {
        ErrorCode::FrameError
    }

    open spec fn agrees(&self, other: &Self) -> bool {
        *self == *other
    }

    proof fn valid_shaped(&self) {
    }

    proof fn prefix_free(a: &Self, b: &Self, x: Seq<u8>, y: Seq<u8>) {
        lemma_uint_prefix_free(a.0, b.0, x, y);
    }

    proof fn agrees_reflexive(&self) {
    }

    proof fn agrees_carries(a: &Self, b: &Self) {
    }

    fn check(&self) -> (r: Result<(), Error>) {
        require(self.0 <= 1, "Disposition out of range")
    }

    fn same(&self, other: &Self) -> (r: bool) {
        *self == *other
    }

    fn duplicate(&self) -> (r: Self) {
        *self
    }

    fn write(&self, w: &mut Writer) {
        w.uint(self.0);
    }

    fn read(bytes: &[u8], pos: usize) -> (r: Result<(Self, usize), Error>) {
        let (n, next) = read_uint(bytes, pos)?;
        let value = Disposition(n);
        value.check()?;
        Ok((value, next))
    }
}

impl Solid for Disposition {
    proof fn solid(&self) {
        cbor::lemma_head(0, self.0 as nat);
    }

    proof fn plain(&self) {
    }
}

/// The place of an output in its manifest.
#[derive(Debug, Clone, Copy, PartialEq, Eq, PartialOrd, Ord, Structural)]
pub struct OutputIndex(pub u64);

impl Wire for OutputIndex {
    open spec fn wire(&self) -> Seq<u8> {
        cbor::head(0, self.0 as nat)
    }

    open spec fn shaped(&self) -> bool {
        self.0 <= 255
    }

    open spec fn valid(&self) -> bool {
        self.0 <= 255
    }

    open spec fn refusal(&self) -> ErrorCode {
        ErrorCode::FrameError
    }

    open spec fn agrees(&self, other: &Self) -> bool {
        *self == *other
    }

    proof fn valid_shaped(&self) {
    }

    proof fn prefix_free(a: &Self, b: &Self, x: Seq<u8>, y: Seq<u8>) {
        lemma_uint_prefix_free(a.0, b.0, x, y);
    }

    proof fn agrees_reflexive(&self) {
    }

    proof fn agrees_carries(a: &Self, b: &Self) {
    }

    fn check(&self) -> (r: Result<(), Error>) {
        require(self.0 <= 255, "OutputIndex out of range")
    }

    fn same(&self, other: &Self) -> (r: bool) {
        *self == *other
    }

    fn duplicate(&self) -> (r: Self) {
        *self
    }

    fn write(&self, w: &mut Writer) {
        w.uint(self.0);
    }

    fn read(bytes: &[u8], pos: usize) -> (r: Result<(Self, usize), Error>) {
        let (n, next) = read_uint(bytes, pos)?;
        let value = OutputIndex(n);
        value.check()?;
        Ok((value, next))
    }
}

impl Solid for OutputIndex {
    proof fn solid(&self) {
        cbor::lemma_head(0, self.0 as nat);
    }

    proof fn plain(&self) {
    }
}

/// The size of one batch.
#[derive(Debug, Clone, Copy, PartialEq, Eq, PartialOrd, Ord, Structural)]
pub struct BatchCount(pub u64);

impl Wire for BatchCount {
    open spec fn wire(&self) -> Seq<u8> {
        cbor::head(0, self.0 as nat)
    }

    open spec fn shaped(&self) -> bool {
        self.0 <= 256
    }

    open spec fn valid(&self) -> bool {
        self.0 <= 256
    }

    open spec fn refusal(&self) -> ErrorCode {
        ErrorCode::FrameError
    }

    open spec fn agrees(&self, other: &Self) -> bool {
        *self == *other
    }

    proof fn valid_shaped(&self) {
    }

    proof fn prefix_free(a: &Self, b: &Self, x: Seq<u8>, y: Seq<u8>) {
        lemma_uint_prefix_free(a.0, b.0, x, y);
    }

    proof fn agrees_reflexive(&self) {
    }

    proof fn agrees_carries(a: &Self, b: &Self) {
    }

    fn check(&self) -> (r: Result<(), Error>) {
        require(self.0 <= 256, "BatchCount out of range")
    }

    fn same(&self, other: &Self) -> (r: bool) {
        *self == *other
    }

    fn duplicate(&self) -> (r: Self) {
        *self
    }

    fn write(&self, w: &mut Writer) {
        w.uint(self.0);
    }

    fn read(bytes: &[u8], pos: usize) -> (r: Result<(Self, usize), Error>) {
        let (n, next) = read_uint(bytes, pos)?;
        let value = BatchCount(n);
        value.check()?;
        Ok((value, next))
    }
}

impl Solid for BatchCount {
    proof fn solid(&self) {
        cbor::lemma_head(0, self.0 as nat);
    }

    proof fn plain(&self) {
    }
}

/// The number of entries asked for.
#[derive(Debug, Clone, Copy, PartialEq, Eq, PartialOrd, Ord, Structural)]
pub struct PageLimit(pub u64);

impl Wire for PageLimit {
    open spec fn wire(&self) -> Seq<u8> {
        cbor::head(0, self.0 as nat)
    }

    open spec fn shaped(&self) -> bool {
        1 <= self.0 <= 256
    }

    open spec fn valid(&self) -> bool {
        1 <= self.0 <= 256
    }

    open spec fn refusal(&self) -> ErrorCode {
        ErrorCode::FrameError
    }

    open spec fn agrees(&self, other: &Self) -> bool {
        *self == *other
    }

    proof fn valid_shaped(&self) {
    }

    proof fn prefix_free(a: &Self, b: &Self, x: Seq<u8>, y: Seq<u8>) {
        lemma_uint_prefix_free(a.0, b.0, x, y);
    }

    proof fn agrees_reflexive(&self) {
    }

    proof fn agrees_carries(a: &Self, b: &Self) {
    }

    fn check(&self) -> (r: Result<(), Error>) {
        require(1 <= self.0 && self.0 <= 256, "PageLimit out of range")
    }

    fn same(&self, other: &Self) -> (r: bool) {
        *self == *other
    }

    fn duplicate(&self) -> (r: Self) {
        *self
    }

    fn write(&self, w: &mut Writer) {
        w.uint(self.0);
    }

    fn read(bytes: &[u8], pos: usize) -> (r: Result<(Self, usize), Error>) {
        let (n, next) = read_uint(bytes, pos)?;
        let value = PageLimit(n);
        value.check()?;
        Ok((value, next))
    }
}

impl Solid for PageLimit {
    proof fn solid(&self) {
        cbor::lemma_head(0, self.0 as nat);
    }

    proof fn plain(&self) {
    }
}

/// How long a request may wait.
#[derive(Debug, Clone, Copy, PartialEq, Eq, PartialOrd, Ord, Structural)]
pub struct WaitMs(pub u64);

impl Wire for WaitMs {
    open spec fn wire(&self) -> Seq<u8> {
        cbor::head(0, self.0 as nat)
    }

    open spec fn shaped(&self) -> bool {
        self.0 <= 30_000
    }

    open spec fn valid(&self) -> bool {
        self.0 <= 30_000
    }

    open spec fn refusal(&self) -> ErrorCode {
        ErrorCode::FrameError
    }

    open spec fn agrees(&self, other: &Self) -> bool {
        *self == *other
    }

    proof fn valid_shaped(&self) {
    }

    proof fn prefix_free(a: &Self, b: &Self, x: Seq<u8>, y: Seq<u8>) {
        lemma_uint_prefix_free(a.0, b.0, x, y);
    }

    proof fn agrees_reflexive(&self) {
    }

    proof fn agrees_carries(a: &Self, b: &Self) {
    }

    fn check(&self) -> (r: Result<(), Error>) {
        require(self.0 <= 30_000, "WaitMs out of range")
    }

    fn same(&self, other: &Self) -> (r: bool) {
        *self == *other
    }

    fn duplicate(&self) -> (r: Self) {
        *self
    }

    fn write(&self, w: &mut Writer) {
        w.uint(self.0);
    }

    fn read(bytes: &[u8], pos: usize) -> (r: Result<(Self, usize), Error>) {
        let (n, next) = read_uint(bytes, pos)?;
        let value = WaitMs(n);
        value.check()?;
        Ok((value, next))
    }
}

impl Solid for WaitMs {
    proof fn solid(&self) {
        cbor::lemma_head(0, self.0 as nat);
    }

    proof fn plain(&self) {
    }
}

/// An application-defined code.
#[derive(Debug, Clone, Copy, PartialEq, Eq, PartialOrd, Ord, Structural)]
pub struct DiagnosticCode(pub u64);

impl Wire for DiagnosticCode {
    open spec fn wire(&self) -> Seq<u8> {
        cbor::head(0, self.0 as nat)
    }

    open spec fn shaped(&self) -> bool {
        self.0 <= 0xffff_ffff
    }

    open spec fn valid(&self) -> bool {
        self.0 <= 0xffff_ffff
    }

    open spec fn refusal(&self) -> ErrorCode {
        ErrorCode::FrameError
    }

    open spec fn agrees(&self, other: &Self) -> bool {
        *self == *other
    }

    proof fn valid_shaped(&self) {
    }

    proof fn prefix_free(a: &Self, b: &Self, x: Seq<u8>, y: Seq<u8>) {
        lemma_uint_prefix_free(a.0, b.0, x, y);
    }

    proof fn agrees_reflexive(&self) {
    }

    proof fn agrees_carries(a: &Self, b: &Self) {
    }

    fn check(&self) -> (r: Result<(), Error>) {
        require(self.0 <= 0xffff_ffff, "DiagnosticCode out of range")
    }

    fn same(&self, other: &Self) -> (r: bool) {
        *self == *other
    }

    fn duplicate(&self) -> (r: Self) {
        *self
    }

    fn write(&self, w: &mut Writer) {
        w.uint(self.0);
    }

    fn read(bytes: &[u8], pos: usize) -> (r: Result<(Self, usize), Error>) {
        let (n, next) = read_uint(bytes, pos)?;
        let value = DiagnosticCode(n);
        value.check()?;
        Ok((value, next))
    }
}

impl Solid for DiagnosticCode {
    proof fn solid(&self) {
        cbor::lemma_head(0, self.0 as nat);
    }

    proof fn plain(&self) {
    }
}

/// A transport stream number.
#[derive(Debug, Clone, Copy, PartialEq, Eq, PartialOrd, Ord, Structural)]
pub struct StreamId(pub u64);

impl Wire for StreamId {
    open spec fn wire(&self) -> Seq<u8> {
        cbor::head(0, self.0 as nat)
    }

    open spec fn shaped(&self) -> bool {
        self.0 <= 0x3fff_ffff_ffff_ffff
    }

    open spec fn valid(&self) -> bool {
        self.0 <= 0x3fff_ffff_ffff_ffff
    }

    open spec fn refusal(&self) -> ErrorCode {
        ErrorCode::FrameError
    }

    open spec fn agrees(&self, other: &Self) -> bool {
        *self == *other
    }

    proof fn valid_shaped(&self) {
    }

    proof fn prefix_free(a: &Self, b: &Self, x: Seq<u8>, y: Seq<u8>) {
        lemma_uint_prefix_free(a.0, b.0, x, y);
    }

    proof fn agrees_reflexive(&self) {
    }

    proof fn agrees_carries(a: &Self, b: &Self) {
    }

    fn check(&self) -> (r: Result<(), Error>) {
        require(self.0 <= 0x3fff_ffff_ffff_ffff, "StreamId out of range")
    }

    fn same(&self, other: &Self) -> (r: bool) {
        *self == *other
    }

    fn duplicate(&self) -> (r: Self) {
        *self
    }

    fn write(&self, w: &mut Writer) {
        w.uint(self.0);
    }

    fn read(bytes: &[u8], pos: usize) -> (r: Result<(Self, usize), Error>) {
        let (n, next) = read_uint(bytes, pos)?;
        let value = StreamId(n);
        value.check()?;
        Ok((value, next))
    }
}

impl Solid for StreamId {
    proof fn solid(&self) {
        cbor::lemma_head(0, self.0 as nat);
    }

    proof fn plain(&self) {
    }
}

/// A profile number.
#[derive(Debug, Clone, Copy, PartialEq, Eq, PartialOrd, Ord, Structural)]
pub struct ProfileId(pub u64);

impl Wire for ProfileId {
    open spec fn wire(&self) -> Seq<u8> {
        cbor::head(0, self.0 as nat)
    }

    open spec fn shaped(&self) -> bool {
        1 <= self.0 <= 65_534
    }

    open spec fn valid(&self) -> bool {
        1 <= self.0 <= 65_534
    }

    open spec fn refusal(&self) -> ErrorCode {
        ErrorCode::FrameError
    }

    open spec fn agrees(&self, other: &Self) -> bool {
        *self == *other
    }

    proof fn valid_shaped(&self) {
    }

    proof fn prefix_free(a: &Self, b: &Self, x: Seq<u8>, y: Seq<u8>) {
        lemma_uint_prefix_free(a.0, b.0, x, y);
    }

    proof fn agrees_reflexive(&self) {
    }

    proof fn agrees_carries(a: &Self, b: &Self) {
    }

    fn check(&self) -> (r: Result<(), Error>) {
        require(1 <= self.0 && self.0 <= 65_534, "ProfileId out of range")
    }

    fn same(&self, other: &Self) -> (r: bool) {
        *self == *other
    }

    fn duplicate(&self) -> (r: Self) {
        *self
    }

    fn write(&self, w: &mut Writer) {
        w.uint(self.0);
    }

    fn read(bytes: &[u8], pos: usize) -> (r: Result<(Self, usize), Error>) {
        let (n, next) = read_uint(bytes, pos)?;
        let value = ProfileId(n);
        value.check()?;
        Ok((value, next))
    }
}

impl Solid for ProfileId {
    proof fn solid(&self) {
        cbor::lemma_head(0, self.0 as nat);
    }

    proof fn plain(&self) {
    }
}

/// The largest control body.
#[derive(Debug, Clone, Copy, PartialEq, Eq, PartialOrd, Ord, Structural)]
pub struct ControlLimit(pub u64);

impl Wire for ControlLimit {
    open spec fn wire(&self) -> Seq<u8> {
        cbor::head(0, self.0 as nat)
    }

    open spec fn shaped(&self) -> bool {
        4096 <= self.0 <= 1_048_576
    }

    open spec fn valid(&self) -> bool {
        4096 <= self.0 <= 1_048_576
    }

    open spec fn refusal(&self) -> ErrorCode {
        ErrorCode::FrameError
    }

    open spec fn agrees(&self, other: &Self) -> bool {
        *self == *other
    }

    proof fn valid_shaped(&self) {
    }

    proof fn prefix_free(a: &Self, b: &Self, x: Seq<u8>, y: Seq<u8>) {
        lemma_uint_prefix_free(a.0, b.0, x, y);
    }

    proof fn agrees_reflexive(&self) {
    }

    proof fn agrees_carries(a: &Self, b: &Self) {
    }

    fn check(&self) -> (r: Result<(), Error>) {
        require(4096 <= self.0 && self.0 <= 1_048_576, "ControlLimit out of range")
    }

    fn same(&self, other: &Self) -> (r: bool) {
        *self == *other
    }

    fn duplicate(&self) -> (r: Self) {
        *self
    }

    fn write(&self, w: &mut Writer) {
        w.uint(self.0);
    }

    fn read(bytes: &[u8], pos: usize) -> (r: Result<(Self, usize), Error>) {
        let (n, next) = read_uint(bytes, pos)?;
        let value = ControlLimit(n);
        value.check()?;
        Ok((value, next))
    }
}

impl Solid for ControlLimit {
    proof fn solid(&self) {
        cbor::lemma_head(0, self.0 as nat);
    }

    proof fn plain(&self) {
    }
}

/// A bound on simultaneous streams or requests.
#[derive(Debug, Clone, Copy, PartialEq, Eq, PartialOrd, Ord, Structural)]
pub struct ConcurrencyLimit(pub u64);

impl Wire for ConcurrencyLimit {
    open spec fn wire(&self) -> Seq<u8> {
        cbor::head(0, self.0 as nat)
    }

    open spec fn shaped(&self) -> bool {
        1 <= self.0 <= 1024
    }

    open spec fn valid(&self) -> bool {
        1 <= self.0 <= 1024
    }

    open spec fn refusal(&self) -> ErrorCode {
        ErrorCode::FrameError
    }

    open spec fn agrees(&self, other: &Self) -> bool {
        *self == *other
    }

    proof fn valid_shaped(&self) {
    }

    proof fn prefix_free(a: &Self, b: &Self, x: Seq<u8>, y: Seq<u8>) {
        lemma_uint_prefix_free(a.0, b.0, x, y);
    }

    proof fn agrees_reflexive(&self) {
    }

    proof fn agrees_carries(a: &Self, b: &Self) {
    }

    fn check(&self) -> (r: Result<(), Error>) {
        require(1 <= self.0 && self.0 <= 1024, "ConcurrencyLimit out of range")
    }

    fn same(&self, other: &Self) -> (r: bool) {
        *self == *other
    }

    fn duplicate(&self) -> (r: Self) {
        *self
    }

    fn write(&self, w: &mut Writer) {
        w.uint(self.0);
    }

    fn read(bytes: &[u8], pos: usize) -> (r: Result<(Self, usize), Error>) {
        let (n, next) = read_uint(bytes, pos)?;
        let value = ConcurrencyLimit(n);
        value.check()?;
        Ok((value, next))
    }
}

impl Solid for ConcurrencyLimit {
    proof fn solid(&self) {
        cbor::lemma_head(0, self.0 as nat);
    }

    proof fn plain(&self) {
    }
}

/// The longest silence on a stream.
#[derive(Debug, Clone, Copy, PartialEq, Eq, PartialOrd, Ord, Structural)]
pub struct IdleMs(pub u64);

impl Wire for IdleMs {
    open spec fn wire(&self) -> Seq<u8> {
        cbor::head(0, self.0 as nat)
    }

    open spec fn shaped(&self) -> bool {
        1000 <= self.0 <= 300_000
    }

    open spec fn valid(&self) -> bool {
        1000 <= self.0 <= 300_000
    }

    open spec fn refusal(&self) -> ErrorCode {
        ErrorCode::FrameError
    }

    open spec fn agrees(&self, other: &Self) -> bool {
        *self == *other
    }

    proof fn valid_shaped(&self) {
    }

    proof fn prefix_free(a: &Self, b: &Self, x: Seq<u8>, y: Seq<u8>) {
        lemma_uint_prefix_free(a.0, b.0, x, y);
    }

    proof fn agrees_reflexive(&self) {
    }

    proof fn agrees_carries(a: &Self, b: &Self) {
    }

    fn check(&self) -> (r: Result<(), Error>) {
        require(1000 <= self.0 && self.0 <= 300_000, "IdleMs out of range")
    }

    fn same(&self, other: &Self) -> (r: bool) {
        *self == *other
    }

    fn duplicate(&self) -> (r: Self) {
        *self
    }

    fn write(&self, w: &mut Writer) {
        w.uint(self.0);
    }

    fn read(bytes: &[u8], pos: usize) -> (r: Result<(Self, usize), Error>) {
        let (n, next) = read_uint(bytes, pos)?;
        let value = IdleMs(n);
        value.check()?;
        Ok((value, next))
    }
}

impl Solid for IdleMs {
    proof fn solid(&self) {
        cbor::lemma_head(0, self.0 as nat);
    }

    proof fn plain(&self) {
    }
}

/// The longest life of a stream.
#[derive(Debug, Clone, Copy, PartialEq, Eq, PartialOrd, Ord, Structural)]
pub struct LifetimeMs(pub u64);

impl Wire for LifetimeMs {
    open spec fn wire(&self) -> Seq<u8> {
        cbor::head(0, self.0 as nat)
    }

    open spec fn shaped(&self) -> bool {
        1000 <= self.0 <= 86_400_000
    }

    open spec fn valid(&self) -> bool {
        1000 <= self.0 <= 86_400_000
    }

    open spec fn refusal(&self) -> ErrorCode {
        ErrorCode::FrameError
    }

    open spec fn agrees(&self, other: &Self) -> bool {
        *self == *other
    }

    proof fn valid_shaped(&self) {
    }

    proof fn prefix_free(a: &Self, b: &Self, x: Seq<u8>, y: Seq<u8>) {
        lemma_uint_prefix_free(a.0, b.0, x, y);
    }

    proof fn agrees_reflexive(&self) {
    }

    proof fn agrees_carries(a: &Self, b: &Self) {
    }

    fn check(&self) -> (r: Result<(), Error>) {
        require(1000 <= self.0 && self.0 <= 86_400_000, "LifetimeMs out of range")
    }

    fn same(&self, other: &Self) -> (r: bool) {
        *self == *other
    }

    fn duplicate(&self) -> (r: Self) {
        *self
    }

    fn write(&self, w: &mut Writer) {
        w.uint(self.0);
    }

    fn read(bytes: &[u8], pos: usize) -> (r: Result<(Self, usize), Error>) {
        let (n, next) = read_uint(bytes, pos)?;
        let value = LifetimeMs(n);
        value.check()?;
        Ok((value, next))
    }
}

impl Solid for LifetimeMs {
    proof fn solid(&self) {
        cbor::lemma_head(0, self.0 as nat);
    }

    proof fn plain(&self) {
    }
}

/// Whether capabilities are an offer (0) or a selection (1).
#[derive(Debug, Clone, Copy, PartialEq, Eq, PartialOrd, Ord, Structural)]
pub struct ResponseFlag(pub u64);

impl Wire for ResponseFlag {
    open spec fn wire(&self) -> Seq<u8> {
        cbor::head(0, self.0 as nat)
    }

    open spec fn shaped(&self) -> bool {
        self.0 <= 1
    }

    open spec fn valid(&self) -> bool {
        self.0 <= 1
    }

    open spec fn refusal(&self) -> ErrorCode {
        ErrorCode::FrameError
    }

    open spec fn agrees(&self, other: &Self) -> bool {
        *self == *other
    }

    proof fn valid_shaped(&self) {
    }

    proof fn prefix_free(a: &Self, b: &Self, x: Seq<u8>, y: Seq<u8>) {
        lemma_uint_prefix_free(a.0, b.0, x, y);
    }

    proof fn agrees_reflexive(&self) {
    }

    proof fn agrees_carries(a: &Self, b: &Self) {
    }

    fn check(&self) -> (r: Result<(), Error>) {
        require(self.0 <= 1, "ResponseFlag out of range")
    }

    fn same(&self, other: &Self) -> (r: bool) {
        *self == *other
    }

    fn duplicate(&self) -> (r: Self) {
        *self
    }

    fn write(&self, w: &mut Writer) {
        w.uint(self.0);
    }

    fn read(bytes: &[u8], pos: usize) -> (r: Result<(Self, usize), Error>) {
        let (n, next) = read_uint(bytes, pos)?;
        let value = ResponseFlag(n);
        value.check()?;
        Ok((value, next))
    }
}

impl Solid for ResponseFlag {
    proof fn solid(&self) {
        cbor::lemma_head(0, self.0 as nat);
    }

    proof fn plain(&self) {
    }
}

impl State {
    pub const DECLARED: u64 = 0;

    pub const ACTIVE: u64 = 1;

    pub const AWAITING_RETRY: u64 = 2;

    pub const WAITING_CHILDREN: u64 = 3;

    pub const CANCELLING: u64 = 4;

    pub const SUCCEEDED: u64 = 5;

    pub const FAILED: u64 = 6;

    pub const CANCELLED: u64 = 7;

    pub const SKIPPED: u64 = 8;

    /// The work has ended, one way or another.
    pub open spec fn terminal(self) -> bool {
        5 <= self.0 <= 8
    }

    pub fn is_terminal(self) -> (r: bool)
        ensures
            r == self.terminal(),
    {
        5 <= self.0 && self.0 <= 8
    }
}

/// A field that holds one fixed number.
#[derive(Debug, Clone, Copy, PartialEq, Eq)]
pub struct Literal<const VALUE: u64>;

impl<const VALUE: u64> Wire for Literal<VALUE> {
    open spec fn wire(&self) -> Seq<u8> {
        cbor::head(0, VALUE as nat)
    }

    open spec fn shaped(&self) -> bool {
        true
    }

    open spec fn valid(&self) -> bool {
        true
    }

    open spec fn refusal(&self) -> ErrorCode {
        ErrorCode::FrameError
    }

    open spec fn agrees(&self, other: &Self) -> bool {
        true
    }

    proof fn valid_shaped(&self) {
    }

    proof fn prefix_free(a: &Self, b: &Self, x: Seq<u8>, y: Seq<u8>) {
        lemma_uint_prefix_free(VALUE, VALUE, x, y);
    }

    proof fn agrees_reflexive(&self) {
    }

    proof fn agrees_carries(a: &Self, b: &Self) {
    }

    fn check(&self) -> (r: Result<(), Error>) {
        Ok(())
    }

    fn same(&self, other: &Self) -> (r: bool) {
        true
    }

    fn duplicate(&self) -> (r: Self) {
        Literal
    }

    fn write(&self, w: &mut Writer) {
        w.uint(VALUE);
    }

    fn read(bytes: &[u8], pos: usize) -> (r: Result<(Self, usize), Error>) {
        let (n, next) = read_uint(bytes, pos)?;
        require(n == VALUE, "wrong record tag")?;
        Ok((Literal, next))
    }
}

impl<const VALUE: u64> Solid for Literal<VALUE> {
    proof fn solid(&self) {
        cbor::lemma_head(0, VALUE as nat);
    }

    proof fn plain(&self) {
    }
}

} // verus!
