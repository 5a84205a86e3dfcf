//! Digests, operation identifiers and the bounded texts of the protocol.

use super::error::{require, Error, ErrorCode};
use super::wire::{self, malformed, read_uint, same_octets, Solid, Wire, Writer};
use crate::cbor::{self, get_bytes, get_text};
use vstd::prelude::*;
use vstd::utf8::*;

verus! {

pub proof fn lemma_bytes_at(b: Seq<u8>, p: int, s: Seq<u8>)
    requires
        s.len() <= u64::MAX,
        cbor::at(b, p, wire::bytes_wire(s)),
    ensures
        0 <= p < b.len(),
        cbor::major_at(b, p) == 2,
        cbor::argument(b, p) == Some((s.len(), p + cbor::head(2, s.len()).len())),
        p + wire::bytes_wire(s).len() <= b.len(),
        b.subrange(p + cbor::head(2, s.len()).len(), p + wire::bytes_wire(s).len()) == s,
{
    cbor::lemma_at_concat(b, p, cbor::head(2, s.len()), s);
    cbor::lemma_head_at(b, p, 2, s.len());
}

pub proof fn lemma_bytes_prefix_free(s: Seq<u8>, t: Seq<u8>, x: Seq<u8>, y: Seq<u8>)
    requires
        s.len() <= u64::MAX,
        t.len() <= u64::MAX,
        wire::bytes_wire(s) + x == wire::bytes_wire(t) + y,
    ensures
        s == t,
        x == y,
{
    assert(wire::bytes_wire(s) + x =~= cbor::head(2, s.len()) + (s + x));
    assert(wire::bytes_wire(t) + y =~= cbor::head(2, t.len()) + (t + y));
    cbor::lemma_head_prefix_free(2, s.len(), s + x, 2, t.len(), t + y);
    let whole = s + x;
    assert(s =~= whole.subrange(0, s.len() as int));
    assert(t =~= whole.subrange(0, s.len() as int));
    assert(x =~= whole.subrange(s.len() as int, whole.len() as int));
    assert(y =~= whole.subrange(s.len() as int, whole.len() as int));
}

pub proof fn lemma_text_injective(s: Seq<char>, t: Seq<char>)
    requires
        encode_utf8(s) == encode_utf8(t),
    ensures
        s == t,
{
    encode_utf8_decode_utf8(s);
    encode_utf8_decode_utf8(t);
}

pub proof fn lemma_text_prefix_free(s: Seq<char>, t: Seq<char>, x: Seq<u8>, y: Seq<u8>)
    requires
        encode_utf8(s).len() <= u64::MAX,
        encode_utf8(t).len() <= u64::MAX,
        wire::text_wire(s) + x == wire::text_wire(t) + y,
    ensures
        s == t,
        x == y,
{
    let u = encode_utf8(s);
    let v = encode_utf8(t);
    assert(wire::text_wire(s) + x =~= cbor::head(3, u.len()) + (u + x));
    assert(wire::text_wire(t) + y =~= cbor::head(3, v.len()) + (v + y));
    cbor::lemma_head_prefix_free(3, u.len(), u + x, 3, v.len(), v + y);
    let whole = u + x;
    assert(u =~= whole.subrange(0, u.len() as int));
    assert(v =~= whole.subrange(0, u.len() as int));
    assert(x =~= whole.subrange(u.len() as int, whole.len() as int));
    assert(y =~= whole.subrange(u.len() as int, whole.len() as int));
    lemma_text_injective(s, t);
}

/// Reads a text string.
pub fn read_text(bytes: &[u8], pos: usize) -> (r: Result<(&str, usize), Error>)
    ensures
        match r {
            Ok(o) => pos <= o.1 <= bytes@.len(),
            Err(e) => e.code == ErrorCode::FrameError,
        },
        forall|s: Seq<char>|
            encode_utf8(s).len() <= u64::MAX && #[trigger] cbor::at(
                bytes@,
                pos as int,
                wire::text_wire(s),
            ) ==> (r matches Ok(o) && o.0@ == s && o.1 == pos + wire::text_wire(s).len()),
{
    let ghost b = bytes@;
    let ghost p = pos as int;
    let got = get_text(bytes, pos);
    proof {
        assert forall|s: Seq<char>|
            encode_utf8(s).len() <= u64::MAX && #[trigger] cbor::at(
                b,
                p,
                wire::text_wire(s),
            ) implies (got matches Some(o) && o.0@ == s && o.1 == pos + wire::text_wire(
            s,
        ).len()) by {
            let u = encode_utf8(s);
            cbor::lemma_at_concat(b, p, cbor::head(3, u.len()), u);
            cbor::lemma_head_at(b, p, 3, u.len());
            encode_utf8_valid_utf8(s);
            let start = p + cbor::head(3, u.len()).len();
            assert(b.subrange(start, start + u.len()) == u);
            if let Some(o) = got {
                lemma_text_injective(o.0@, s);
            }
        }
    }
    match got {
        Some(o) => Ok(o),
        None => Err(malformed()),
    }
}

/// A SHA-256 digest.
#[derive(Debug, Clone, Copy, PartialEq, Eq)]
pub struct Digest(pub [u8; 32]);

/// The digest of the given octets, where there are 32 of them.
pub open spec fn digest_of(octets: Seq<u8>) -> Digest {
    choose|d: Digest| (#[trigger] d.0@) == octets
}

/// A digest is its octets.
pub proof fn lemma_digest_of(d: Digest)
    ensures
        digest_of(d.0@) == d,
        digest_of(d.0@).0@ == d.0@,
{
    let e = digest_of(d.0@);
    assert(e.0@ == d.0@);
    assert(e.0 =~= d.0) by {
        assert forall|i: int| 0 <= i < 32 implies e.0[i] == d.0[i] by {
            assert(e.0@[i] == d.0@[i]);
        }
    }
}

impl Wire for Digest {
    open spec fn wire(&self) -> Seq<u8> {
        wire::bytes_wire(self.0@)
    }

    open spec fn shaped(&self) -> bool {
        true
    }

    open spec fn valid(&self) -> bool {
        true
    }

    open spec fn refusal(&self) -> ErrorCode {
        ErrorCode::FrameError
    }

    open spec fn agrees(&self, other: &Self) -> bool {
        self.0@ == other.0@
    }

    proof fn valid_shaped(&self) {
    }

    proof fn prefix_free(a: &Self, b: &Self, x: Seq<u8>, y: Seq<u8>) {
        lemma_bytes_prefix_free(a.0@, b.0@, x, y);
    }

    proof fn agrees_reflexive(&self) {
    }

    proof fn agrees_carries(a: &Self, b: &Self) {
    }

    fn check(&self) -> (r: Result<(), Error>) {
        Ok(())
    }

    fn same(&self, other: &Self) -> (r: bool) {
        same_octets(self.0.as_slice(), other.0.as_slice())
    }

    fn duplicate(&self) -> (r: Self) {
        *self
    }

    fn write(&self, w: &mut Writer) {
        w.bytes(self.0.as_slice());
        assert(w@ =~= old(w)@ + self.wire());
    }

    fn read(bytes: &[u8], pos: usize) -> (r: Result<(Self, usize), Error>) {
        proof {
            assert forall|v: Digest|
                v.shaped() && #[trigger] cbor::at(bytes@, pos as int, v.wire()) implies pos
                < bytes@.len() && cbor::major_at(bytes@, pos as int) == 2 && (cbor::argument(
                bytes@,
                pos as int,
            ) matches Some(a) && a.0 == 32 && a.1 + a.0 == pos + v.wire().len() && a.1 + a.0
                <= bytes@.len() && bytes@.subrange(a.1, a.1 + a.0) == v.0@) by {
                lemma_bytes_at(bytes@, pos as int, v.0@);
            }
        }
        let (octets, next) = match get_bytes(bytes, pos) {
            Some(o) => o,
            None => return Err(malformed()),
        };
        require(octets.len() == 32, "wrong byte string size")?;
        let mut array: [u8; 32] = [0; 32];
        let mut i: usize = 0;
        while i < 32
            invariant
                i <= 32,
                octets@.len() == 32,
                forall|j: int| 0 <= j < i ==> array@[j] == octets@[j],
            decreases 32 - i,
        {
            array[i] = octets[i];
            i += 1;
        }
        assert(array@ =~= octets@);
        let value = Digest(array);
        Ok((value, next))
    }
}

impl Solid for Digest {
    proof fn solid(&self) {
        cbor::lemma_head(2, 32);
        assert(self.wire()[0] == cbor::head(2, 32)[0]);
    }

    proof fn plain(&self) {
    }
}

/// The identity of one mutation, chosen by its originator; never all zero.
#[derive(Debug, Clone, Copy, PartialEq, Eq)]
pub struct OperationId(pub [u8; 16]);

impl Wire for OperationId {
    open spec fn wire(&self) -> Seq<u8> {
        wire::bytes_wire(self.0@)
    }

    open spec fn shaped(&self) -> bool {
        exists|i: int| 0 <= i < 16 && #[trigger] self.0@[i] != 0
    }

    open spec fn valid(&self) -> bool {
        exists|i: int| 0 <= i < 16 && #[trigger] self.0@[i] != 0
    }

    open spec fn refusal(&self) -> ErrorCode {
        ErrorCode::FrameError
    }

    open spec fn agrees(&self, other: &Self) -> bool {
        self.0@ == other.0@
    }

    proof fn valid_shaped(&self) {
    }

    proof fn prefix_free(a: &Self, b: &Self, x: Seq<u8>, y: Seq<u8>) {
        lemma_bytes_prefix_free(a.0@, b.0@, x, y);
    }

    proof fn agrees_reflexive(&self) {
    }

    proof fn agrees_carries(a: &Self, b: &Self) {
    }

    fn check(&self) -> (r: Result<(), Error>) {
        let mut i: usize = 0;
        while i < 16
            invariant
                i <= 16,
                forall|j: int| 0 <= j < i ==> self.0@[j] == 0,
            decreases 16 - i,
        {
            if self.0[i] != 0 {
                assert(self.0@[i as int] != 0);
                return Ok(());
            }
            i += 1;
        }
        Err(Error::frame("zero operation ID"))
    }

    fn same(&self, other: &Self) -> (r: bool) {
        same_octets(self.0.as_slice(), other.0.as_slice())
    }

    fn duplicate(&self) -> (r: Self) {
        *self
    }

    fn write(&self, w: &mut Writer) {
        w.bytes(self.0.as_slice());
        assert(w@ =~= old(w)@ + self.wire());
    }

    fn read(bytes: &[u8], pos: usize) -> (r: Result<(Self, usize), Error>) {
        proof {
            assert forall|v: OperationId|
                v.shaped() && #[trigger] cbor::at(bytes@, pos as int, v.wire()) implies pos
                < bytes@.len() && cbor::major_at(bytes@, pos as int) == 2 && (cbor::argument(
                bytes@,
                pos as int,
            ) matches Some(a) && a.0 == 16 && a.1 + a.0 == pos + v.wire().len() && a.1 + a.0
                <= bytes@.len() && bytes@.subrange(a.1, a.1 + a.0) == v.0@) by {
                lemma_bytes_at(bytes@, pos as int, v.0@);
            }
        }
        let (octets, next) = match get_bytes(bytes, pos) {
            Some(o) => o,
            None => return Err(malformed()),
        };
        require(octets.len() == 16, "wrong byte string size")?;
        let mut array: [u8; 16] = [0; 16];
        let mut i: usize = 0;
        while i < 16
            invariant
                i <= 16,
                octets@.len() == 16,
                forall|j: int| 0 <= j < i ==> array@[j] == octets@[j],
            decreases 16 - i,
        {
            array[i] = octets[i];
            i += 1;
        }
        assert(array@ =~= octets@);
        let value = OperationId(array);
        assert forall|v: OperationId|
            v.shaped() && #[trigger] cbor::at(bytes@, pos as int, v.wire()) implies value.shaped() by {
            let i = choose|i: int| 0 <= i < 16 && #[trigger] v.0@[i] != 0;
            assert(value.0@[i] == v.0@[i]);
        }
        value.check()?;
        Ok((value, next))
    }
}

impl Solid for OperationId {
    proof fn solid(&self) {
        cbor::lemma_head(2, 16);
        assert(self.wire()[0] == cbor::head(2, 16)[0]);
    }

    proof fn plain(&self) {
    }
}

/// An octet that an identity label may hold: a letter, a digit or one of `-._~`.
pub open spec fn identity_octet(b: u8) -> bool {
    0x30 <= b <= 0x39 || 0x41 <= b <= 0x5a || 0x61 <= b <= 0x7a || b == 0x2d || b == 0x2e || b == 0x5f
        || b == 0x7e
}

/// A printable ASCII octet.
pub open spec fn printable_octet(b: u8) -> bool {
    0x20 <= b <= 0x7e
}

/// The stable name of an authority or an owner.
#[derive(Debug, Clone, PartialEq, Eq)]
pub struct IdentityLabel(pub String);

impl Wire for IdentityLabel {
    open spec fn wire(&self) -> Seq<u8> {
        wire::text_wire(self.0@)
    }

    open spec fn shaped(&self) -> bool {
        &&& 1 <= encode_utf8(self.0@).len() <= 128
        &&& forall|i: int| 0 <= i < encode_utf8(self.0@).len() ==> identity_octet(#[trigger] encode_utf8(self.0@)[i])
    }

    open spec fn valid(&self) -> bool {
        self.shaped()
    }

    open spec fn refusal(&self) -> ErrorCode {
        ErrorCode::FrameError
    }

    open spec fn agrees(&self, other: &Self) -> bool {
        self.0@ == other.0@
    }

    proof fn valid_shaped(&self) {
    }

    proof fn prefix_free(a: &Self, b: &Self, x: Seq<u8>, y: Seq<u8>) {
        lemma_text_prefix_free(a.0@, b.0@, x, y);
    }

    proof fn agrees_reflexive(&self) {
    }

    proof fn agrees_carries(a: &Self, b: &Self) {
    }

    fn check(&self) -> (r: Result<(), Error>) {
        let octets = self.0.as_str().as_bytes();
        if octets.len() < 1 || octets.len() > 128 {
            return Err(Error::frame("invalid IdentityLabel"));
        }
        let mut i: usize = 0;
        while i < octets.len()
            invariant
                i <= octets@.len(),
                octets@ == encode_utf8(self.0@),
                forall|j: int| 0 <= j < i ==> identity_octet(#[trigger] octets@[j]),
            decreases octets@.len() - i,
        {
            let b: u8 = octets[i];
            if !((0x30 <= b && b <= 0x39) || (0x41 <= b && b <= 0x5a) || (0x61 <= b && b <= 0x7a) || b == 0x2d
                || b == 0x2e || b == 0x5f || b == 0x7e) {
                assert(!identity_octet(encode_utf8(self.0@)[i as int]));
                return Err(Error::frame("invalid IdentityLabel"));
            }
            i += 1;
        }
        Ok(())
    }

    fn same(&self, other: &Self) -> (r: bool) {
        self.0 == other.0
    }

    fn duplicate(&self) -> (r: Self) {
        IdentityLabel(self.0.clone())
    }

    fn write(&self, w: &mut Writer) {
        w.text(self.0.as_str());
    }

    fn read(bytes: &[u8], pos: usize) -> (r: Result<(Self, usize), Error>) {
        let (text, next) = read_text(bytes, pos)?;
        require(text.as_bytes().len() <= 128, "text exceeds byte bound")?;
        let value = IdentityLabel(text.to_owned());
        value.check()?;
        Ok((value, next))
    }
}

impl Solid for IdentityLabel {
    proof fn solid(&self) {
        let n = encode_utf8(self.0@).len();
        cbor::lemma_head(3, n);
        assert(self.wire()[0] == cbor::head(3, n)[0]);
    }

    proof fn plain(&self) {
    }
}

/// A printable name chosen by the application.
#[derive(Debug, Clone, PartialEq, Eq)]
pub struct ApplicationLabel(pub String);

impl Wire for ApplicationLabel {
    open spec fn wire(&self) -> Seq<u8> {
        wire::text_wire(self.0@)
    }

    open spec fn shaped(&self) -> bool {
        &&& 1 <= encode_utf8(self.0@).len() <= 128
        &&& forall|i: int| 0 <= i < encode_utf8(self.0@).len() ==> printable_octet(#[trigger] encode_utf8(self.0@)[i])
    }

    open spec fn valid(&self) -> bool {
        self.shaped()
    }

    open spec fn refusal(&self) -> ErrorCode {
        ErrorCode::FrameError
    }

    open spec fn agrees(&self, other: &Self) -> bool {
        self.0@ == other.0@
    }

    proof fn valid_shaped(&self) {
    }

    proof fn prefix_free(a: &Self, b: &Self, x: Seq<u8>, y: Seq<u8>) {
        lemma_text_prefix_free(a.0@, b.0@, x, y);
    }

    proof fn agrees_reflexive(&self) {
    }

    proof fn agrees_carries(a: &Self, b: &Self) {
    }

    fn check(&self) -> (r: Result<(), Error>) {
        let octets = self.0.as_str().as_bytes();
        if octets.len() < 1 || octets.len() > 128 {
            return Err(Error::frame("invalid ApplicationLabel"));
        }
        let mut i: usize = 0;
        while i < octets.len()
            invariant
                i <= octets@.len(),
                octets@ == encode_utf8(self.0@),
                forall|j: int| 0 <= j < i ==> printable_octet(#[trigger] octets@[j]),
            decreases octets@.len() - i,
        {
            let b: u8 = octets[i];
            if !(0x20 <= b && b <= 0x7e) {
                assert(!printable_octet(encode_utf8(self.0@)[i as int]));
                return Err(Error::frame("invalid ApplicationLabel"));
            }
            i += 1;
        }
        Ok(())
    }

    fn same(&self, other: &Self) -> (r: bool) {
        self.0 == other.0
    }

    fn duplicate(&self) -> (r: Self) {
        ApplicationLabel(self.0.clone())
    }

    fn write(&self, w: &mut Writer) {
        w.text(self.0.as_str());
    }

    fn read(bytes: &[u8], pos: usize) -> (r: Result<(Self, usize), Error>) {
        let (text, next) = read_text(bytes, pos)?;
        require(text.as_bytes().len() <= 128, "text exceeds byte bound")?;
        let value = ApplicationLabel(text.to_owned());
        value.check()?;
        Ok((value, next))
    }
}

impl Solid for ApplicationLabel {
    proof fn solid(&self) {
        let n = encode_utf8(self.0@).len();
        cbor::lemma_head(3, n);
        assert(self.wire()[0] == cbor::head(3, n)[0]);
    }

    proof fn plain(&self) {
    }
}

/// A diagnostic text.
#[derive(Debug, Clone, PartialEq, Eq)]
pub struct Detail(pub String);

impl Wire for Detail {
    open spec fn wire(&self) -> Seq<u8> {
        wire::text_wire(self.0@)
    }

    open spec fn shaped(&self) -> bool {
        encode_utf8(self.0@).len() <= 512
    }

    open spec fn valid(&self) -> bool {
        self.shaped()
    }

    open spec fn refusal(&self) -> ErrorCode {
        ErrorCode::FrameError
    }

    open spec fn agrees(&self, other: &Self) -> bool {
        self.0@ == other.0@
    }

    proof fn valid_shaped(&self) {
    }

    proof fn prefix_free(a: &Self, b: &Self, x: Seq<u8>, y: Seq<u8>) {
        lemma_text_prefix_free(a.0@, b.0@, x, y);
    }

    proof fn agrees_reflexive(&self) {
    }

    proof fn agrees_carries(a: &Self, b: &Self) {
    }

    fn check(&self) -> (r: Result<(), Error>) {
        require(self.0.as_str().as_bytes().len() <= 512, "invalid Detail")
    }

    fn same(&self, other: &Self) -> (r: bool) {
        self.0 == other.0
    }

    fn duplicate(&self) -> (r: Self) {
        Detail(self.0.clone())
    }

    fn write(&self, w: &mut Writer) {
        w.text(self.0.as_str());
    }

    fn read(bytes: &[u8], pos: usize) -> (r: Result<(Self, usize), Error>) {
        let (text, next) = read_text(bytes, pos)?;
        require(text.as_bytes().len() <= 512, "text exceeds byte bound")?;
        let value = Detail(text.to_owned());
        value.check()?;
        Ok((value, next))
    }
}

impl Solid for Detail {
    proof fn solid(&self) {
        let n = encode_utf8(self.0@).len();
        cbor::lemma_head(3, n);
        assert(self.wire()[0] == cbor::head(3, n)[0]);
    }

    proof fn plain(&self) {
    }
}

impl Wire for ErrorCode {
    open spec fn wire(&self) -> Seq<u8> {
        cbor::head(0, self.wire_code() as nat)
    }

    open spec fn shaped(&self) -> bool {
        true
    }

    open spec fn valid(&self) -> bool {
        true
    }

    open spec fn refusal(&self) -> ErrorCode {
        ErrorCode::FrameError
    }

    open spec fn agrees(&self, other: &Self) -> bool {
        *self == *other
    }

    proof fn valid_shaped(&self) {
    }

    proof fn prefix_free(a: &Self, b: &Self, x: Seq<u8>, y: Seq<u8>) {
        cbor::lemma_head_prefix_free(0, a.wire_code() as nat, x, 0, b.wire_code() as nat, y);
    }

    proof fn agrees_reflexive(&self) {
    }

    proof fn agrees_carries(a: &Self, b: &Self) {
    }

    fn check(&self) -> (r: Result<(), Error>) {
        Ok(())
    }

    fn same(&self, other: &Self) -> (r: bool) {
        *self == *other
    }

    fn duplicate(&self) -> (r: Self) {
        *self
    }

    fn write(&self, w: &mut Writer) {
        w.uint(self.code());
    }

    fn read(bytes: &[u8], pos: usize) -> (r: Result<(Self, usize), Error>) {
        let (n, next) = read_uint(bytes, pos)?;
        let code = match n {
            1 => ErrorCode::FrameError,
            2 => ErrorCode::ExtensionUnsupported,
            3 => ErrorCode::Unauthorized,
            4 => ErrorCode::LimitExceeded,
            5 => ErrorCode::NotFound,
            6 => ErrorCode::Expired,
            7 => ErrorCode::Conflict,
            8 => ErrorCode::IntegrityError,
            9 => ErrorCode::NotReady,
            10 => ErrorCode::WaitTimeout,
            11 => ErrorCode::DeadlineExceeded,
            12 => ErrorCode::Cancelled,
            13 => ErrorCode::ApplicationUnsupported,
            14 => ErrorCode::ControlReset,
            15 => ErrorCode::InternalError,
            16 => ErrorCode::OutputUnavailable,
            17 => ErrorCode::ClockUnsafe,
            18 => ErrorCode::AlreadyTerminal,
            _ => return Err(Error::frame("unknown refusal code")),
        };
        Ok((code, next))
    }
}

impl Solid for ErrorCode {
    proof fn solid(&self) {
        cbor::lemma_head(0, self.wire_code() as nat);
    }

    proof fn plain(&self) {
    }
}

} // verus!
