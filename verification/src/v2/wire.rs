//! The bounded deterministic encoding that every record of the protocol uses.
//!
//! A value of a `Wire` type has exactly one encoding, `wire`. Encodings of one type are
//! prefix-free, so an octet string is the encoding of at most one value and a sequence of
//! encodings can be taken apart in one way only. `decode` accepts exactly the encodings of
//! valid values.

use super::error::{require, Error, ErrorCode};
use crate::cbor::{
    self, get_array, get_bool, get_null, get_u64, null_ahead, put_array, put_bool, put_bytes, put_null,
    put_text, put_u64,
};
use vstd::prelude::*;

verus! {

/// A growing deterministic encoding.
pub struct Writer {
    pub out: Vec<u8>,
}

impl View for Writer {
    type V = Seq<u8>;

    open spec fn view(&self) -> Seq<u8> {
        self.out@
    }
}

impl Writer {
    pub fn new() -> (w: Self)
        ensures
            w@ == Seq::<u8>::empty(),
    {
        Writer { out: Vec::new() }
    }

    pub fn array(&mut self, n: usize)
        ensures
            final(self)@ == old(self)@ + cbor::head(4, n as nat),
    {
        put_array(&mut self.out, n as u64);
    }

    pub fn array_u64(&mut self, n: u64)
        ensures
            final(self)@ == old(self)@ + cbor::head(4, n as nat),
    {
        put_array(&mut self.out, n);
    }

    pub fn uint(&mut self, n: u64)
        ensures
            final(self)@ == old(self)@ + cbor::head(0, n as nat),
    {
        put_u64(&mut self.out, n);
    }

    pub fn bytes(&mut self, s: &[u8])
        ensures
            final(self)@ == old(self)@ + cbor::head(2, s@.len()) + s@,
    {
        put_bytes(&mut self.out, s);
    }

    pub fn text(&mut self, s: &str)
        ensures
            final(self)@ == old(self)@ + text_wire(s@),
    {
        put_text(&mut self.out, s);
        assert(self.out@ =~= old(self)@ + text_wire(s@));
    }

    pub fn boolean(&mut self, b: bool)
        ensures
            final(self)@ == old(self)@ + b.wire(),
    {
        put_bool(&mut self.out, b);
        assert(self.out@ =~= old(self)@ + b.wire());
    }

    pub fn null(&mut self)
        ensures
            final(self)@ == old(self)@ + seq![0xf6u8],
    {
        put_null(&mut self.out);
        assert(self.out@ =~= old(self)@ + seq![0xf6u8]);
    }

    pub fn finish(self) -> (bytes: Vec<u8>)
        ensures
            bytes@ == self@,
    {
        self.out
    }
}

/// The encoding of a text string.
pub open spec fn text_wire(s: Seq<char>) -> Seq<u8> {
    cbor::head(3, vstd::utf8::encode_utf8(s).len()) + vstd::utf8::encode_utf8(s)
}

/// The encoding of a byte string.
pub open spec fn bytes_wire(s: Seq<u8>) -> Seq<u8> {
    cbor::head(2, s.len()) + s
}

pub fn malformed() -> (r: Error)
    ensures
        r.code == ErrorCode::FrameError,
{
    Error::frame("invalid typed CBOR field")
}

/// A type with one deterministic encoding.
pub trait Wire: Sized {
    /// The encoding of the value.
    spec fn wire(&self) -> Seq<u8>;

    /// Every field lies in the range of its own type; relations between fields are open.
    spec fn shaped(&self) -> bool;

    /// The value obeys every context-free rule of the protocol.
    spec fn valid(&self) -> bool;

    /// The code with which an invalid value is refused.
    spec fn refusal(&self) -> ErrorCode;

    /// The two values hold the same contents, field by field.
    spec fn agrees(&self, other: &Self) -> bool;

    proof fn valid_shaped(&self)
        requires
            self.valid(),
        ensures
            self.shaped(),
    ;

    /// Encodings of shaped values are prefix-free and determine the value.
    proof fn prefix_free(a: &Self, b: &Self, x: Seq<u8>, y: Seq<u8>)
        requires
            a.shaped(),
            b.shaped(),
            a.wire() + x == b.wire() + y,
        ensures
            a.agrees(b),
            x == y,
    ;

    proof fn agrees_reflexive(&self)
        ensures
            self.agrees(self),
    ;

    /// Values with the same contents have the same encoding and the same standing.
    proof fn agrees_carries(a: &Self, b: &Self)
        requires
            a.agrees(b),
        ensures
            a.wire() == b.wire(),
            a.shaped() == b.shaped(),
            a.valid() == b.valid(),
            a.refusal() == b.refusal(),
            b.agrees(a),
    ;

    fn check(&self) -> (r: Result<(), Error>)
        ensures
            match r {
                Ok(_) => self.valid(),
                Err(e) => !self.valid() && e.code == self.refusal(),
            },
    ;

    fn same(&self, other: &Self) -> (r: bool)
        ensures
            r == self.agrees(other),
    ;

    fn duplicate(&self) -> (r: Self)
        ensures
            r.agrees(self),
            self.agrees(&r),
    ;

    fn write(&self, w: &mut Writer)
        ensures
            final(w)@ == old(w)@ + self.wire(),
    ;

    /// Reads a value at `pos`. What stands there is taken for the value that it encodes; octets
    /// that are no deterministic encoding may be read as some value too, which `decode` rules out.
    fn read(bytes: &[u8], pos: usize) -> (r: Result<(Self, usize), Error>)
        ensures
            match r {
                Ok(o) => o.0.shaped() && pos <= o.1 <= bytes@.len(),
                Err(e) => e.code == ErrorCode::FrameError,
            },
            forall|v: Self|
                v.shaped() && #[trigger] cbor::at(bytes@, pos as int, v.wire()) ==> (r matches Ok(o)
                    && o.0.agrees(&v) && o.1 == pos + v.wire().len()),
    ;
}

/// A `Wire` type whose encoding is never empty and starts neither with `null` nor as a negative
/// integer, so that the type can be optional and can be listed.
pub trait Solid: Wire {
    proof fn solid(&self)
        requires
            self.shaped(),
        ensures
            self.wire().len() > 0,
            self.wire()[0] != 0xf6,
            !(0x38 <= self.wire()[0] <= 0x3b),
    ;

    proof fn plain(&self)
        ensures
            self.refusal() == ErrorCode::FrameError,
    ;
}

/// The octets are the encoding of some value in the range of its fields.
pub open spec fn encodes<T: Wire>(v: T, bytes: Seq<u8>) -> bool {
    v.shaped() && v.wire() == bytes
}

/// Why octets within the bound are refused: the refusal of the value that they encode, or a
/// frame error where they encode none.
pub open spec fn decode_refusal<T: Wire>(bytes: Seq<u8>) -> ErrorCode {
    if bytes.len() > 0 && exists|v: T| #[trigger] encodes(v, bytes) {
        (choose|v: T| #[trigger] encodes(v, bytes)).refusal()
    } else {
        ErrorCode::FrameError
    }
}

/// An octet string encodes at most one shaped value.
pub proof fn lemma_encodes_unique<T: Wire>(a: T, b: T, bytes: Seq<u8>)
    requires
        encodes(a, bytes),
        encodes(b, bytes),
    ensures
        a.agrees(&b),
{
    let e = Seq::<u8>::empty();
    assert(a.wire() + e =~= b.wire() + e);
    T::prefix_free(&a, &b, e, e);
}

/// Decodes one bare record: accepts exactly the non-empty encodings, of at most `limit` octets,
/// of valid values, and yields the value encoded.
pub fn decode<T: Wire>(bytes: &[u8], limit: usize) -> (r: Result<T, Error>)
    ensures
        match r {
            Ok(v) => v.valid() && v.wire() == bytes@ && 0 < bytes@.len() <= limit,
            Err(e) => {
                &&& forall|v: T|
                    v.valid() && #[trigger] v.wire() == bytes@ ==> bytes@.len() == 0
                        || bytes@.len() > limit
                &&& e.code == if bytes@.len() <= limit {
                    decode_refusal::<T>(bytes@)
                } else {
                    ErrorCode::FrameError
                }
            },
        },
{
    if bytes.len() == 0 || bytes.len() > limit {
        return Err(Error::frame("CBOR body exceeds bound"));
    }
    proof {
        cbor::lemma_at_whole(bytes@);
        assert forall|v: T| v.valid() && #[trigger] v.wire() == bytes@ implies encodes(
            v,
            bytes@,
        ) by {
            v.valid_shaped();
        }
    }
    let (value, next) = match T::read(bytes, 0) {
        Ok(o) => o,
        Err(e) => {
            assert forall|v: T| #[trigger] encodes(v, bytes@) implies false by {
                assert(cbor::at(bytes@, 0, v.wire()));
            }
            return Err(e);
        },
    };
    let mut w = Writer::new();
    value.write(&mut w);
    assert(w@ =~= value.wire());
    assert forall|v: T| #[trigger] encodes(v, bytes@) implies value.wire() == bytes@ by {
        assert(cbor::at(bytes@, 0, v.wire()));
        T::agrees_carries(&value, &v);
    }
    if next != bytes.len() {
        assert forall|v: T| #[trigger] encodes(v, bytes@) implies false by {
            assert(cbor::at(bytes@, 0, v.wire()));
        }
        return Err(Error::frame("trailing CBOR item"));
    }
    if !same_octets(w.out.as_slice(), bytes) {
        return Err(Error::frame("noncanonical CBOR"));
    }
    assert(encodes(value, bytes@));
    match value.check() {
        Ok(_) => Ok(value),
        Err(e) => {
            proof {
                let v = choose|v: T| #[trigger] encodes(v, bytes@);
                lemma_encodes_unique(value, v, bytes@);
                T::agrees_carries(&value, &v);
                assert forall|u: T| u.valid() && #[trigger] u.wire() == bytes@ implies false by {
                    assert(encodes(u, bytes@));
                    lemma_encodes_unique(value, u, bytes@);
                    T::agrees_carries(&value, &u);
                }
            }
            Err(e)
        },
    }
}

/// Encodes a valid value whose encoding has at most `limit` octets.
pub fn encode<T: Wire>(value: &T, limit: usize) -> (r: Result<Vec<u8>, Error>)
    ensures
        match r {
            Ok(b) => value.valid() && b@ == value.wire() && b@.len() <= limit,
            Err(e) => if value.valid() {
                value.wire().len() > limit && e.code == ErrorCode::FrameError
            } else {
                e.code == value.refusal()
            },
        },
{
    value.check()?;
    let mut w = Writer::new();
    value.write(&mut w);
    assert(w@ =~= value.wire());
    let bytes = w.finish();
    require(bytes.len() <= limit, "encoded body exceeds bound")?;
    Ok(bytes)
}

/// What `decode` gives back of an encoding is the value that was encoded, and what `encode` gives
/// of a decoded value is the octets that were decoded: an encoding and its value determine each
/// other.
pub proof fn law_encoding_is_bijective<T: Wire>(a: T, b: T)
    requires
        a.valid(),
        b.valid(),
    ensures
        a.agrees(&b) <==> a.wire() == b.wire(),
{
    a.valid_shaped();
    b.valid_shaped();
    if a.agrees(&b) {
        T::agrees_carries(&a, &b);
    }
    if a.wire() == b.wire() {
        lemma_encodes_unique(a, b, a.wire());
    }
}

/// No encoding survives truncation or a trailing octet: of two octet strings of which one is a
/// proper prefix of the other, at most one encodes a valid value.
pub proof fn law_encoding_is_prefix_free<T: Wire>(a: T, b: T, tail: Seq<u8>)
    requires
        a.valid(),
        b.valid(),
        b.wire() == a.wire() + tail,
    ensures
        tail.len() == 0,
{
    a.valid_shaped();
    b.valid_shaped();
    let e = Seq::<u8>::empty();
    assert(b.wire() + e =~= a.wire() + tail);
    T::prefix_free(&b, &a, e, tail);
}

/// A message is an array head, a tag and the encoding of its fields: two messages with a common
/// continuation have the same tag, and their fields have a common continuation.
pub proof fn lemma_message_prefix(
    a: (nat, nat, Seq<u8>),
    x: Seq<u8>,
    b: (nat, nat, Seq<u8>),
    y: Seq<u8>,
)
    requires
        a.0 <= u64::MAX,
        a.1 <= u64::MAX,
        b.0 <= u64::MAX,
        b.1 <= u64::MAX,
        cbor::head(4, a.0) + (cbor::head(0, a.1) + a.2) + x == cbor::head(4, b.0) + (cbor::head(
            0,
            b.1,
        ) + b.2) + y,
    ensures
        a.0 == b.0,
        a.1 == b.1,
        a.2 + x == b.2 + y,
{
    let ra = cbor::head(0, a.1) + (a.2 + x);
    let rb = cbor::head(0, b.1) + (b.2 + y);
    assert(cbor::head(4, a.0) + (cbor::head(0, a.1) + a.2) + x =~= cbor::head(4, a.0) + ra);
    assert(cbor::head(4, b.0) + (cbor::head(0, b.1) + b.2) + y =~= cbor::head(4, b.0) + rb);
    cbor::lemma_head_prefix_free(4, a.0, ra, 4, b.0, rb);
    cbor::lemma_head_prefix_free(0, a.1, a.2 + x, 0, b.1, b.2 + y);
}

pub broadcast proof fn lemma_concat_assoc(a: Seq<u8>, b: Seq<u8>, c: Seq<u8>)
    ensures
        #[trigger] ((a + b) + c) == a + (b + c),
{
    assert((a + b) + c =~= a + (b + c));
}

pub fn same_octets(a: &[u8], b: &[u8]) -> (r: bool)
    ensures
        r == (a@ == b@),
{
    if a.len() != b.len() {
        return false;
    }
    let mut i: usize = 0;
    while i < a.len()
        invariant
            i <= a.len(),
            a.len() == b.len(),
            forall|j: int| 0 <= j < i ==> a@[j] == b@[j],
        decreases a.len() - i,
    {
        if a[i] != b[i] {
            assert(a@[i as int] != b@[i as int]);
            return false;
        }
        i += 1;
    }
    assert(a@ =~= b@);
    true
}

/// Reads the head of an array that must have `size` elements.
pub fn read_array_head(bytes: &[u8], pos: usize, size: u64) -> (r: Result<usize, Error>)
    ensures
        match r {
            Ok(next) => pos <= next <= bytes@.len(),
            Err(e) => e.code == ErrorCode::FrameError,
        },
        cbor::at(bytes@, pos as int, cbor::head(4, size as nat)) ==> (r matches Ok(next) && next == pos + cbor::head(
            4,
            size as nat,
        ).len()),
{
    proof {
        if cbor::at(bytes@, pos as int, cbor::head(4, size as nat)) {
            cbor::lemma_head_at(bytes@, pos as int, 4, size as nat);
        }
    }
    match get_array(bytes, pos) {
        Some((count, next)) => {
            if count == Some(size) {
                Ok(next)
            } else {
                Err(Error::frame("wrong array cardinality"))
            }
        },
        None => Err(malformed()),
    }
}

/// Reads an unsigned integer.
pub fn read_uint(bytes: &[u8], pos: usize) -> (r: Result<(u64, usize), Error>)
    ensures
        match r {
            Ok(o) => pos <= o.1 <= bytes@.len(),
            Err(e) => e.code == ErrorCode::FrameError,
        },
        forall|n: u64| #[trigger]
            cbor::at(bytes@, pos as int, cbor::head(0, n as nat)) ==> (r matches Ok(o) && o.0 == n && o.1 == pos
                + cbor::head(0, n as nat).len()),
{
    proof {
        assert forall|n: u64| #[trigger] cbor::at(bytes@, pos as int, cbor::head(0, n as nat)) implies cbor::major_at(
            bytes@,
            pos as int,
        ) == 0 && cbor::argument(bytes@, pos as int) == Some((n as nat, pos + cbor::head(0, n as nat).len()))
            && pos < bytes@.len() by {
            cbor::lemma_head_at(bytes@, pos as int, 0, n as nat);
        }
    }
    match get_u64(bytes, pos) {
        Some(o) => Ok(o),
        None => Err(malformed()),
    }
}

impl Wire for bool {
    open spec fn wire(&self) -> Seq<u8> {
        seq![if *self { 0xf5u8 } else { 0xf4u8 }]
    }

    open spec fn shaped(&self) -> bool {
        true
    }

    open spec fn valid(&self) -> bool {
        true
    }

    open spec fn refusal(&self) -> ErrorCode {
        ErrorCode::FrameError
    }

    open spec fn agrees(&self, other: &Self) -> bool {
        *self == *other
    }

    proof fn valid_shaped(&self) {
    }

    proof fn prefix_free(a: &Self, b: &Self, x: Seq<u8>, y: Seq<u8>) {
        let s = a.wire() + x;
        let t = b.wire() + y;
        assert(s[0] == a.wire()[0]);
        assert(t[0] == b.wire()[0]);
        assert(x =~= s.subrange(1, s.len() as int));
        assert(y =~= t.subrange(1, t.len() as int));
    }

    proof fn agrees_reflexive(&self) {
    }

    proof fn agrees_carries(a: &Self, b: &Self) {
    }

    fn check(&self) -> (r: Result<(), Error>) {
        Ok(())
    }

    fn same(&self, other: &Self) -> (r: bool) {
        *self == *other
    }

    fn duplicate(&self) -> (r: Self) {
        *self
    }

    fn write(&self, w: &mut Writer) {
        w.boolean(*self);
    }

    fn read(bytes: &[u8], pos: usize) -> (r: Result<(Self, usize), Error>) {
        proof {
            assert forall|v: bool| #[trigger] cbor::at(bytes@, pos as int, v.wire()) implies pos
                < bytes@.len() && bytes@[pos as int] == (if v { 0xf5u8 } else { 0xf4u8 }) by {
                assert(bytes@.subrange(pos as int, pos + v.wire().len())[0] == bytes@[pos as int]);
            }
        }
        match get_bool(bytes, pos) {
            Some(o) => Ok(o),
            None => Err(malformed()),
        }
    }
}

impl Solid for bool {
    proof fn solid(&self) {
    }

    proof fn plain(&self) {
    }
}

impl<T: Solid> Wire for Option<T> {
    open spec fn wire(&self) -> Seq<u8> {
        match self {
            Some(v) => v.wire(),
            None => seq![0xf6u8],
        }
    }

    open spec fn shaped(&self) -> bool {
        self matches Some(v) ==> v.shaped()
    }

    open spec fn valid(&self) -> bool {
        self matches Some(v) ==> v.valid()
    }

    open spec fn refusal(&self) -> ErrorCode {
        ErrorCode::FrameError
    }

    open spec fn agrees(&self, other: &Self) -> bool {
        match (self, other) {
            (Some(a), Some(b)) => a.agrees(b),
            (None, None) => true,
            _ => false,
        }
    }

    proof fn valid_shaped(&self) {
        if let Some(v) = self {
            v.valid_shaped();
        }
    }

    proof fn prefix_free(a: &Self, b: &Self, x: Seq<u8>, y: Seq<u8>) {
        let s = a.wire() + x;
        let t = b.wire() + y;
        match (a, b) {
            (Some(v), Some(u)) => {
                T::prefix_free(v, u, x, y);
            },
            (None, None) => {
                assert(x =~= s.subrange(1, s.len() as int));
                assert(y =~= t.subrange(1, t.len() as int));
            },
            (Some(v), None) => {
                v.solid();
                assert(s[0] == v.wire()[0]);
                assert(t[0] == 0xf6u8);
            },
            (None, Some(u)) => {
                u.solid();
                assert(t[0] == u.wire()[0]);
                assert(s[0] == 0xf6u8);
            },
        }
    }

    proof fn agrees_reflexive(&self) {
        if let Some(v) = self {
            v.agrees_reflexive();
        }
    }

    proof fn agrees_carries(a: &Self, b: &Self) {
        if let (Some(v), Some(u)) = (a, b) {
            T::agrees_carries(v, u);
        }
    }

    fn check(&self) -> (r: Result<(), Error>) {
        match self {
            Some(v) => {
                proof {
                    v.plain();
                }
                v.check()
            },
            None => Ok(()),
        }
    }

    fn same(&self, other: &Self) -> (r: bool) {
        match (self, other) {
            (Some(a), Some(b)) => a.same(b),
            (None, None) => true,
            _ => false,
        }
    }

    fn duplicate(&self) -> (r: Self) {
        match self {
            Some(v) => Some(v.duplicate()),
            None => None,
        }
    }

    fn write(&self, w: &mut Writer) {
        match self {
            Some(v) => v.write(w),
            None => w.null(),
        }
    }

    fn read(bytes: &[u8], pos: usize) -> (r: Result<(Self, usize), Error>) {
        proof {
            assert forall|v: Option<T>|
                v.shaped() && #[trigger] cbor::at(bytes@, pos as int, v.wire()) implies pos < bytes@.len()
                && bytes@[pos as int] == v.wire()[0] && (v is None <==> bytes@[pos as int] == 0xf6)
                by {
                if let Some(u) = v {
                    u.solid();
                }
                assert(bytes@.subrange(pos as int, pos + v.wire().len())[0] == bytes@[pos as int]);
            }
        }
        let null = match null_ahead(bytes, pos) {
            Some(null) => null,
            None => {
                proof {
                    assert forall|v: Option<T>|
                        v.shaped() && #[trigger] cbor::at(bytes@, pos as int, v.wire()) implies false by {
                        if let Some(u) = v {
                            u.solid();
                        }
                    }
                }
                return Err(malformed());
            },
        };
        if null {
            match get_null(bytes, pos) {
                Some(next) => Ok((None, next)),
                None => Err(malformed()),
            }
        } else {
            match T::read(bytes, pos) {
                Ok((v, next)) => {
                    assert forall|u: Option<T>|
                        u.shaped() && #[trigger] cbor::at(bytes@, pos as int, u.wire()) implies Some(
                        v,
                    ).agrees(&u) && next == pos + u.wire().len() by {
                        assert(cbor::at(bytes@, pos as int, u->0.wire()));
                    }
                    Ok((Some(v), next))
                },
                Err(e) => {
                    assert forall|u: Option<T>|
                        u.shaped() && #[trigger] cbor::at(
                            bytes@,
                            pos as int,
                            u.wire(),
                        ) implies false by {
                        assert(cbor::at(bytes@, pos as int, u->0.wire()));
                    }
                    Err(e)
                },
            }
        }
    }
}

impl<T: Wire> Wire for Box<T> {
    open spec fn wire(&self) -> Seq<u8> {
        (**self).wire()
    }

    open spec fn shaped(&self) -> bool {
        (**self).shaped()
    }

    open spec fn valid(&self) -> bool {
        (**self).valid()
    }

    open spec fn refusal(&self) -> ErrorCode {
        (**self).refusal()
    }

    open spec fn agrees(&self, other: &Self) -> bool {
        (**self).agrees(&**other)
    }

    proof fn valid_shaped(&self) {
        (**self).valid_shaped();
    }

    proof fn prefix_free(a: &Self, b: &Self, x: Seq<u8>, y: Seq<u8>) {
        T::prefix_free(&**a, &**b, x, y);
    }

    proof fn agrees_reflexive(&self) {
        (**self).agrees_reflexive();
    }

    proof fn agrees_carries(a: &Self, b: &Self) {
        T::agrees_carries(&**a, &**b);
    }

    fn check(&self) -> (r: Result<(), Error>) {
        (**self).check()
    }

    fn same(&self, other: &Self) -> (r: bool) {
        (**self).same(&**other)
    }

    fn duplicate(&self) -> (r: Self) {
        Box::new((**self).duplicate())
    }

    fn write(&self, w: &mut Writer) {
        (**self).write(w);
    }

    fn read(bytes: &[u8], pos: usize) -> (r: Result<(Self, usize), Error>) {
        match T::read(bytes, pos) {
            Ok((v, next)) => {
                assert forall|u: Box<T>|
                    u.shaped() && #[trigger] cbor::at(bytes@, pos as int, u.wire()) implies v.agrees(
                    &*u,
                ) && next == pos + u.wire().len() by {
                    assert(cbor::at(bytes@, pos as int, (*u).wire()));
                }
                Ok((Box::new(v), next))
            },
            Err(e) => {
                assert forall|u: Box<T>|
                    u.shaped() && #[trigger] cbor::at(bytes@, pos as int, u.wire()) implies false by {
                    assert(cbor::at(bytes@, pos as int, (*u).wire()));
                }
                Err(e)
            },
        }
    }
}

/// The encodings of the elements, one behind the other.
pub open spec fn items_wire<T: Wire>(s: Seq<T>) -> Seq<u8>
    decreases s.len(),
{
    if s.len() == 0 {
        Seq::empty()
    } else {
        s[0].wire() + items_wire(s.drop_first())
    }
}

pub open spec fn items_agree<T: Wire>(a: Seq<T>, b: Seq<T>) -> bool {
    a.len() == b.len() && forall|i: int| 0 <= i < a.len() ==> (#[trigger] a[i]).agrees(&b[i])
}

pub open spec fn items_shaped<T: Wire>(s: Seq<T>) -> bool {
    forall|i: int| 0 <= i < s.len() ==> (#[trigger] s[i]).shaped()
}

pub proof fn lemma_items_prefix_free<T: Wire>(a: Seq<T>, b: Seq<T>, x: Seq<u8>, y: Seq<u8>)
    requires
        a.len() == b.len(),
        items_shaped(a),
        items_shaped(b),
        items_wire(a) + x == items_wire(b) + y,
    ensures
        items_agree(a, b),
        x == y,
    decreases a.len(),
{
    if a.len() == 0 {
        assert(items_wire(a) + x =~= x);
        assert(items_wire(b) + y =~= y);
    } else {
        let ra = items_wire(a.drop_first()) + x;
        let rb = items_wire(b.drop_first()) + y;
        assert(items_wire(a) + x =~= a[0].wire() + ra);
        assert(items_wire(b) + y =~= b[0].wire() + rb);
        T::prefix_free(&a[0], &b[0], ra, rb);
        lemma_items_prefix_free(a.drop_first(), b.drop_first(), x, y);
        assert forall|i: int| 0 <= i < a.len() implies (#[trigger] a[i]).agrees(&b[i]) by {
            if i > 0 {
                assert(a.drop_first()[i - 1].agrees(&b.drop_first()[i - 1]));
            }
        }
    }
}

pub proof fn lemma_items_push<T: Wire>(s: Seq<T>, x: T)
    ensures
        items_wire(s.push(x)) == items_wire(s) + x.wire(),
    decreases s.len(),
{
    if s.len() == 0 {
        assert(s.push(x).drop_first() =~= s);
        assert(items_wire(s.push(x)) =~= items_wire(s) + x.wire());
    } else {
        lemma_items_push(s.drop_first(), x);
        assert(s.push(x).drop_first() =~= s.drop_first().push(x));
        assert(items_wire(s.push(x)) =~= items_wire(s) + x.wire());
    }
}

proof fn lemma_items_agree<T: Wire>(a: Seq<T>, b: Seq<T>)
    requires
        items_agree(a, b),
    ensures
        items_wire(a) == items_wire(b),
        items_shaped(a) == items_shaped(b),
        items_agree(b, a),
        (forall|i: int| 0 <= i < a.len() ==> (#[trigger] a[i]).valid()) == (forall|i: int|
            0 <= i < b.len() ==> (#[trigger] b[i]).valid()),
    decreases a.len(),
{
    assert forall|i: int| 0 <= i < a.len() implies (#[trigger] a[i]).wire() == b[i].wire()
        && a[i].shaped() == b[i].shaped() && b[i].agrees(&a[i]) && a[i].valid() == b[i].valid() by {
        T::agrees_carries(&a[i], &b[i]);
    }
    assert forall|i: int| 0 <= i < b.len() implies (#[trigger] b[i]).agrees(&a[i]) && b[i].shaped()
        == a[i].shaped() && b[i].valid() == a[i].valid() by {
        assert(a[i].wire() == b[i].wire());
    }
    if a.len() > 0 {
        T::agrees_carries(&a[0], &b[0]);
        assert forall|i: int| 0 <= i < a.drop_first().len() implies (
        #[trigger] a.drop_first()[i]).agrees(&b.drop_first()[i]) by {
            assert(a[i + 1].agrees(&b[i + 1]));
        }
        lemma_items_agree(a.drop_first(), b.drop_first());
    }
}

proof fn lemma_items_long<T: Solid>(s: Seq<T>)
    requires
        items_shaped(s),
    ensures
        items_wire(s).len() >= s.len(),
    decreases s.len(),
{
    if s.len() > 0 {
        s[0].solid();
        assert forall|i: int| 0 <= i < s.drop_first().len() implies (
        #[trigger] s.drop_first()[i]).shaped() by {
            assert(s[i + 1].shaped());
        }
        lemma_items_long(s.drop_first());
    }
}

impl<T: Solid> Wire for Vec<T> {
    open spec fn wire(&self) -> Seq<u8> {
        cbor::head(4, self@.len()) + items_wire(self@)
    }

    open spec fn shaped(&self) -> bool {
        self@.len() <= 256 && items_shaped(self@)
    }

    open spec fn valid(&self) -> bool {
        self@.len() <= 256 && forall|i: int| 0 <= i < self@.len() ==> (#[trigger] self@[i]).valid()
    }

    open spec fn refusal(&self) -> ErrorCode {
        ErrorCode::FrameError
    }

    open spec fn agrees(&self, other: &Self) -> bool {
        items_agree(self@, other@)
    }

    proof fn valid_shaped(&self) {
        assert forall|i: int| 0 <= i < self@.len() implies (#[trigger] self@[i]).shaped() by {
            self@[i].valid_shaped();
        }
    }

    proof fn prefix_free(a: &Self, b: &Self, x: Seq<u8>, y: Seq<u8>) {
        let ra = items_wire(a@) + x;
        let rb = items_wire(b@) + y;
        assert(a.wire() + x =~= cbor::head(4, a@.len()) + ra);
        assert(b.wire() + y =~= cbor::head(4, b@.len()) + rb);
        cbor::lemma_head_prefix_free(4, a@.len(), ra, 4, b@.len(), rb);
        lemma_items_prefix_free(a@, b@, x, y);
    }

    proof fn agrees_reflexive(&self) {
        assert forall|i: int| 0 <= i < self@.len() implies (#[trigger] self@[i]).agrees(
            &self@[i],
        ) by {
            self@[i].agrees_reflexive();
        }
    }

    proof fn agrees_carries(a: &Self, b: &Self) {
        lemma_items_agree(a@, b@);
    }

    fn check(&self) -> (r: Result<(), Error>) {
        require(self.len() <= 256, "oversize list")?;
        let mut i: usize = 0;
        while i < self.len()
            invariant
                i <= self@.len() <= 256,
                forall|j: int| 0 <= j < i ==> (#[trigger] self@[j]).valid(),
            decreases self@.len() - i,
        {
            match self[i].check() {
                Ok(_) => {},
                Err(e) => {
                    proof {
                        self@[i as int].plain();
                    }
                    return Err(e);
                },
            }
            i += 1;
        }
        Ok(())
    }

    fn same(&self, other: &Self) -> (r: bool) {
        if self.len() != other.len() {
            return false;
        }
        let mut i: usize = 0;
        while i < self.len()
            invariant
                i <= self@.len(),
                self@.len() == other@.len(),
                forall|j: int| 0 <= j < i ==> (#[trigger] self@[j]).agrees(&other@[j]),
            decreases self@.len() - i,
        {
            if !self[i].same(&other[i]) {
                assert(!self@[i as int].agrees(&other@[i as int]));
                return false;
            }
            i += 1;
        }
        true
    }

    fn duplicate(&self) -> (r: Self) {
        let mut r: Vec<T> = Vec::with_capacity(self.len());
        let mut i: usize = 0;
        while i < self.len()
            invariant
                i <= self@.len(),
                r@.len() == i,
                forall|j: int| 0 <= j < i ==> (#[trigger] r@[j]).agrees(&self@[j]),
                forall|j: int| 0 <= j < i ==> (#[trigger] self@[j]).agrees(&r@[j]),
            decreases self@.len() - i,
        {
            let v = self[i].duplicate();
            r.push(v);
            i += 1;
        }
        r
    }

    fn write(&self, w: &mut Writer) {
        w.array(self.len());
        let mut i: usize = 0;
        assert(self@.skip(0) =~= self@);
        assert(w@ + items_wire(self@) =~= old(w)@ + self.wire());
        while i < self.len()
            invariant
                i <= self@.len(),
                w@ + items_wire(self@.skip(i as int)) == old(w)@ + self.wire(),
            decreases self@.len() - i,
        {
            let ghost before = w@;
            let ghost rest = self@.skip(i as int);
            assert(rest.drop_first() =~= self@.skip(i + 1));
            assert(rest[0] == self@[i as int]);
            self[i].write(w);
            i += 1;
            assert(w@ + items_wire(self@.skip(i as int)) =~= before + items_wire(rest));
        }
        assert(self@.skip(i as int) =~= Seq::empty());
        assert(w@ + items_wire(self@.skip(i as int)) =~= w@);
    }

    fn read(bytes: &[u8], pos: usize) -> (r: Result<(Self, usize), Error>) {
        let ghost b = bytes@;
        proof {
            assert forall|v: Vec<T>|
                v.shaped() && #[trigger] cbor::at(b, pos as int, v.wire()) implies cbor::at(
                b,
                pos as int,
                cbor::head(4, v@.len()),
            ) && cbor::at(b, pos + cbor::head(4, v@.len()).len(), items_wire(v@)) && cbor::major_at(
                b,
                pos as int,
            ) == 4 && cbor::argument(b, pos as int) == Some(
                (v@.len(), pos + cbor::head(4, v@.len()).len()),
            ) && b[pos as int] != 0x9f && items_wire(v@).len() >= v@.len() by {
                cbor::lemma_at_concat(
                    b,
                    pos as int,
                    cbor::head(4, v@.len()),
                    items_wire(v@),
                );
                cbor::lemma_head_at(b, pos as int, 4, v@.len());
                lemma_items_long(v@);
            }
        }
        let (count, start) = match get_array(bytes, pos) {
            Some(o) => o,
            None => return Err(malformed()),
        };
        let n: u64 = match count {
            Some(n) => n,
            None => return Err(Error::frame("indefinite list")),
        };
        // Every list is bounded by 256. Never allocate from the untrusted length before checking.
        require(n <= 256 && n <= (bytes.len() - start) as u64, "oversize list")?;
        let mut values: Vec<T> = Vec::with_capacity(n as usize);
        let mut next: usize = start;
        let mut i: u64 = 0;
        assert forall|v: Vec<T>|
            v.shaped() && #[trigger] cbor::at(b, pos as int, v.wire()) implies v@.len() == n
            && cbor::at(b, next as int, items_wire(v@.skip(0))) && next + items_wire(
            v@.skip(0),
        ).len() == pos + v.wire().len() by {
            assert(v@.skip(0) =~= v@);
        }
        while i < n
            invariant
                b == bytes@,
                i <= n <= 256,
                values@.len() == i,
                items_shaped(values@),
                pos <= next <= b.len(),
                forall|v: Vec<T>|
                    v.shaped() && #[trigger] cbor::at(b, pos as int, v.wire()) ==> v@.len() == n
                        && cbor::at(b, next as int, items_wire(v@.skip(i as int))) && next
                        + items_wire(v@.skip(i as int)).len() == pos + v.wire().len() && (forall|
                        j: int,
                    |
                        0 <= j < i ==> (#[trigger] values@[j]).agrees(&v@[j])),
            decreases n - i,
        {
            let ghost from = next;
            proof {
                assert forall|v: Vec<T>|
                    v.shaped() && #[trigger] cbor::at(b, pos as int, v.wire()) implies cbor::at(
                    b,
                    next as int,
                    v@[i as int].wire(),
                ) && cbor::at(
                    b,
                    next + v@[i as int].wire().len(),
                    items_wire(v@.skip(i + 1)),
                ) && items_wire(v@.skip(i as int)).len() == v@[i as int].wire().len() + items_wire(
                    v@.skip(i + 1),
                ).len() by {
                    let rest = v@.skip(i as int);
                    assert(rest.drop_first() =~= v@.skip(i + 1));
                    assert(rest[0] == v@[i as int]);
                    cbor::lemma_at_concat(
                        b,
                        next as int,
                        v@[i as int].wire(),
                        items_wire(v@.skip(i + 1)),
                    );
                }
            }
            match T::read(bytes, next) {
                Ok((v, after)) => {
                    let ghost known = values@;
                    values.push(v);
                    next = after;
                    i += 1;
                    proof {
                        assert forall|u: Vec<T>|
                            u.shaped() && #[trigger] cbor::at(b, pos as int, u.wire()) implies next
                            == from + u@[i - 1].wire().len() && (forall|j: int|
                            0 <= j < i ==> (#[trigger] values@[j]).agrees(&u@[j])) by {
                            assert(u@[i - 1].shaped());
                            assert(v.agrees(&u@[i - 1]));
                            assert forall|j: int| 0 <= j < i implies (
                            #[trigger] values@[j]).agrees(&u@[j]) by {
                                if j < i - 1 {
                                    assert(known[j].agrees(&u@[j]));
                                }
                            }
                        }
                    }
                },
                Err(e) => {
                    assert forall|u: Vec<T>|
                        u.shaped() && #[trigger] cbor::at(b, pos as int, u.wire()) implies false by {
                        assert(u@[i as int].shaped());
                    }
                    return Err(e);
                },
            }
        }
        assert forall|v: Vec<T>|
            v.shaped() && #[trigger] cbor::at(b, pos as int, v.wire()) implies values.agrees(&v)
            && next == pos + v.wire().len() by {
            assert(v@.skip(i as int) =~= Seq::empty());
        }
        Ok((values, next))
    }
}

impl<T: Solid> Solid for Vec<T> {
    proof fn solid(&self) {
        cbor::lemma_head(4, self@.len());
    }

    proof fn plain(&self) {
    }
}

/// Two values whose encodings stand one behind the other, without a head: the fields of a record
/// are nested pairs.
impl<A: Wire, B: Wire> Wire for (A, B) {
    open spec fn wire(&self) -> Seq<u8> {
        self.0.wire() + self.1.wire()
    }

    open spec fn shaped(&self) -> bool {
        self.0.shaped() && self.1.shaped()
    }

    open spec fn valid(&self) -> bool {
        self.0.valid() && self.1.valid()
    }

    open spec fn refusal(&self) -> ErrorCode {
        if !self.0.valid() {
            self.0.refusal()
        } else {
            self.1.refusal()
        }
    }

    open spec fn agrees(&self, other: &Self) -> bool {
        self.0.agrees(&other.0) && self.1.agrees(&other.1)
    }

    proof fn valid_shaped(&self) {
        self.0.valid_shaped();
        self.1.valid_shaped();
    }

    proof fn prefix_free(a: &Self, b: &Self, x: Seq<u8>, y: Seq<u8>) {
        assert(a.wire() + x =~= a.0.wire() + (a.1.wire() + x));
        assert(b.wire() + y =~= b.0.wire() + (b.1.wire() + y));
        A::prefix_free(&a.0, &b.0, a.1.wire() + x, b.1.wire() + y);
        B::prefix_free(&a.1, &b.1, x, y);
    }

    proof fn agrees_reflexive(&self) {
        self.0.agrees_reflexive();
        self.1.agrees_reflexive();
    }

    proof fn agrees_carries(a: &Self, b: &Self) {
        A::agrees_carries(&a.0, &b.0);
        B::agrees_carries(&a.1, &b.1);
    }

    fn check(&self) -> (r: Result<(), Error>) {
        self.0.check()?;
        self.1.check()
    }

    fn same(&self, other: &Self) -> (r: bool) {
        self.0.same(&other.0) && self.1.same(&other.1)
    }

    fn duplicate(&self) -> (r: Self) {
        (self.0.duplicate(), self.1.duplicate())
    }

    fn write(&self, w: &mut Writer) {
        self.0.write(w);
        self.1.write(w);
        assert(w@ =~= old(w)@ + self.wire());
    }

    fn read(bytes: &[u8], pos: usize) -> (r: Result<(Self, usize), Error>) {
        proof {
            assert forall|v: (A, B)|
                v.shaped() && #[trigger] cbor::at(bytes@, pos as int, v.wire()) implies cbor::at(
                bytes@,
                pos as int,
                v.0.wire(),
            ) && cbor::at(bytes@, pos + v.0.wire().len(), v.1.wire()) by {
                cbor::lemma_at_concat(bytes@, pos as int, v.0.wire(), v.1.wire());
            }
        }
        let (a, middle) = A::read(bytes, pos)?;
        let (b, next) = match B::read(bytes, middle) {
            Ok(o) => o,
            Err(e) => return Err(e),
        };
        Ok(((a, b), next))
    }
}

} // verus!
