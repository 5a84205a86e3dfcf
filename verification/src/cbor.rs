//! CBOR data-item heads: their mathematical form, and the calls into `minicbor`
//! that read and write them.
//!
//! The functions marked `external_body` are the only places where the encoder and
//! decoder of `minicbor` are used. Their contracts restate what its source does for
//! one data item; everything above them is proved.

use vstd::prelude::*;
use vstd::utf8::*;

verus! {

/// The number whose big-endian octets are `s`.
pub open spec fn be_value(s: Seq<u8>) -> nat
    decreases s.len(),
{
    if s.len() == 0 {
        0
    } else {
        be_value(s.drop_last()) * 256 + s.last() as nat
    }
}

/// The `width` low-order big-endian octets of `n`.
pub open spec fn be_bytes(n: nat, width: nat) -> Seq<u8>
    decreases width,
{
    if width == 0 {
        Seq::empty()
    } else {
        be_bytes(n / 256, (width - 1) as nat).push((n % 256) as u8)
    }
}

/// `256` to the power `width`.
pub open spec fn octet_range(width: nat) -> nat
    decreases width,
{
    if width == 0 {
        1
    } else {
        256 * octet_range((width - 1) as nat)
    }
}

/// The shortest head of a data item of major type `major` with argument `n`.
pub open spec fn head(major: nat, n: nat) -> Seq<u8> {
    if n < 24 {
        seq![(major * 32 + n) as u8]
    } else if n < 0x100 {
        seq![(major * 32 + 24) as u8] + be_bytes(n, 1)
    } else if n < 0x1_0000 {
        seq![(major * 32 + 25) as u8] + be_bytes(n, 2)
    } else if n < 0x1_0000_0000 {
        seq![(major * 32 + 26) as u8] + be_bytes(n, 4)
    } else {
        seq![(major * 32 + 27) as u8] + be_bytes(n, 8)
    }
}

/// The argument of the head that starts at `p`, whatever its major type and whether
/// or not it is the shortest form, with the position behind the head.
pub open spec fn argument(b: Seq<u8>, p: int) -> Option<(nat, int)> {
    if !(0 <= p < b.len()) {
        None
    } else {
        let info = b[p] as nat % 32;
        if info < 24 {
            Some((info, p + 1))
        } else if info == 24 && p + 2 <= b.len() {
            Some((be_value(b.subrange(p + 1, p + 2)), p + 2))
        } else if info == 25 && p + 3 <= b.len() {
            Some((be_value(b.subrange(p + 1, p + 3)), p + 3))
        } else if info == 26 && p + 5 <= b.len() {
            Some((be_value(b.subrange(p + 1, p + 5)), p + 5))
        } else if info == 27 && p + 9 <= b.len() {
            Some((be_value(b.subrange(p + 1, p + 9)), p + 9))
        } else {
            None
        }
    }
}

/// The major type of the item that starts at `p`.
pub open spec fn major_at(b: Seq<u8>, p: int) -> nat {
    b[p] as nat / 32
}

/// `s` stands in `b` from position `p` on.
pub open spec fn at(b: Seq<u8>, p: int, s: Seq<u8>) -> bool {
    &&& 0 <= p
    &&& p + s.len() <= b.len()
    &&& b.subrange(p, p + s.len()) == s
}

pub proof fn lemma_at_concat(b: Seq<u8>, p: int, x: Seq<u8>, y: Seq<u8>)
    ensures
        at(b, p, x + y) <==> at(b, p, x) && at(b, p + x.len(), y),
{
    if at(b, p, x + y) {
        let s = b.subrange(p, p + (x + y).len());
        assert(s.subrange(0, x.len() as int) =~= x);
        assert(s.subrange(x.len() as int, s.len() as int) =~= y);
        assert(b.subrange(p, p + x.len()) =~= s.subrange(0, x.len() as int));
        assert(b.subrange(p + x.len(), p + x.len() + y.len()) =~= s.subrange(
            x.len() as int,
            s.len() as int,
        ));
    }
    if at(b, p, x) && at(b, p + x.len(), y) {
        assert(b.subrange(p, p + (x + y).len()) =~= b.subrange(p, p + x.len()) + b.subrange(
            p + x.len(),
            p + x.len() + y.len(),
        ));
    }
}

pub proof fn lemma_at_whole(b: Seq<u8>)
    ensures
        at(b, 0, b),
{
    assert(b.subrange(0, b.len() as int) =~= b);
}

pub proof fn lemma_be_bytes(n: nat, width: nat)
    requires
        n < octet_range(width),
    ensures
        be_bytes(n, width).len() == width,
        be_value(be_bytes(n, width)) == n,
    decreases width,
{
    if width > 0 {
        assert(n / 256 < octet_range((width - 1) as nat)) by (nonlinear_arith)
            requires
                n < 256 * octet_range((width - 1) as nat),
        ;
        lemma_be_bytes(n / 256, (width - 1) as nat);
        let s = be_bytes(n, width);
        assert(s.drop_last() =~= be_bytes(n / 256, (width - 1) as nat));
    }
}

pub proof fn lemma_octet_ranges()
    ensures
        octet_range(0) == 1,
        octet_range(1) == 0x100,
        octet_range(2) == 0x1_0000,
        octet_range(4) == 0x1_0000_0000,
        octet_range(8) == 0x1_0000_0000_0000_0000,
{
    reveal_with_fuel(octet_range, 10);
}

/// A shortest head is read back as its major type and argument, wherever it stands.
pub proof fn lemma_head_at(b: Seq<u8>, p: int, major: nat, n: nat)
    requires
        at(b, p, head(major, n)),
        major < 8,
        n <= u64::MAX,
    ensures
        head(major, n).len() > 0,
        head(major, n).len() <= 9,
        p < b.len(),
        b[p] == head(major, n)[0],
        major_at(b, p) == major,
        argument(b, p) == Some((n, p + head(major, n).len())),
        b[p] as nat % 32 != 31,
{
    lemma_octet_ranges();
    let h = head(major, n);
    let s = b.subrange(p, p + h.len());
    assert(s == h);
    if n < 24 {
    } else {
        let width: nat = if n < 0x100 {
            1
        } else if n < 0x1_0000 {
            2
        } else if n < 0x1_0000_0000 {
            4
        } else {
            8
        };
        lemma_be_bytes(n, width);
        assert(h.subrange(1, h.len() as int) =~= be_bytes(n, width));
        assert(b.subrange(p + 1, p + 1 + width) =~= s.subrange(1, s.len() as int));
    }
    assert(s[0] == b[p]);
}

pub proof fn lemma_head(major: nat, n: nat)
    requires
        major < 8,
        n <= u64::MAX,
    ensures
        0 < head(major, n).len() <= 9,
        head(major, n)[0] as nat / 32 == major,
{
    lemma_at_whole(head(major, n));
    lemma_head_at(head(major, n), 0, major, n);
}

/// No head is a proper prefix of another, and a head determines what follows it.
pub proof fn lemma_head_prefix_free(
    m1: nat,
    n1: nat,
    x: Seq<u8>,
    m2: nat,
    n2: nat,
    y: Seq<u8>,
)
    requires
        m1 < 8,
        m2 < 8,
        n1 <= u64::MAX,
        n2 <= u64::MAX,
        head(m1, n1) + x == head(m2, n2) + y,
    ensures
        m1 == m2,
        n1 == n2,
        x == y,
{
    let b = head(m1, n1) + x;
    lemma_at_whole(b);
    lemma_at_concat(b, 0, head(m1, n1), x);
    lemma_at_concat(b, 0, head(m2, n2), y);
    lemma_head_at(b, 0, m1, n1);
    lemma_head_at(b, 0, m2, n2);
    assert(x =~= b.subrange(head(m1, n1).len() as int, b.len() as int));
    assert(y =~= b.subrange(head(m2, n2).len() as int, b.len() as int));
}

/// `minicbor::Encoder::u64` on a `Vec<u8>` writer: appends the shortest head of major
/// type 0. Writing to a `Vec` does not fail.
#[verifier::external_body]
pub(crate) fn put_u64(out: &mut Vec<u8>, n: u64)
    ensures
        final(out)@ == old(out)@ + head(0, n as nat),
{
    minicbor::Encoder::new(out).u64(n).expect("Vec writer");
}

/// `minicbor::Encoder::array` on a `Vec<u8>` writer: appends the shortest head of major
/// type 4 with the element count.
#[verifier::external_body]
pub(crate) fn put_array(out: &mut Vec<u8>, n: u64)
    ensures
        final(out)@ == old(out)@ + head(4, n as nat),
{
    minicbor::Encoder::new(out).array(n).expect("Vec writer");
}

/// `minicbor::Encoder::map` on a `Vec<u8>` writer: appends the shortest head of major
/// type 5 with the number of pairs.
#[verifier::external_body]
pub(crate) fn put_map(out: &mut Vec<u8>, n: u64)
    ensures
        final(out)@ == old(out)@ + head(5, n as nat),
{
    minicbor::Encoder::new(out).map(n).expect("Vec writer");
}

/// `minicbor::Encoder::bytes` on a `Vec<u8>` writer: appends the shortest head of major
/// type 2 with the length, then the octets.
#[verifier::external_body]
pub(crate) fn put_bytes(out: &mut Vec<u8>, s: &[u8])
    ensures
        final(out)@ == old(out)@ + head(2, s@.len()) + s@,
{
    minicbor::Encoder::new(out).bytes(s).expect("Vec writer");
}

/// `minicbor::Encoder::str` on a `Vec<u8>` writer: appends the shortest head of major
/// type 3 with the length in octets, then the UTF-8 octets.
#[verifier::external_body]
pub(crate) fn put_text(out: &mut Vec<u8>, s: &str)
    ensures
        final(out)@ == old(out)@ + head(3, encode_utf8(s@).len()) + encode_utf8(s@),
{
    minicbor::Encoder::new(out).str(s).expect("Vec writer");
}

/// `minicbor::Encoder::bool` on a `Vec<u8>` writer: appends the octet `f4` or `f5`.
#[verifier::external_body]
pub(crate) fn put_bool(out: &mut Vec<u8>, b: bool)
    ensures
        final(out)@ == old(out)@.push(if b { 0xf5u8 } else { 0xf4u8 }),
{
    minicbor::Encoder::new(out).bool(b).expect("Vec writer");
}

/// `minicbor::Encoder::null` on a `Vec<u8>` writer: appends the octet `f6`.
#[verifier::external_body]
pub(crate) fn put_null(out: &mut Vec<u8>)
    ensures
        final(out)@ == old(out)@.push(0xf6u8),
{
    minicbor::Encoder::new(out).null().expect("Vec writer");
}

/// `minicbor::Decoder::u64` at `pos`: yields a value exactly on an item of major type 0 whose
/// argument is whole, and yields the argument and the position behind it.
#[verifier::external_body]
pub(crate) fn get_u64(bytes: &[u8], pos: usize) -> (r: Option<(u64, usize)>)
    ensures
        match r {
            Some(v) => pos < bytes@.len() && major_at(bytes@, pos as int) == 0 && argument(
                bytes@,
                pos as int,
            ) == Some((v.0 as nat, v.1 as int)),
            None => !(pos < bytes@.len() && major_at(bytes@, pos as int) == 0 && argument(
                bytes@,
                pos as int,
            ) is Some),
        },
{
    let mut decoder = minicbor::Decoder::new(bytes);
    decoder.set_position(pos);
    let value = decoder.u64().ok()?;
    Some((value, decoder.position()))
}

/// `minicbor::Decoder::array` at `pos`: yields a value exactly on an item of major type 4 with a
/// whole argument, which it yields, or with indefinite length (`9f`), where it yields `None`.
#[verifier::external_body]
pub(crate) fn get_array(bytes: &[u8], pos: usize) -> (r: Option<(Option<u64>, usize)>)
    ensures
        match r {
            Some(v) => pos < bytes@.len() && major_at(bytes@, pos as int) == 4 && if bytes@[pos as int]
                == 0x9f {
                v.0 is None && v.1 == pos + 1
            } else {
                v.0 is Some && argument(bytes@, pos as int) == Some((v.0->0 as nat, v.1 as int))
            },
            None => !(pos < bytes@.len() && major_at(bytes@, pos as int) == 4 && (bytes@[pos as int]
                == 0x9f || argument(bytes@, pos as int) is Some)),
        },
{
    let mut decoder = minicbor::Decoder::new(bytes);
    decoder.set_position(pos);
    let count = decoder.array().ok()?;
    Some((count, decoder.position()))
}

/// `minicbor::Decoder::map` at `pos`: as for an array, with major type 5 and `bf`.
#[verifier::external_body]
pub(crate) fn get_map(bytes: &[u8], pos: usize) -> (r: Option<(Option<u64>, usize)>)
    ensures
        match r {
            Some(v) => pos < bytes@.len() && major_at(bytes@, pos as int) == 5 && if bytes@[pos as int]
                == 0xbf {
                v.0 is None && v.1 == pos + 1
            } else {
                v.0 is Some && argument(bytes@, pos as int) == Some((v.0->0 as nat, v.1 as int))
            },
            None => !(pos < bytes@.len() && major_at(bytes@, pos as int) == 5 && (bytes@[pos as int]
                == 0xbf || argument(bytes@, pos as int) is Some)),
        },
{
    let mut decoder = minicbor::Decoder::new(bytes);
    decoder.set_position(pos);
    let count = decoder.map().ok()?;
    Some((count, decoder.position()))
}

/// `minicbor::Decoder::bytes` at `pos`: yields a value exactly on a definite-length byte string
/// (major type 2) that lies wholly in the input, and yields its octets.
#[verifier::external_body]
pub(crate) fn get_bytes(bytes: &[u8], pos: usize) -> (r: Option<(&[u8], usize)>)
    ensures
        match r {
            Some(v) => pos < bytes@.len() && major_at(bytes@, pos as int) == 2 && (argument(
                bytes@,
                pos as int,
            ) matches Some(a) && a.1 + a.0 <= bytes@.len() && v.1 == a.1 + a.0 && v.0@
                == bytes@.subrange(a.1, a.1 + a.0)),
            None => !(pos < bytes@.len() && major_at(bytes@, pos as int) == 2 && (argument(
                bytes@,
                pos as int,
            ) matches Some(a) && a.1 + a.0 <= bytes@.len())),
        },
{
    let mut decoder = minicbor::Decoder::new(bytes);
    decoder.set_position(pos);
    let value = decoder.bytes().ok()?;
    Some((value, decoder.position()))
}

/// `minicbor::Decoder::str` at `pos`: yields a value exactly on a definite-length text string
/// (major type 3) that lies wholly in the input and is UTF-8, and yields the text.
#[verifier::external_body]
pub(crate) fn get_text(bytes: &[u8], pos: usize) -> (r: Option<(&str, usize)>)
    ensures
        match r {
            Some(v) => pos < bytes@.len() && major_at(bytes@, pos as int) == 3 && (argument(
                bytes@,
                pos as int,
            ) matches Some(a) && a.1 + a.0 <= bytes@.len() && v.1 == a.1 + a.0 && encode_utf8(v.0@)
                == bytes@.subrange(a.1, a.1 + a.0)),
            None => !(pos < bytes@.len() && major_at(bytes@, pos as int) == 3 && (argument(
                bytes@,
                pos as int,
            ) matches Some(a) && a.1 + a.0 <= bytes@.len() && valid_utf8(
                bytes@.subrange(a.1, a.1 + a.0),
            ))),
        },
{
    let mut decoder = minicbor::Decoder::new(bytes);
    decoder.set_position(pos);
    let value = decoder.str().ok()?;
    Some((value, decoder.position()))
}

/// `minicbor::Decoder::bool` at `pos`: yields a value exactly on `f4` (false) and `f5` (true).
#[verifier::external_body]
pub(crate) fn get_bool(bytes: &[u8], pos: usize) -> (r: Option<(bool, usize)>)
    ensures
        match r {
            Some(v) => pos < bytes@.len() && bytes@[pos as int] == (if v.0 {
                0xf5u8
            } else {
                0xf4u8
            }) && v.1 == pos + 1,
            None => !(pos < bytes@.len() && (bytes@[pos as int] == 0xf4 || bytes@[pos as int] == 0xf5)),
        },
{
    let mut decoder = minicbor::Decoder::new(bytes);
    decoder.set_position(pos);
    let value = decoder.bool().ok()?;
    Some((value, decoder.position()))
}

/// `minicbor::Decoder::null` at `pos`: yields a value exactly on `f6`.
#[verifier::external_body]
pub(crate) fn get_null(bytes: &[u8], pos: usize) -> (r: Option<usize>)
    ensures
        match r {
            Some(v) => pos < bytes@.len() && bytes@[pos as int] == 0xf6 && v == pos + 1,
            None => !(pos < bytes@.len() && bytes@[pos as int] == 0xf6),
        },
{
    let mut decoder = minicbor::Decoder::new(bytes);
    decoder.set_position(pos);
    decoder.null().ok()?;
    Some(decoder.position())
}

/// `minicbor::Decoder::datatype` at `pos`, compared with its `Null` variant: yields nothing at the end
/// of the input and on a lone head `38`..`3b` with nothing behind it.
#[verifier::external_body]
pub(crate) fn null_ahead(bytes: &[u8], pos: usize) -> (r: Option<bool>)
    ensures
        match r {
            Some(v) => pos < bytes@.len() && v == (bytes@[pos as int] == 0xf6) && !(0x38
                <= bytes@[pos as int] <= 0x3b && pos + 1 >= bytes@.len()),
            None => pos >= bytes@.len() || (0x38 <= bytes@[pos as int] <= 0x3b && pos + 1
                >= bytes@.len()),
        },
{
    let mut decoder = minicbor::Decoder::new(bytes);
    decoder.set_position(pos);
    Some(decoder.datatype().ok()? == minicbor::data::Type::Null)
}

} // verus!
