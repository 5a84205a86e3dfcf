//! Client-produced, sealed work sets. Producer identifiers are labels, not credentials.

use crate::cbor::{
    self, get_array, get_bytes, get_map, get_text, get_u64, put_array, put_bytes, put_map, put_text,
    put_u64,
};
use crate::hashing::{self, hash_finish, hash_start, hash_update, Hasher};
use crate::text::push_all;
use crate::v2::client::storage::push_be;
use crate::v2::labels::{self, read_text};
use crate::v2::messages;
use crate::v2::wire::{self, same_octets};
use vstd::prelude::*;
use vstd::utf8::*;

verus! {

pub const EXTENSION_SEALED_WORK_SETS: u16 = 0xff01;

pub const FRAME_WORK_SET: u8 = 0x83;

/// The frame acknowledges a declaration.
pub const ACK: u8 = 1;

/// The frame completes the declarations of its scope.
pub const SEAL: u8 = 2;

pub const MAX_BATCH: usize = 256;

pub const MAX_SESSION_DECLARATIONS: usize = 1_000_000;

/// What kind of rule was broken.
#[derive(Debug, Clone, Copy, PartialEq, Eq, Structural)]
pub enum ProtocolCode {
    Frame,
    Entity,
    Limit,
    Integrity,
}

#[derive(Debug, Clone, Copy, PartialEq, Eq)]
pub struct ProtocolError {
    pub code: ProtocolCode,
    pub detail: &'static str,
}

fn refuse(code: ProtocolCode, detail: &'static str) -> (r: ProtocolError)
    ensures
        r.code == code,
        r.detail == detail,
{
    ProtocolError { code, detail }
}

/// The code of a refusal, where there is one.
pub open spec fn code_of(refused: Option<ProtocolError>) -> Option<ProtocolCode> {
    match refused {
        Some(e) => Some(e.code),
        None => None,
    }
}

/// The identity of one entity in its session.
#[derive(Debug, Clone, Copy, PartialEq, Eq, Structural)]
pub struct EntityKey {
    pub scope_id: u32,
    pub entity_id: u32,
}

#[derive(Debug, Clone, PartialEq, Eq)]
pub struct WorkSetFrame {
    pub session_id: String,
    pub producer_id: [u8; 16],
    pub scope_id: u32,
    pub parent: Option<EntityKey>,
    pub sequence: u64,
    pub entity_ids: Vec<u32>,
    pub flags: u8,
    pub seal_digest: Option<[u8; 32]>,
}

pub open spec fn is_zero(s: Seq<u8>) -> bool {
    forall|i: int| 0 <= i < s.len() ==> #[trigger] s[i] == 0
}

pub open spec fn ascending(ids: Seq<u32>) -> bool {
    forall|i: int, j: int| 0 <= i < j < ids.len() ==> #[trigger] ids[i] < #[trigger] ids[j]
}

pub open spec fn acks(flags: u8) -> bool {
    flags % 2 == 1
}

pub open spec fn seals(flags: u8) -> bool {
    flags / 2 % 2 == 1
}

impl WorkSetFrame {
    /// The fields are in range and fit together, where entities are numbered up to `highest`.
    pub open spec fn valid(self, highest: u32) -> bool {
        &&& !is_zero(self.producer_id@)
        &&& self.flags <= 3
        &&& seals(self.flags) == (self.seal_digest is Some)
        &&& self.entity_ids@.len() <= MAX_BATCH
        &&& forall|i: int|
            0 <= i < self.entity_ids@.len() ==> 0 < #[trigger] self.entity_ids@[i] <= highest
        &&& ascending(self.entity_ids@)
        &&& self.entity_ids@.len() > 0 || seals(self.flags)
        &&& (self.scope_id == 0) == (self.parent is None)
        &&& self.parent matches Some(parent) ==> 0 < parent.entity_id <= highest
    }

    /// Two frames hold the same contents.
    pub open spec fn agrees(self, other: WorkSetFrame) -> bool {
        &&& self.session_id@ == other.session_id@
        &&& self.producer_id@ == other.producer_id@
        &&& self.scope_id == other.scope_id
        &&& self.parent == other.parent
        &&& self.sequence == other.sequence
        &&& self.entity_ids@ == other.entity_ids@
        &&& self.flags == other.flags
        &&& self.seal_digest is Some == other.seal_digest is Some
        &&& self.seal_digest is Some ==> self.seal_digest->0@ == other.seal_digest->0@
    }

    /// Why the frame is not one, if it is not. `unnamed` says why its session identifier is none, where
    /// it is none.
    pub open spec fn fault(self, highest: u32, unnamed: Option<ProtocolCode>) -> Option<ProtocolCode> {
        if unnamed is Some {
            unnamed
        } else if !self.valid(highest) {
            Some(ProtocolCode::Frame)
        } else {
            None
        }
    }

    pub fn validate(&self, highest: u32, unnamed: Option<ProtocolError>) -> (r: Result<
        (),
        ProtocolError,
    >)
        ensures
            match r {
                Ok(_) => self.fault(highest, code_of(unnamed)) is None,
                Err(e) => {
                    &&& self.fault(highest, code_of(unnamed)) == Some(e.code)
                    &&& if unnamed is Some {
                        e == unnamed->0
                    } else {
                        e.detail@ == "invalid WORK_SET fields"@
                    }
                },
            },
    {
        if let Some(e) = unnamed {
            return Err(e);
        }
        let parent = match &self.parent {
            Some(parent) => parent.entity_id != 0 && parent.entity_id <= highest,
            None => true,
        };
        let seal = (self.flags / 2) % 2 == 1;
        if all_zero(&self.producer_id) || self.flags > 3 || seal != self.seal_digest.is_some()
            || self.entity_ids.len() > MAX_BATCH || !ids_in_range(&self.entity_ids, highest)
            || !ids_ascend(&self.entity_ids) || (self.entity_ids.len() == 0 && !seal) || (
        self.scope_id == 0) != self.parent.is_none() || !parent {
            return Err(refuse(ProtocolCode::Frame, "invalid WORK_SET fields"));
        }
        Ok(())
    }
}

fn all_zero(s: &[u8]) -> (r: bool)
    ensures
        r == is_zero(s@),
{
    let mut i: usize = 0;
    while i < s.len()
        invariant
            i <= s@.len(),
            forall|j: int| 0 <= j < i ==> #[trigger] s@[j] == 0,
        decreases s@.len() - i,
    {
        if s[i] != 0 {
            return false;
        }
        i += 1;
    }
    true
}

fn ids_in_range(ids: &Vec<u32>, highest: u32) -> (r: bool)
    ensures
        r == forall|i: int| 0 <= i < ids@.len() ==> 0 < #[trigger] ids@[i] <= highest,
{
    let mut i: usize = 0;
    while i < ids.len()
        invariant
            i <= ids@.len(),
            forall|j: int| 0 <= j < i ==> 0 < #[trigger] ids@[j] <= highest,
        decreases ids@.len() - i,
    {
        if ids[i] == 0 || ids[i] > highest {
            assert(!(0 < ids@[i as int] <= highest));
            return false;
        }
        i += 1;
    }
    true
}

fn ids_ascend(ids: &Vec<u32>) -> (r: bool)
    ensures
        r == ascending(ids@),
{
    let mut i: usize = 0;
    while i < ids.len()
        invariant
            i <= ids@.len(),
            forall|j: int, k: int| 0 <= j < k < i ==> #[trigger] ids@[j] < #[trigger] ids@[k],
        decreases ids@.len() - i,
    {
        if i > 0 && ids[i - 1] >= ids[i] {
            assert(!(ids@[i - 1] < ids@[i as int]));
            return false;
        }
        proof {
            assert forall|j: int, k: int| 0 <= j < k < i + 1 implies #[trigger] ids@[j]
                < #[trigger] ids@[k] by {
                if k == i && j < i - 1 {
                    assert(ids@[j] < ids@[i - 1]);
                }
            }
        }
        i += 1;
    }
    true
}

/// The encoding of a list of numbers.
pub open spec fn ids_wire(ids: Seq<u32>) -> Seq<u8>
    decreases ids.len(),
{
    if ids.len() == 0 {
        Seq::empty()
    } else {
        ids_wire(ids.drop_last()) + cbor::head(0, ids.last() as nat)
    }
}

/// One named number.
pub open spec fn numbered(name: Seq<char>, n: nat) -> Seq<u8> {
    wire::text_wire(name) + cbor::head(0, n)
}

impl WorkSetFrame {
    /// The number of members of the encoded map.
    pub open spec fn members(self) -> nat {
        6 + (if self.parent is Some {
            2nat
        } else {
            0nat
        }) + (if self.seal_digest is Some {
            1nat
        } else {
            0nat
        })
    }

    pub open spec fn parent_scope_part(self) -> Seq<u8> {
        match self.parent {
            Some(parent) => numbered("parent-scope-id"@, parent.scope_id as nat),
            None => Seq::empty(),
        }
    }

    pub open spec fn seal_part(self) -> Seq<u8> {
        match self.seal_digest {
            Some(digest) => wire::text_wire("seal-digest"@) + wire::bytes_wire(digest@),
            None => Seq::empty(),
        }
    }

    pub open spec fn parent_part(self) -> Seq<u8> {
        match self.parent {
            Some(parent) => numbered("parent-id"@, parent.entity_id as nat),
            None => Seq::empty(),
        }
    }

    pub open spec fn ids_part(self) -> Seq<u8> {
        wire::text_wire("entity-ids"@) + (cbor::head(4, self.entity_ids@.len()) + ids_wire(
            self.entity_ids@,
        ))
    }

    pub open spec fn session_part(self) -> Seq<u8> {
        wire::text_wire("session-id"@) + wire::text_wire(self.session_id@)
    }

    pub open spec fn producer_part(self) -> Seq<u8> {
        wire::text_wire("producer-id"@) + wire::bytes_wire(self.producer_id@)
    }

    /// What follows the entities.
    pub open spec fn back(self) -> Seq<u8> {
        self.session_part() + (self.producer_part() + (self.seal_part() + self.parent_scope_part()))
    }

    /// What stands before the entities.
    pub open spec fn front(self) -> Seq<u8> {
        numbered("flags"@, self.flags as nat) + (numbered("scope-id"@, self.scope_id as nat) + (
        numbered("sequence"@, self.sequence as nat) + self.parent_part()))
    }

    /// The deterministic encoding: a map whose names stand in the order of their length, then of
    /// their octets.
    pub open spec fn body(self) -> Seq<u8> {
        cbor::head(5, self.members()) + (self.front() + (self.ids_part() + self.back()))
    }
}

fn put_number(out: &mut Vec<u8>, name: &str, n: u64)
    ensures
        final(out)@ == old(out)@ + numbered(name@, n as nat),
{
    put_text(out, name);
    put_u64(out, n);
    assert(out@ =~= old(out)@ + numbered(name@, n as nat));
}

fn put_ids(out: &mut Vec<u8>, ids: &Vec<u32>)
    ensures
        final(out)@ == old(out)@ + ids_wire(ids@),
{
    let mut i: usize = 0;
    assert(ids@.take(0) =~= Seq::empty());
    assert(out@ =~= old(out)@ + ids_wire(ids@.take(0)));
    while i < ids.len()
        invariant
            i <= ids@.len(),
            out@ == old(out)@ + ids_wire(ids@.take(i as int)),
        decreases ids@.len() - i,
    {
        put_u64(out, ids[i] as u64);
        proof {
            assert(ids@.take(i + 1).drop_last() =~= ids@.take(i as int));
            assert(ids@.take(i + 1).last() == ids@[i as int]);
            assert(out@ =~= old(out)@ + ids_wire(ids@.take(i + 1)));
        }
        i += 1;
    }
    assert(ids@.take(i as int) =~= ids@);
}

fn put_front(out: &mut Vec<u8>, frame: &WorkSetFrame)
    ensures
        final(out)@ == old(out)@ + frame.front(),
{
    put_number(out, "flags", frame.flags as u64);
    put_number(out, "scope-id", frame.scope_id as u64);
    put_number(out, "sequence", frame.sequence);
    match &frame.parent {
        Some(parent) => {
            put_number(out, "parent-id", parent.entity_id as u64);
        },
        None => {},
    }
    assert(out@ =~= old(out)@ + frame.front());
}

fn put_labels(out: &mut Vec<u8>, frame: &WorkSetFrame)
    ensures
        final(out)@ == old(out)@ + (frame.session_part() + frame.producer_part()),
{
    put_text(out, "session-id");
    put_text(out, frame.session_id.as_str());
    assert(out@ =~= old(out)@ + frame.session_part());
    put_text(out, "producer-id");
    put_bytes(out, &frame.producer_id);
    assert(out@ =~= old(out)@ + (frame.session_part() + frame.producer_part()));
}

fn put_seal(out: &mut Vec<u8>, frame: &WorkSetFrame)
    ensures
        final(out)@ == old(out)@ + frame.seal_part(),
{
    match &frame.seal_digest {
        Some(digest) => {
            put_text(out, "seal-digest");
            put_bytes(out, digest);
        },
        None => {},
    }
    assert(out@ =~= old(out)@ + frame.seal_part());
}

fn put_back(out: &mut Vec<u8>, frame: &WorkSetFrame)
    ensures
        final(out)@ == old(out)@ + frame.back(),
{
    let ghost a = frame.session_part();
    let ghost b = frame.producer_part();
    let ghost c = frame.seal_part();
    let ghost d = frame.parent_scope_part();
    put_labels(out, frame);
    put_seal(out, frame);
    let ghost sealed = out@;
    match &frame.parent {
        Some(parent) => {
            put_number(out, "parent-scope-id", parent.scope_id as u64);
        },
        None => {},
    }
    assert(out@ =~= sealed + d);
    assert(((old(out)@ + (a + b)) + c) + d =~= old(out)@ + (a + (b + (c + d))));
}

proof fn lemma_assoc(a: Seq<u8>, b: Seq<u8>, c: Seq<u8>, d: Seq<u8>)
    ensures
        ((a + b) + c) + d == a + (b + (c + d)),
        (a + b) + (c + d) == a + (b + (c + d)),
{
    assert(((a + b) + c) + d =~= a + (b + (c + d)));
    assert((a + b) + (c + d) =~= a + (b + (c + d)));
}

fn encode_body(frame: &WorkSetFrame) -> (r: Vec<u8>)
    ensures
        r@ == frame.body(),
{
    let mut out: Vec<u8> = Vec::new();
    let parents: u64 = if frame.parent.is_some() {
        2
    } else {
        0
    };
    let seals: u64 = if frame.seal_digest.is_some() {
        1
    } else {
        0
    };
    put_map(&mut out, 6 + parents + seals);
    assert(out@ =~= cbor::head(5, frame.members()));
    put_front(&mut out, frame);
    let ghost before = out@;
    put_text(&mut out, "entity-ids");
    put_array(&mut out, frame.entity_ids.len() as u64);
    put_ids(&mut out, &frame.entity_ids);
    assert(out@ =~= before + frame.ids_part());
    put_back(&mut out, frame);
    proof {
        lemma_assoc(
            cbor::head(5, frame.members()),
            frame.front(),
            frame.ids_part(),
            frame.back(),
        );
    }
    out
}

/// Why a frame is not encoded, if it is not.
pub open spec fn encode_fault(
    frame: WorkSetFrame,
    highest: u32,
    unnamed: Option<ProtocolCode>,
) -> Option<ProtocolCode> {
    if frame.fault(highest, unnamed) is Some {
        frame.fault(highest, unnamed)
    } else if frame.body().len() > u32::MAX {
        Some(ProtocolCode::Frame)
    } else {
        None
    }
}

/// Encodes a valid frame: its type, the length of its body in four octets, and the body.
pub fn encode(frame: &WorkSetFrame, highest: u32, unnamed: Option<ProtocolError>) -> (r: Result<
    Vec<u8>,
    ProtocolError,
>)
    ensures
        match r {
            Ok(b) => encode_fault(*frame, highest, code_of(unnamed)) is None && b@
                == messages::framed(FRAME_WORK_SET, frame.body()),
            Err(e) => encode_fault(*frame, highest, code_of(unnamed)) == Some(e.code),
        },
{
    frame.validate(highest, unnamed)?;
    let body = encode_body(frame);
    if body.len() as u64 > 0xffff_ffff {
        return Err(refuse(ProtocolCode::Frame, "WORK_SET body exceeds its length field"));
    }
    let mut out: Vec<u8> = Vec::new();
    out.push(FRAME_WORK_SET);
    push_be(&mut out, body.len() as u64, 4);
    push_all(&mut out, body.as_slice());
    assert(out@ =~= messages::framed(FRAME_WORK_SET, frame.body()));
    Ok(out)
}

fn take_name(bytes: &[u8], pos: usize, name: &str) -> (r: Option<usize>)
    ensures
        r matches Some(next) ==> pos <= next <= bytes@.len(),
        cbor::at(bytes@, pos as int, wire::text_wire(name@)) ==> (r matches Some(next) && next == pos
            + wire::text_wire(name@).len()),
{
    let wanted = name.as_bytes();
    assert(wanted@.len() == wanted.len());
    match read_text(bytes, pos) {
        Ok((found, next)) => if same_octets(found.as_bytes(), wanted) {
            Some(next)
        } else {
            None
        },
        Err(_) => None,
    }
}

fn take_number(bytes: &[u8], pos: usize, Ghost(n): Ghost<nat>) -> (r: Option<(u64, usize)>)
    ensures
        r matches Some(v) ==> pos <= v.1 <= bytes@.len(),
        n <= u64::MAX && cbor::at(bytes@, pos as int, cbor::head(0, n)) ==> (r matches Some(v) && v.0
            == n && v.1 == pos + cbor::head(0, n).len()),
{
    proof {
        if n <= u64::MAX && cbor::at(bytes@, pos as int, cbor::head(0, n)) {
            cbor::lemma_head_at(bytes@, pos as int, 0, n);
        }
    }
    get_u64(bytes, pos)
}

fn take_named(bytes: &[u8], pos: usize, name: &str, Ghost(n): Ghost<nat>) -> (r: Option<
    (u64, usize),
>)
    ensures
        r matches Some(v) ==> pos <= v.1 <= bytes@.len(),
        n <= u64::MAX && cbor::at(bytes@, pos as int, numbered(name@, n)) ==> (r matches Some(v)
            && v.0 == n && v.1 == pos + numbered(name@, n).len()),
{
    proof {
        cbor::lemma_at_concat(bytes@, pos as int, wire::text_wire(name@), cbor::head(0, n));
    }
    match take_name(bytes, pos, name) {
        Some(next) => take_number(bytes, next, Ghost(n)),
        None => None,
    }
}

/// What stands before the entities, as it was read.
struct Front {
    flags: u8,
    scope_id: u32,
    sequence: u64,
    parent_id: u32,
}

fn narrow(n: u64) -> (r: Option<u32>)
    ensures
        match r {
            Some(v) => v == n,
            None => n > u32::MAX,
        },
{
    if n > 0xffff_ffff {
        None
    } else {
        Some(n as u32)
    }
}

fn take_front(bytes: &[u8], pos: usize, parent: bool, Ghost(w): Ghost<WorkSetFrame>) -> (r: Option<
    (Front, usize),
>)
    ensures
        r matches Some(v) ==> pos <= v.1 <= bytes@.len(),
        (w.parent is Some) == parent && cbor::at(bytes@, pos as int, w.front()) ==> {
            &&& r matches Some(v)
            &&& v.0.flags == w.flags
            &&& v.0.scope_id == w.scope_id
            &&& v.0.sequence == w.sequence
            &&& parent ==> v.0.parent_id == w.parent->0.entity_id
            &&& v.1 == pos + w.front().len()
        },
{
    let ghost a = numbered("flags"@, w.flags as nat);
    let ghost b = numbered("scope-id"@, w.scope_id as nat);
    let ghost c = numbered("sequence"@, w.sequence as nat);
    let ghost d = w.parent_part();
    proof {
        cbor::lemma_at_concat(bytes@, pos as int, a, b + (c + d));
        cbor::lemma_at_concat(bytes@, pos + a.len(), b, c + d);
        cbor::lemma_at_concat(bytes@, pos + a.len() + b.len(), c, d);
    }
    let (flags, p1) = match take_named(bytes, pos, "flags", Ghost(w.flags as nat)) {
        Some(v) => v,
        None => {
            return None;
        },
    };
    let (scope, p2) = match take_named(bytes, p1, "scope-id", Ghost(w.scope_id as nat)) {
        Some(v) => v,
        None => {
            return None;
        },
    };
    let (sequence, p3) = match take_named(bytes, p2, "sequence", Ghost(w.sequence as nat)) {
        Some(v) => v,
        None => {
            return None;
        },
    };
    let (parent_id, p4) = if parent {
        match take_named(bytes, p3, "parent-id", Ghost(w.parent->0.entity_id as nat)) {
            Some(v) => v,
            None => {
                return None;
            },
        }
    } else {
        (0, p3)
    };
    if flags > 255 {
        return None;
    }
    match (narrow(scope), narrow(parent_id)) {
        (Some(scope_id), Some(parent_id)) => Some(
            (Front { flags: flags as u8, scope_id, sequence, parent_id }, p4),
        ),
        _ => None,
    }
}

/// The first numbers of a list stand before the others.
proof fn lemma_ids_at(b: Seq<u8>, p: int, ids: Seq<u32>, i: int)
    requires
        cbor::at(b, p, ids_wire(ids)),
        0 <= i <= ids.len(),
    ensures
        cbor::at(b, p, ids_wire(ids.take(i))),
        i < ids.len() ==> cbor::at(
            b,
            p + ids_wire(ids.take(i)).len(),
            cbor::head(0, ids[i] as nat),
        ) && ids_wire(ids.take(i + 1)).len() == ids_wire(ids.take(i)).len() + cbor::head(
            0,
            ids[i] as nat,
        ).len(),
    decreases ids.len(),
{
    if i == ids.len() {
        assert(ids.take(i) =~= ids);
    } else {
        let front = ids.drop_last();
        cbor::lemma_at_concat(b, p, ids_wire(front), cbor::head(0, ids.last() as nat));
        if i == ids.len() - 1 {
            assert(ids.take(i) =~= front);
            assert(ids.take(i + 1) =~= ids);
        } else {
            lemma_ids_at(b, p, front, i);
            assert(front.take(i) =~= ids.take(i));
            assert(front.take(i + 1) =~= ids.take(i + 1));
        }
    }
}

fn take_ids(bytes: &[u8], pos: usize, Ghost(w): Ghost<WorkSetFrame>) -> (r: Option<
    (Vec<u32>, usize),
>)
    ensures
        r matches Some(v) ==> pos <= v.1 <= bytes@.len(),
        w.entity_ids@.len() <= MAX_BATCH && cbor::at(bytes@, pos as int, w.ids_part()) ==> (
        r matches Some(v) && v.0@ == w.entity_ids@ && v.1 == pos + w.ids_part().len()),
{
    let ghost ids = w.entity_ids@;
    let ghost h = cbor::head(4, ids.len());
    let ghost t = wire::text_wire("entity-ids"@);
    let ghost wanted = ids.len() <= MAX_BATCH && cbor::at(bytes@, pos as int, w.ids_part());
    proof {
        cbor::lemma_at_concat(bytes@, pos as int, t, h + ids_wire(ids));
        cbor::lemma_at_concat(bytes@, pos + t.len(), h, ids_wire(ids));
        if wanted {
            cbor::lemma_head_at(bytes@, pos + t.len(), 4, ids.len());
        }
    }
    let p1 = match take_name(bytes, pos, "entity-ids") {
        Some(next) => next,
        None => {
            return None;
        },
    };
    let (count, start) = match get_array(bytes, p1) {
        Some((Some(count), start)) => (count, start),
        _ => {
            return None;
        },
    };
    if count > MAX_BATCH as u64 {
        return None;
    }
    let mut out: Vec<u32> = Vec::new();
    let mut at = start;
    let mut i: u64 = 0;
    assert(ids.take(0) =~= Seq::empty());
    while i < count
        invariant
            i <= count <= MAX_BATCH,
            pos <= at <= bytes@.len(),
            out@.len() == i,
            ids == w.entity_ids@,
            wanted == (ids.len() <= MAX_BATCH && cbor::at(bytes@, pos as int, w.ids_part())),
            wanted ==> {
                &&& count == ids.len()
                &&& cbor::at(bytes@, start as int, ids_wire(ids))
                &&& at == start + ids_wire(ids.take(i as int)).len()
                &&& out@ == ids.take(i as int)
            },
        decreases count - i,
    {
        let ghost n = if wanted {
            ids[i as int] as nat
        } else {
            0nat
        };
        proof {
            if wanted {
                lemma_ids_at(bytes@, start as int, ids, i as int);
            }
        }
        let (value, next) = match take_number(bytes, at, Ghost(n)) {
            Some(v) => v,
            None => {
                return None;
            },
        };
        match narrow(value) {
            Some(id) => {
                out.push(id);
            },
            None => {
                return None;
            },
        }
        at = next;
        i += 1;
        assert(wanted ==> out@ =~= ids.take(i as int));
    }
    assert(wanted ==> ids.take(i as int) =~= ids);
    Some((out, at))
}

fn take_octets16(bytes: &[u8], pos: usize, Ghost(s): Ghost<Seq<u8>>) -> (r: Option<([u8; 16], usize)>)
    ensures
        r matches Some(v) ==> pos <= v.1 <= bytes@.len(),
        s.len() == 16 && cbor::at(bytes@, pos as int, wire::bytes_wire(s)) ==> (r matches Some(v)
            && v.0@ == s && v.1 == pos + wire::bytes_wire(s).len()),
{
    proof {
        if s.len() == 16 && cbor::at(bytes@, pos as int, wire::bytes_wire(s)) {
            labels::lemma_bytes_at(bytes@, pos as int, s);
        }
    }
    let (found, next) = match get_bytes(bytes, pos) {
        Some(v) => v,
        None => {
            return None;
        },
    };
    if found.len() != 16 {
        return None;
    }
    let mut out: [u8; 16] = [0u8; 16];
    let mut i: usize = 0;
    while i < 16
        invariant
            i <= 16,
            found@.len() == 16,
            out@.len() == 16,
            forall|j: int| 0 <= j < i ==> out@[j] == found@[j],
        decreases 16 - i,
    {
        out.set(i, found[i]);
        i += 1;
    }
    assert(out@ =~= found@);
    Some((out, next))
}

fn take_octets32(bytes: &[u8], pos: usize, Ghost(s): Ghost<Seq<u8>>) -> (r: Option<([u8; 32], usize)>)
    ensures
        r matches Some(v) ==> pos <= v.1 <= bytes@.len(),
        s.len() == 32 && cbor::at(bytes@, pos as int, wire::bytes_wire(s)) ==> (r matches Some(v)
            && v.0@ == s && v.1 == pos + wire::bytes_wire(s).len()),
{
    proof {
        if s.len() == 32 && cbor::at(bytes@, pos as int, wire::bytes_wire(s)) {
            labels::lemma_bytes_at(bytes@, pos as int, s);
        }
    }
    let (found, next) = match get_bytes(bytes, pos) {
        Some(v) => v,
        None => {
            return None;
        },
    };
    if found.len() != 32 {
        return None;
    }
    let mut out: [u8; 32] = [0u8; 32];
    let mut i: usize = 0;
    while i < 32
        invariant
            i <= 32,
            found@.len() == 32,
            out@.len() == 32,
            forall|j: int| 0 <= j < i ==> out@[j] == found@[j],
        decreases 32 - i,
    {
        out.set(i, found[i]);
        i += 1;
    }
    assert(out@ =~= found@);
    Some((out, next))
}

/// What follows the entities, as it was read.
struct Back {
    session_id: String,
    producer_id: [u8; 16],
    seal_digest: Option<[u8; 32]>,
    parent_scope: u32,
}

fn take_seal(bytes: &[u8], pos: usize, sealed: bool, Ghost(w): Ghost<WorkSetFrame>) -> (r: Option<
    (Option<[u8; 32]>, usize),
>)
    ensures
        r matches Some(v) ==> pos <= v.1 <= bytes@.len() || !sealed && v.1 == pos,
        r matches Some(v) ==> v.0 is Some == sealed,
        (w.seal_digest is Some) == sealed && cbor::at(bytes@, pos as int, w.seal_part()) ==> {
            &&& r matches Some(v)
            &&& sealed ==> v.0->0@ == w.seal_digest->0@
            &&& v.1 == pos + w.seal_part().len()
        },
{
    if !sealed {
        return Some((None, pos));
    }
    let ghost d = w.seal_digest->0@;
    proof {
        cbor::lemma_at_concat(
            bytes@,
            pos as int,
            wire::text_wire("seal-digest"@),
            wire::bytes_wire(d),
        );
    }
    let next = match take_name(bytes, pos, "seal-digest") {
        Some(next) => next,
        None => {
            return None;
        },
    };
    match take_octets32(bytes, next, Ghost(d)) {
        Some((digest, end)) => Some((Some(digest), end)),
        None => None,
    }
}

fn take_labels(bytes: &[u8], pos: usize, Ghost(w): Ghost<WorkSetFrame>) -> (r: Option<
    (String, [u8; 16], usize),
>)
    ensures
        r matches Some(v) ==> pos <= v.2 <= bytes@.len(),
        encode_utf8(w.session_id@).len() <= u64::MAX && cbor::at(
            bytes@,
            pos as int,
            w.session_part() + w.producer_part(),
        ) ==> {
            &&& r matches Some(v)
            &&& v.0@ == w.session_id@
            &&& v.1@ == w.producer_id@
            &&& v.2 == pos + (w.session_part() + w.producer_part()).len()
        },
{
    let ghost a = wire::text_wire("session-id"@);
    let ghost b = wire::text_wire(w.session_id@);
    let ghost c = wire::text_wire("producer-id"@);
    let ghost d = wire::bytes_wire(w.producer_id@);
    proof {
        cbor::lemma_at_concat(bytes@, pos as int, w.session_part(), w.producer_part());
        cbor::lemma_at_concat(bytes@, pos as int, a, b);
        cbor::lemma_at_concat(bytes@, pos + w.session_part().len(), c, d);
    }
    let p1 = match take_name(bytes, pos, "session-id") {
        Some(next) => next,
        None => {
            return None;
        },
    };
    let (session, p2) = match read_text(bytes, p1) {
        Ok(v) => v,
        Err(_) => {
            return None;
        },
    };
    let p3 = match take_name(bytes, p2, "producer-id") {
        Some(next) => next,
        None => {
            return None;
        },
    };
    let (producer_id, p4) = match take_octets16(bytes, p3, Ghost(w.producer_id@)) {
        Some(v) => v,
        None => {
            return None;
        },
    };
    Some((session.to_owned(), producer_id, p4))
}

fn take_back(
    bytes: &[u8],
    pos: usize,
    parent: bool,
    sealed: bool,
    Ghost(w): Ghost<WorkSetFrame>,
) -> (r: Option<(Back, usize)>)
    ensures
        r matches Some(v) ==> v.0.seal_digest is Some == sealed,
        (w.parent is Some) == parent && (w.seal_digest is Some) == sealed && encode_utf8(
            w.session_id@,
        ).len() <= u64::MAX && cbor::at(bytes@, pos as int, w.back()) ==> {
            &&& r matches Some(v)
            &&& v.0.session_id@ == w.session_id@
            &&& v.0.producer_id@ == w.producer_id@
            &&& sealed ==> v.0.seal_digest->0@ == w.seal_digest->0@
            &&& parent ==> v.0.parent_scope == w.parent->0.scope_id
            &&& v.1 == pos + w.back().len()
        },
{
    let ghost a = w.session_part();
    let ghost b = w.producer_part();
    let ghost c = w.seal_part();
    let ghost d = w.parent_scope_part();
    proof {
        assert(w.back() =~= (a + b) + (c + d));
        cbor::lemma_at_concat(bytes@, pos as int, a + b, c + d);
        cbor::lemma_at_concat(bytes@, pos + (a + b).len(), c, d);
    }
    let (session_id, producer_id, p1) = match take_labels(bytes, pos, Ghost(w)) {
        Some(v) => v,
        None => {
            return None;
        },
    };
    let (seal_digest, p2) = match take_seal(bytes, p1, sealed, Ghost(w)) {
        Some(v) => v,
        None => {
            return None;
        },
    };
    let (scope, p3) = if parent {
        match take_named(bytes, p2, "parent-scope-id", Ghost(w.parent->0.scope_id as nat)) {
            Some(v) => v,
            None => {
                return None;
            },
        }
    } else {
        (0, p2)
    };
    match narrow(scope) {
        Some(parent_scope) => Some(
            (Back { session_id, producer_id, seal_digest, parent_scope }, p3),
        ),
        None => None,
    }
}

/// The octets are the body of the frame, whatever its fields hold.
pub open spec fn holds(f: WorkSetFrame, bytes: Seq<u8>) -> bool {
    f.entity_ids@.len() <= MAX_BATCH && f.body() == bytes
}

/// The octets are the body of the valid frame.
pub open spec fn encodes(f: WorkSetFrame, bytes: Seq<u8>, highest: u32) -> bool {
    f.valid(highest) && f.body() == bytes
}

/// Reads a frame in the order in which the names stand.
fn read_frame(bytes: &[u8], Ghost(w): Ghost<WorkSetFrame>) -> (r: Option<WorkSetFrame>)
    ensures
        w.entity_ids@.len() <= MAX_BATCH && w.body() == bytes@ ==> (r matches Some(f) && f.agrees(w)),
{
    let ghost wanted = w.entity_ids@.len() <= MAX_BATCH && w.body() == bytes@;
    let ghost h = cbor::head(5, w.members());
    proof {
        cbor::lemma_at_whole(bytes@);
        cbor::lemma_at_concat(bytes@, 0, h, w.front() + (w.ids_part() + w.back()));
        cbor::lemma_at_concat(bytes@, h.len() as int, w.front(), w.ids_part() + w.back());
        cbor::lemma_at_concat(
            bytes@,
            (h.len() + w.front().len()) as int,
            w.ids_part(),
            w.back(),
        );
        if wanted {
            cbor::lemma_head_at(bytes@, 0, 5, w.members());
            lemma_session_fits(w, bytes@);
        }
    }
    assert(bytes@.len() == bytes.len());
    let (count, start) = match get_map(bytes, 0) {
        Some((Some(count), start)) => (count, start),
        _ => {
            return None;
        },
    };
    if count < 6 || count > 9 {
        return None;
    }
    let parent = count >= 8;
    let sealed = count == 7 || count == 9;
    let (front, p1) = match take_front(bytes, start, parent, Ghost(w)) {
        Some(v) => v,
        None => {
            return None;
        },
    };
    let (entity_ids, p2) = match take_ids(bytes, p1, Ghost(w)) {
        Some(v) => v,
        None => {
            return None;
        },
    };
    let (back, _end) = match take_back(bytes, p2, parent, sealed, Ghost(w)) {
        Some(v) => v,
        None => {
            return None;
        },
    };
    let parent = if parent {
        Some(EntityKey { scope_id: back.parent_scope, entity_id: front.parent_id })
    } else {
        None
    };
    Some(
        WorkSetFrame {
            session_id: back.session_id,
            producer_id: back.producer_id,
            scope_id: front.scope_id,
            parent,
            sequence: front.sequence,
            entity_ids,
            flags: front.flags,
            seal_digest: back.seal_digest,
        },
    )
}

/// A session's label is no longer than the body that holds it.
proof fn lemma_session_fits(w: WorkSetFrame, bytes: Seq<u8>)
    requires
        w.body() == bytes,
    ensures
        encode_utf8(w.session_id@).len() <= bytes.len(),
{
    assert(w.back().len() >= w.session_part().len());
    assert(w.body().len() >= w.back().len());
}

/// Frames with the same contents have the same body.
proof fn lemma_agree_body(a: WorkSetFrame, b: WorkSetFrame, highest: u32)
    requires
        a.agrees(b),
    ensures
        a.body() == b.body(),
        a.valid(highest) == b.valid(highest),
{
    assert(a.front() == b.front());
    assert(a.ids_part() == b.ids_part());
    assert(a.seal_part() == b.seal_part());
    assert(a.back() == b.back());
}

/// Reads the frame whose body the octets are, where they are one.
fn read_body(bytes: &[u8], highest: Ghost<u32>) -> (r: Option<WorkSetFrame>)
    ensures
        match r {
            Some(f) => holds(f, bytes@) && (f.valid(highest@) || forall|g: WorkSetFrame|
                !#[trigger] encodes(g, bytes@, highest@)),
            None => forall|f: WorkSetFrame| !#[trigger] holds(f, bytes@),
        },
{
    let ghost valid = exists|f: WorkSetFrame| #[trigger] encodes(f, bytes@, highest@);
    let ghost found = exists|f: WorkSetFrame| #[trigger] holds(f, bytes@);
    let ghost w = if valid {
        choose|f: WorkSetFrame| #[trigger] encodes(f, bytes@, highest@)
    } else {
        choose|f: WorkSetFrame| #[trigger] holds(f, bytes@)
    };
    proof {
        if valid {
            assert(holds(w, bytes@));
        }
    }
    let frame = match read_frame(bytes, Ghost(w)) {
        Some(frame) => frame,
        None => {
            return None;
        },
    };
    proof {
        if found {
            lemma_agree_body(frame, w, highest@);
        }
    }
    if frame.entity_ids.len() > MAX_BATCH {
        return None;
    }
    let again = encode_body(&frame);
    if !same_octets(again.as_slice(), bytes) {
        return None;
    }
    assert(holds(frame, bytes@));
    Some(frame)
}

/// Which members of a body were met.
#[derive(Clone, Copy)]
pub struct Seen {
    pub session: bool,
    pub producer: bool,
    pub scope: bool,
    pub sequence: bool,
    pub ids: bool,
    pub flags: bool,
    pub parent: bool,
    pub parent_scope: bool,
}

/// The unsigned number at a place, not above `most`, and the place behind it.
pub open spec fn number_at(b: Seq<u8>, p: int, most: nat) -> Option<int> {
    if 0 <= p < b.len() && cbor::major_at(b, p) == 0 {
        match cbor::argument(b, p) {
            Some(a) if a.0 <= most => Some(a.1),
            _ => None,
        }
    } else {
        None
    }
}

/// The octet string at a place, and the place behind it.
pub open spec fn octets_at(b: Seq<u8>, p: int) -> Option<(Seq<u8>, int)> {
    if 0 <= p < b.len() && cbor::major_at(b, p) == 2 {
        match cbor::argument(b, p) {
            Some(a) if a.1 + a.0 <= b.len() => Some((b.subrange(a.1, a.1 + a.0), a.1 + a.0)),
            _ => None,
        }
    } else {
        None
    }
}

/// The octets of the text at a place, and the place behind it.
pub open spec fn text_at(b: Seq<u8>, p: int) -> Option<(Seq<u8>, int)> {
    if 0 <= p < b.len() && cbor::major_at(b, p) == 3 {
        match cbor::argument(b, p) {
            Some(a) if a.1 + a.0 <= b.len() && valid_utf8(b.subrange(a.1, a.1 + a.0)) => Some(
                (b.subrange(a.1, a.1 + a.0), a.1 + a.0),
            ),
            _ => None,
        }
    } else {
        None
    }
}

/// The place behind as many identifiers.
pub open spec fn ids_end(b: Seq<u8>, p: int, n: nat) -> Option<int>
    decreases n,
{
    if n == 0 {
        Some(p)
    } else {
        match number_at(b, p, u32::MAX as nat) {
            Some(q) => ids_end(b, q, (n - 1) as nat),
            None => None,
        }
    }
}

/// The place behind a value, or what is said where it cannot be read.
pub open spec fn or_malformed(seen: Seen, end: Option<int>) -> Result<(Seen, int), Seq<char>> {
    match end {
        Some(q) => Ok((seen, q)),
        None => Err("malformed WORK_SET body"@),
    }
}

/// The place behind an octet string of a fixed length.
pub open spec fn octets_end(
    b: Seq<u8>,
    p: int,
    length: nat,
    seen: Seen,
    text: Seq<char>,
) -> Result<(Seen, int), Seq<char>> {
    match octets_at(b, p) {
        Some((s, q)) => if s.len() == length {
            Ok((seen, q))
        } else {
            Err(text)
        },
        None => Err("malformed WORK_SET body"@),
    }
}

/// The place behind a batch of identifiers.
pub open spec fn batch_end(b: Seq<u8>, p: int, seen: Seen) -> Result<(Seen, int), Seq<char>> {
    if !(0 <= p < b.len() && cbor::major_at(b, p) == 4) {
        Err("malformed WORK_SET body"@)
    } else if b[p] == 0x9f {
        Err("invalid declaration batch size"@)
    } else {
        match cbor::argument(b, p) {
            Some(a) => if a.0 > MAX_BATCH {
                Err("invalid declaration batch size"@)
            } else {
                or_malformed(seen, ids_end(b, a.1, a.0))
            },
            None => Err("malformed WORK_SET body"@),
        }
    }
}

/// One member of a body, by its name.
pub open spec fn member(b: Seq<u8>, p: int, seen: Seen) -> Result<(Seen, int), Seq<char>> {
    match text_at(b, p) {
        None => Err("malformed WORK_SET body"@),
        Some((name, q)) => if name == encode_utf8("session-id"@) {
            or_malformed(
                Seen { session: true, ..seen },
                match text_at(b, q) {
                    Some((_, e)) => Some(e),
                    None => None,
                },
            )
        } else if name == encode_utf8("producer-id"@) {
            octets_end(
                b,
                q,
                16,
                Seen { producer: true, ..seen },
                "producer-id must be 16 octets"@,
            )
        } else if name == encode_utf8("scope-id"@) {
            or_malformed(Seen { scope: true, ..seen }, number_at(b, q, u32::MAX as nat))
        } else if name == encode_utf8("sequence"@) {
            or_malformed(Seen { sequence: true, ..seen }, number_at(b, q, u64::MAX as nat))
        } else if name == encode_utf8("flags"@) {
            or_malformed(Seen { flags: true, ..seen }, number_at(b, q, u8::MAX as nat))
        } else if name == encode_utf8("parent-id"@) {
            or_malformed(Seen { parent: true, ..seen }, number_at(b, q, u32::MAX as nat))
        } else if name == encode_utf8("parent-scope-id"@) {
            or_malformed(Seen { parent_scope: true, ..seen }, number_at(b, q, u32::MAX as nat))
        } else if name == encode_utf8("seal-digest"@) {
            octets_end(b, q, 32, seen, "seal-digest must be 32 octets"@)
        } else if name == encode_utf8("entity-ids"@) {
            batch_end(b, q, Seen { ids: true, ..seen })
        } else {
            Err("unknown WORK_SET member"@)
        },
    }
}

/// As many members of a body, up to the first that cannot be read.
pub open spec fn members_from(b: Seq<u8>, p: int, n: nat, seen: Seen) -> Result<Seen, Seq<char>>
    decreases n,
{
    if n == 0 {
        Ok(seen)
    } else {
        match member(b, p, seen) {
            Ok((met, q)) => members_from(b, q, (n - 1) as nat, met),
            Err(t) => Err(t),
        }
    }
}

/// No member met.
pub open spec fn nothing_seen() -> Seen {
    Seen {
        session: false,
        producer: false,
        scope: false,
        sequence: false,
        ids: false,
        flags: false,
        parent: false,
        parent_scope: false,
    }
}

/// What is said of octets that are the body of no frame: of the first member that cannot be read,
/// or of what is missing. Octets that hold all members in another order, or more than the members,
/// are malformed.
pub open spec fn refusal_text(b: Seq<u8>) -> Seq<char> {
    if !(b.len() > 0 && cbor::major_at(b, 0) == 5) {
        "malformed WORK_SET body"@
    } else if b[0] == 0xbf {
        "indefinite WORK_SET"@
    } else {
        match cbor::argument(b, 0) {
            None => "malformed WORK_SET body"@,
            Some(a) => match members_from(b, a.1, a.0, nothing_seen()) {
                Err(t) => t,
                Ok(seen) => if seen.parent != seen.parent_scope {
                    "incomplete WORK_SET parent identity"@
                } else if !(seen.session && seen.producer && seen.scope && seen.sequence && seen.ids
                    && seen.flags) {
                    "missing WORK_SET member"@
                } else {
                    "malformed WORK_SET body"@
                },
            },
        }
    }
}

fn skip_number(bytes: &[u8], pos: usize, most: u64) -> (r: Option<usize>)
    ensures
        match r {
            Some(q) => number_at(bytes@, pos as int, most as nat) == Some(q as int),
            None => number_at(bytes@, pos as int, most as nat) is None,
        },
{
    match get_u64(bytes, pos) {
        Some((n, next)) => if n <= most {
            Some(next)
        } else {
            None
        },
        None => None,
    }
}

fn skip_octets(
    bytes: &[u8],
    pos: usize,
    length: usize,
    seen: Seen,
    text: &'static str,
) -> (r: Result<(Seen, usize), &'static str>)
    ensures
        match r {
            Ok((met, q)) => octets_end(bytes@, pos as int, length as nat, seen, text@) == Ok::<
                (Seen, int),
                Seq<char>,
            >((met, q as int)),
            Err(t) => octets_end(bytes@, pos as int, length as nat, seen, text@) == Err::<
                (Seen, int),
                Seq<char>,
            >(t@),
        },
{
    match get_bytes(bytes, pos) {
        Some((found, next)) => {
            assert(found@.len() == found.len());
            if found.len() == length {
                Ok((seen, next))
            } else {
                Err(text)
            }
        },
        None => Err("malformed WORK_SET body"),
    }
}

fn skip_batch(bytes: &[u8], pos: usize, seen: Seen) -> (r: Result<(Seen, usize), &'static str>)
    ensures
        match r {
            Ok((met, q)) => batch_end(bytes@, pos as int, seen) == Ok::<(Seen, int), Seq<char>>(
                (met, q as int),
            ),
            Err(t) => batch_end(bytes@, pos as int, seen) == Err::<(Seen, int), Seq<char>>(t@),
        },
{
    let (count, start) = match get_array(bytes, pos) {
        Some((Some(count), start)) => (count, start),
        Some((None, _)) => {
            return Err("invalid declaration batch size");
        },
        None => {
            return Err("malformed WORK_SET body");
        },
    };
    if count > MAX_BATCH as u64 {
        return Err("invalid declaration batch size");
    }
    let mut at = start;
    let mut left = count;
    while left > 0
        invariant
            left <= count,
            batch_end(bytes@, pos as int, seen) == or_malformed(
                seen,
                ids_end(bytes@, start as int, count as nat),
            ),
            ids_end(bytes@, start as int, count as nat) == ids_end(
                bytes@,
                at as int,
                left as nat,
            ),
        decreases left,
    {
        match skip_number(bytes, at, u32::MAX as u64) {
            Some(next) => {
                at = next;
            },
            None => {
                assert(ids_end(bytes@, start as int, count as nat) is None);
                return Err("malformed WORK_SET body");
            },
        }
        left -= 1;
    }
    Ok((seen, at))
}

fn met_or_malformed(seen: Seen, end: Option<usize>) -> (r: Result<(Seen, usize), &'static str>)
    ensures
        match (r, end) {
            (Ok((met, q)), Some(e)) => met == seen && q == e,
            (Err(t), None) => t@ == "malformed WORK_SET body"@,
            _ => false,
        },
{
    match end {
        Some(q) => Ok((seen, q)),
        None => Err("malformed WORK_SET body"),
    }
}

fn skip_member(bytes: &[u8], pos: usize, seen: Seen) -> (r: Result<(Seen, usize), &'static str>)
    ensures
        match r {
            Ok((met, q)) => member(bytes@, pos as int, seen) == Ok::<(Seen, int), Seq<char>>(
                (met, q as int),
            ),
            Err(t) => member(bytes@, pos as int, seen) == Err::<(Seen, int), Seq<char>>(t@),
        },
{
    let (found, q) = match get_text(bytes, pos) {
        Some((found, q)) => (found, q),
        None => {
            return Err("malformed WORK_SET body");
        },
    };
    proof {
        encode_utf8_valid_utf8(found@);
    }
    let name = found.as_bytes();
    if same_octets(name, "session-id".as_bytes()) {
        match get_text(bytes, q) {
            Some((text, end)) => {
                proof {
                    encode_utf8_valid_utf8(text@);
                }
                Ok((Seen { session: true, ..seen }, end))
            },
            None => Err("malformed WORK_SET body"),
        }
    } else if same_octets(name, "producer-id".as_bytes()) {
        skip_octets(
            bytes,
            q,
            16,
            Seen { producer: true, ..seen },
            "producer-id must be 16 octets",
        )
    } else if same_octets(name, "scope-id".as_bytes()) {
        met_or_malformed(
            Seen { scope: true, ..seen },
            skip_number(bytes, q, u32::MAX as u64),
        )
    } else if same_octets(name, "sequence".as_bytes()) {
        met_or_malformed(Seen { sequence: true, ..seen }, skip_number(bytes, q, u64::MAX))
    } else if same_octets(name, "flags".as_bytes()) {
        met_or_malformed(Seen { flags: true, ..seen }, skip_number(bytes, q, u8::MAX as u64))
    } else if same_octets(name, "parent-id".as_bytes()) {
        met_or_malformed(
            Seen { parent: true, ..seen },
            skip_number(bytes, q, u32::MAX as u64),
        )
    } else if same_octets(name, "parent-scope-id".as_bytes()) {
        met_or_malformed(
            Seen { parent_scope: true, ..seen },
            skip_number(bytes, q, u32::MAX as u64),
        )
    } else if same_octets(name, "seal-digest".as_bytes()) {
        skip_octets(bytes, q, 32, seen, "seal-digest must be 32 octets")
    } else if same_octets(name, "entity-ids".as_bytes()) {
        skip_batch(bytes, q, Seen { ids: true, ..seen })
    } else {
        Err("unknown WORK_SET member")
    }
}

/// What is said of octets that are the body of no frame.
fn diagnose(bytes: &[u8]) -> (r: &'static str)
    ensures
        r@ == refusal_text(bytes@),
{
    let (count, start) = match get_map(bytes, 0) {
        Some((Some(count), start)) => (count, start),
        Some((None, _)) => {
            return "indefinite WORK_SET";
        },
        None => {
            return "malformed WORK_SET body";
        },
    };
    let mut seen = Seen {
        session: false,
        producer: false,
        scope: false,
        sequence: false,
        ids: false,
        flags: false,
        parent: false,
        parent_scope: false,
    };
    let mut at = start;
    let mut left = count;
    while left > 0
        invariant
            left <= count,
            bytes@.len() > 0,
            cbor::major_at(bytes@, 0) == 5,
            bytes@[0] != 0xbf,
            cbor::argument(bytes@, 0) == Some((count as nat, start as int)),
            members_from(bytes@, start as int, count as nat, nothing_seen()) == members_from(
                bytes@,
                at as int,
                left as nat,
                seen,
            ),
        decreases left,
    {
        match skip_member(bytes, at, seen) {
            Ok((met, next)) => {
                seen = met;
                at = next;
            },
            Err(text) => {
                assert(members_from(bytes@, start as int, count as nat, nothing_seen()) == Err::<
                    Seen,
                    Seq<char>,
                >(text@));
                return text;
            },
        }
        left -= 1;
    }
    assert(members_from(bytes@, start as int, count as nat, nothing_seen()) == Ok::<Seen, Seq<char>>(
        seen,
    ));
    if seen.parent != seen.parent_scope {
        "incomplete WORK_SET parent identity"
    } else if !(seen.session && seen.producer && seen.scope && seen.sequence && seen.ids
        && seen.flags) {
        "missing WORK_SET member"
    } else {
        "malformed WORK_SET body"
    }
}

/// The session identifier in the body of a frame.
pub fn session_of(bytes: &[u8]) -> (r: Option<String>)
    ensures
        match r {
            Some(id) => exists|f: WorkSetFrame| #[trigger] holds(f, bytes@) && f.session_id == id,
            None => forall|f: WorkSetFrame| !#[trigger] holds(f, bytes@),
        },
{
    match read_body(bytes, Ghost(0)) {
        Some(frame) => Some(frame.session_id),
        None => None,
    }
}

/// Accepts exactly the bodies of valid frames. `unnamed` says why the session identifier in the body is
/// none, where it is none.
pub fn decode(bytes: &[u8], highest: u32, unnamed: Option<ProtocolError>) -> (r: Result<
    WorkSetFrame,
    ProtocolError,
>)
    ensures
        match r {
            Ok(f) => unnamed is None && encodes(f, bytes@, highest),
            Err(e) => if exists|f: WorkSetFrame| #[trigger] holds(f, bytes@) {
                if unnamed is Some {
                    e == unnamed->0
                } else {
                    e.code == ProtocolCode::Frame && e.detail@ == "invalid WORK_SET fields"@ && forall|
                        f: WorkSetFrame,
                    | !#[trigger] encodes(f, bytes@, highest)
                }
            } else {
                e.code == ProtocolCode::Frame && e.detail@ == refusal_text(bytes@)
            },
        },
{
    let frame = match read_body(bytes, Ghost(highest)) {
        Some(frame) => frame,
        None => {
            proof {
                assert forall|f: WorkSetFrame| !#[trigger] encodes(f, bytes@, highest) by {
                    assert(!holds(f, bytes@));
                }
            }
            return Err(refuse(ProtocolCode::Frame, diagnose(bytes)));
        },
    };
    frame.validate(highest, unnamed)?;
    assert(encodes(frame, bytes@, highest));
    Ok(frame)
}

proof fn lemma_split(a: Seq<u8>, x: Seq<u8>, b: Seq<u8>, y: Seq<u8>)
    requires
        a.len() == b.len(),
        a + x == b + y,
    ensures
        a == b,
        x == y,
{
    let s = a + x;
    let t = b + y;
    assert(a =~= s.take(a.len() as int));
    assert(b =~= t.take(a.len() as int));
    assert(x =~= s.skip(a.len() as int));
    assert(y =~= t.skip(a.len() as int));
}

proof fn lemma_numbered(name: Seq<char>, m: nat, x: Seq<u8>, n: nat, y: Seq<u8>)
    requires
        m <= u64::MAX,
        n <= u64::MAX,
        numbered(name, m) + x == numbered(name, n) + y,
    ensures
        m == n,
        x == y,
{
    let t = wire::text_wire(name);
    assert(numbered(name, m) + x =~= t + (cbor::head(0, m) + x));
    assert(numbered(name, n) + y =~= t + (cbor::head(0, n) + y));
    lemma_split(t, cbor::head(0, m) + x, t, cbor::head(0, n) + y);
    cbor::lemma_head_prefix_free(0, m, x, 0, n, y);
}

proof fn lemma_ids_prefix(a: Seq<u32>, x: Seq<u8>, b: Seq<u32>, y: Seq<u8>)
    requires
        a.len() == b.len(),
        ids_wire(a) + x == ids_wire(b) + y,
    ensures
        a == b,
        x == y,
    decreases a.len(),
{
    if a.len() > 0 {
        let p = cbor::head(0, a.last() as nat) + x;
        let q = cbor::head(0, b.last() as nat) + y;
        assert(ids_wire(a) + x =~= ids_wire(a.drop_last()) + p);
        assert(ids_wire(b) + y =~= ids_wire(b.drop_last()) + q);
        lemma_ids_prefix(a.drop_last(), p, b.drop_last(), q);
        cbor::lemma_head_prefix_free(0, a.last() as nat, x, 0, b.last() as nat, y);
        assert(a =~= a.drop_last().push(a.last()));
        assert(b =~= b.drop_last().push(b.last()));
    } else {
        assert(a =~= b);
        assert(ids_wire(a) + x =~= x);
        assert(ids_wire(b) + y =~= y);
    }
}

proof fn lemma_front_parts(f: Seq<u8>, s: Seq<u8>, q: Seq<u8>, p: Seq<u8>, x: Seq<u8>)
    ensures
        (f + (s + (q + p))) + x == f + (s + (q + (p + x))),
{
    assert((f + (s + (q + p))) + x =~= f + (s + (q + (p + x))));
}

proof fn lemma_front_prefix(a: WorkSetFrame, x: Seq<u8>, b: WorkSetFrame, y: Seq<u8>)
    requires
        a.parent is Some == b.parent is Some,
        a.front() + x == b.front() + y,
    ensures
        a.flags == b.flags,
        a.scope_id == b.scope_id,
        a.sequence == b.sequence,
        a.parent is Some ==> a.parent->0.entity_id == b.parent->0.entity_id,
        x == y,
{
    let fa = numbered("flags"@, a.flags as nat);
    let fb = numbered("flags"@, b.flags as nat);
    let sa = numbered("scope-id"@, a.scope_id as nat);
    let sb = numbered("scope-id"@, b.scope_id as nat);
    let qa = numbered("sequence"@, a.sequence as nat);
    let qb = numbered("sequence"@, b.sequence as nat);
    let pa = a.parent_part();
    let pb = b.parent_part();
    lemma_front_parts(fa, sa, qa, pa, x);
    lemma_front_parts(fb, sb, qb, pb, y);
    lemma_numbered(
        "flags"@,
        a.flags as nat,
        sa + (qa + (pa + x)),
        b.flags as nat,
        sb + (qb + (pb + y)),
    );
    lemma_numbered(
        "scope-id"@,
        a.scope_id as nat,
        qa + (pa + x),
        b.scope_id as nat,
        qb + (pb + y),
    );
    lemma_numbered("sequence"@, a.sequence as nat, pa + x, b.sequence as nat, pb + y);
    if a.parent is Some {
        lemma_numbered(
            "parent-id"@,
            a.parent->0.entity_id as nat,
            x,
            b.parent->0.entity_id as nat,
            y,
        );
    } else {
        assert(pa + x =~= x);
        assert(pb + y =~= y);
    }
}

proof fn lemma_back_injective(a: WorkSetFrame, b: WorkSetFrame)
    requires
        a.parent is Some == b.parent is Some,
        a.seal_digest is Some == b.seal_digest is Some,
        a.back() == b.back(),
        encode_utf8(a.session_id@).len() <= u64::MAX,
        encode_utf8(b.session_id@).len() <= u64::MAX,
    ensures
        a.session_id@ == b.session_id@,
        a.producer_id@ == b.producer_id@,
        a.seal_digest is Some ==> a.seal_digest->0@ == b.seal_digest->0@,
        a.parent is Some ==> a.parent->0.scope_id == b.parent->0.scope_id,
{
    let n = wire::text_wire("session-id"@);
    let m = wire::text_wire("producer-id"@);
    let k = wire::text_wire("seal-digest"@);
    let ra = a.seal_part() + a.parent_scope_part();
    let rb = b.seal_part() + b.parent_scope_part();
    let ta = wire::text_wire(a.session_id@);
    let tb = wire::text_wire(b.session_id@);
    let ga = wire::bytes_wire(a.producer_id@);
    let gb = wire::bytes_wire(b.producer_id@);
    lemma_assoc(n, ta, m + ga, ra);
    lemma_assoc(n, tb, m + gb, rb);
    wire::lemma_concat_assoc(m, ga, ra);
    wire::lemma_concat_assoc(m, gb, rb);
    assert(a.back() == (n + ta) + ((m + ga) + ra));
    assert(b.back() == (n + tb) + ((m + gb) + rb));
    lemma_split(n, ta + (m + (ga + ra)), n, tb + (m + (gb + rb)));
    labels::lemma_text_prefix_free(a.session_id@, b.session_id@, m + (ga + ra), m + (gb + rb));
    lemma_split(m, ga + ra, m, gb + rb);
    labels::lemma_bytes_prefix_free(a.producer_id@, b.producer_id@, ra, rb);
    let pa = a.parent_scope_part();
    let pb = b.parent_scope_part();
    if a.seal_digest is Some {
        let da = wire::bytes_wire(a.seal_digest->0@);
        let db = wire::bytes_wire(b.seal_digest->0@);
        wire::lemma_concat_assoc(k, da, pa);
        wire::lemma_concat_assoc(k, db, pb);
        lemma_split(k, da + pa, k, db + pb);
        labels::lemma_bytes_prefix_free(a.seal_digest->0@, b.seal_digest->0@, pa, pb);
    } else {
        assert(ra =~= pa);
        assert(rb =~= pb);
    }
    if a.parent is Some {
        let e = Seq::<u8>::empty();
        assert(pa + e =~= pa);
        assert(pb + e =~= pb);
        lemma_numbered(
            "parent-scope-id"@,
            a.parent->0.scope_id as nat,
            e,
            b.parent->0.scope_id as nat,
            e,
        );
    }
}

/// A body determines its frame: what is decoded is what was encoded.
pub proof fn law_body_determines_frame(a: WorkSetFrame, b: WorkSetFrame, highest: u32)
    requires
        a.valid(highest),
        b.valid(highest),
        a.body() == b.body(),
        a.body().len() <= u64::MAX,
    ensures
        a.agrees(b),
{
    let xa = a.front() + (a.ids_part() + a.back());
    let xb = b.front() + (b.ids_part() + b.back());
    cbor::lemma_head_prefix_free(5, a.members(), xa, 5, b.members(), xb);
    lemma_front_prefix(a, a.ids_part() + a.back(), b, b.ids_part() + b.back());
    let n = wire::text_wire("entity-ids"@);
    let ha = cbor::head(4, a.entity_ids@.len());
    let hb = cbor::head(4, b.entity_ids@.len());
    let ia = ids_wire(a.entity_ids@);
    let ib = ids_wire(b.entity_ids@);
    assert(a.ids_part() + a.back() =~= n + (ha + (ia + a.back())));
    assert(b.ids_part() + b.back() =~= n + (hb + (ib + b.back())));
    lemma_split(n, ha + (ia + a.back()), n, hb + (ib + b.back()));
    cbor::lemma_head_prefix_free(
        4,
        a.entity_ids@.len(),
        ia + a.back(),
        4,
        b.entity_ids@.len(),
        ib + b.back(),
    );
    lemma_ids_prefix(a.entity_ids@, a.back(), b.entity_ids@, b.back());
    lemma_session_fits(a, a.body());
    lemma_session_fits(b, b.body());
    lemma_back_injective(a, b);
}

/// Numbers in four octets each.
pub open spec fn ids_octets(ids: Seq<u32>) -> Seq<u8>
    decreases ids.len(),
{
    if ids.len() == 0 {
        Seq::empty()
    } else {
        ids_octets(ids.drop_last()) + cbor::be_bytes(ids.last() as nat, 4)
    }
}

pub open spec fn parent_octets(parent: Option<EntityKey>) -> Seq<u8> {
    match parent {
        Some(p) => seq![1u8] + cbor::be_bytes(p.scope_id as nat, 4) + cbor::be_bytes(
            p.entity_id as nat,
            4,
        ),
        None => seq![0u8],
    }
}

/// What a seal is made of: where the scope stands and the complete ascending identifier set.
pub open spec fn seal_preimage(
    session_id: Seq<char>,
    producer_id: Seq<u8>,
    scope_id: u32,
    parent: Option<EntityKey>,
    ids: Seq<u32>,
) -> Seq<u8> {
    encode_utf8("pipestream-work-set-v1"@) + cbor::be_bytes(encode_utf8(session_id).len(), 2)
        + encode_utf8(session_id) + producer_id + cbor::be_bytes(scope_id as nat, 4)
        + parent_octets(parent) + cbor::be_bytes(ids.len(), 8) + ids_octets(ids)
}

fn hash_number(hasher: &mut Hasher, n: u64, width: usize)
    ensures
        hashing::absorbed(*final(hasher)) == hashing::absorbed(*old(hasher)) + cbor::be_bytes(
            n as nat,
            width as nat,
        ),
{
    let mut octets: Vec<u8> = Vec::new();
    push_be(&mut octets, n, width);
    assert(octets@ =~= cbor::be_bytes(n as nat, width as nat));
    hash_update(hasher, octets.as_slice());
}

fn hash_ids(hasher: &mut Hasher, ids: &Vec<u32>)
    ensures
        hashing::absorbed(*final(hasher)) == hashing::absorbed(*old(hasher)) + ids_octets(ids@),
{
    let mut i: usize = 0;
    assert(ids@.take(0) =~= Seq::empty());
    assert(hashing::absorbed(*hasher) =~= hashing::absorbed(*old(hasher)) + ids_octets(
        ids@.take(0),
    ));
    while i < ids.len()
        invariant
            i <= ids@.len(),
            hashing::absorbed(*hasher) == hashing::absorbed(*old(hasher)) + ids_octets(
                ids@.take(i as int),
            ),
        decreases ids@.len() - i,
    {
        hash_number(hasher, ids[i] as u64, 4);
        proof {
            assert(ids@.take(i + 1).drop_last() =~= ids@.take(i as int));
            assert(ids@.take(i + 1).last() == ids@[i as int]);
            assert(hashing::absorbed(*hasher) =~= hashing::absorbed(*old(hasher)) + ids_octets(
                ids@.take(i + 1),
            ));
        }
        i += 1;
    }
    assert(ids@.take(i as int) =~= ids@);
}

/// Hash the complete ascending identifier set, independent of batch boundaries.
pub fn seal_digest(
    session_id: &str,
    producer_id: &[u8; 16],
    scope_id: u32,
    parent: Option<EntityKey>,
    ids: &Vec<u32>,
) -> (r: [u8; 32])
    ensures
        r@ == hashing::sha256(
            seal_preimage(session_id@, producer_id@, scope_id, parent, ids@),
        ),
{
    let mut hasher = hash_start();
    hash_update(&mut hasher, "pipestream-work-set-v1".as_bytes());
    let octets = session_id.as_bytes();
    hash_number(&mut hasher, octets.len() as u64, 2);
    hash_update(&mut hasher, octets);
    hash_update(&mut hasher, producer_id);
    hash_number(&mut hasher, scope_id as u64, 4);
    let ghost placed = hashing::absorbed(hasher);
    match &parent {
        Some(p) => {
            let flag: [u8; 1] = [1u8];
            hash_update(&mut hasher, &flag);
            hash_number(&mut hasher, p.scope_id as u64, 4);
            hash_number(&mut hasher, p.entity_id as u64, 4);
        },
        None => {
            let flag: [u8; 1] = [0u8];
            hash_update(&mut hasher, &flag);
        },
    }
    assert(hashing::absorbed(hasher) =~= placed + parent_octets(parent));
    hash_number(&mut hasher, ids.len() as u64, 8);
    hash_ids(&mut hasher, ids);
    proof {
        assert(placed =~= encode_utf8("pipestream-work-set-v1"@) + cbor::be_bytes(
            octets@.len(),
            2,
        ) + octets@ + producer_id@ + cbor::be_bytes(scope_id as nat, 4));
        assert(hashing::absorbed(hasher) =~= seal_preimage(
            session_id@,
            producer_id@,
            scope_id,
            parent,
            ids@,
        ));
    }
    hash_finish(&hasher)
}

/// The declarations of one scope. Identifiers ascend; requests stand at their sequence numbers. Both
/// are vectors: the seal hashes the identifiers in their order, and sequence numbers have no gaps, so
/// that a number is its own place.
#[derive(Debug, Clone, PartialEq, Eq)]
pub struct DeclaredScope {
    pub scope_id: u32,
    pub parent: Option<EntityKey>,
    pub ids: Vec<u32>,
    pub requests: Vec<[u8; 32]>,
    pub seal_digest: Option<[u8; 32]>,
}

/// The scopes in the order in which they were first declared. A declaration changes a scope in place,
/// for which the specified maps have no operation, so the scopes are rows found by their number.
#[derive(Debug, Clone, PartialEq, Eq)]
pub struct WorkSets {
    pub producer_id: [u8; 16],
    pub scopes: Vec<DeclaredScope>,
}

/// The part of a session that declares work.
#[derive(Debug, Clone, PartialEq, Eq)]
pub struct Session {
    pub session_id: String,
    pub depth: u8,
    pub max_entities_per_scope: u32,
    pub max_entity_id: u32,
    pub work_sets: Option<WorkSets>,
}

/// The number of identifiers declared in all scopes together.
pub open spec fn declared_total(scopes: Seq<DeclaredScope>) -> nat
    decreases scopes.len(),
{
    if scopes.len() == 0 {
        0
    } else {
        declared_total(scopes.drop_last()) + scopes.last().ids@.len()
    }
}

/// The index of a scope, or the number of scopes where it is not declared.
pub open spec fn scope_at(scopes: Seq<DeclaredScope>, scope_id: u32) -> int
    decreases scopes.len(),
{
    if scopes.len() == 0 {
        0
    } else {
        let k = scope_at(scopes.drop_last(), scope_id);
        if k < scopes.len() - 1 {
            k
        } else if scopes.last().scope_id == scope_id {
            scopes.len() - 1
        } else {
            scopes.len() as int
        }
    }
}

pub proof fn lemma_scope_at(scopes: Seq<DeclaredScope>, scope_id: u32, i: int)
    requires
        0 <= i <= scopes.len(),
        forall|j: int| 0 <= j < i ==> (#[trigger] scopes[j]).scope_id != scope_id,
        i < scopes.len() ==> scopes[i].scope_id == scope_id,
    ensures
        scope_at(scopes, scope_id) == i,
    decreases scopes.len(),
{
    if scopes.len() > 0 {
        let front = scopes.drop_last();
        assert forall|j: int| 0 <= j < front.len() && j < i implies (
        #[trigger] front[j]).scope_id != scope_id by {
            assert(scopes[j].scope_id != scope_id);
        }
        if i < scopes.len() {
            lemma_scope_at(
                front,
                scope_id,
                if i < front.len() {
                    i
                } else {
                    front.len() as int
                },
            );
        } else {
            lemma_scope_at(front, scope_id, front.len() as int);
            assert(scopes[scopes.len() - 1].scope_id != scope_id);
        }
    }
}

proof fn lemma_total_part(scopes: Seq<DeclaredScope>, i: int)
    requires
        0 <= i < scopes.len(),
    ensures
        scopes[i].ids@.len() <= declared_total(scopes),
    decreases scopes.len(),
{
    if i < scopes.len() - 1 {
        lemma_total_part(scopes.drop_last(), i);
    }
}

proof fn lemma_total_update(scopes: Seq<DeclaredScope>, i: int, scope: DeclaredScope)
    requires
        0 <= i < scopes.len(),
    ensures
        declared_total(scopes.update(i, scope)) == declared_total(scopes) - scopes[i].ids@.len()
            + scope.ids@.len(),
    decreases scopes.len(),
{
    let next = scopes.update(i, scope);
    if i == scopes.len() - 1 {
        assert(next.drop_last() =~= scopes.drop_last());
    } else {
        lemma_total_update(scopes.drop_last(), i, scope);
        assert(next.drop_last() =~= scopes.drop_last().update(i, scope));
    }
}

/// The octets that a request is known by.
pub open spec fn request_hash(frame: WorkSetFrame) -> Seq<u8> {
    hashing::sha256(messages::framed(FRAME_WORK_SET, frame.body()))
}

/// The frame that acknowledges another.
pub open spec fn acknowledges(ack: WorkSetFrame, frame: WorkSetFrame) -> bool {
    ack.agrees(WorkSetFrame { flags: (frame.flags + 1) as u8, ..frame })
}

/// Identifiers ascend, no scope stands twice, and the session's budget is kept.
pub open spec fn scopes_sound(scopes: Seq<DeclaredScope>) -> bool {
    &&& forall|i: int| 0 <= i < scopes.len() ==> ascending((#[trigger] scopes[i]).ids@)
    &&& forall|i: int, j: int|
        0 <= i < j < scopes.len() ==> (#[trigger] scopes[i]).scope_id != (
        #[trigger] scopes[j]).scope_id
    &&& declared_total(scopes) <= MAX_SESSION_DECLARATIONS
}

impl Session {
    pub open spec fn scopes(self) -> Seq<DeclaredScope> {
        self.work_sets->0.scopes@
    }

    pub open spec fn well_formed(self) -> bool {
        self.work_sets is Some ==> scopes_sound(self.scopes())
    }

    /// The identifiers that are declared in a scope so far.
    pub open spec fn declared(self, scope_id: u32) -> Seq<u32> {
        let k = scope_at(self.scopes(), scope_id);
        if k < self.scopes().len() {
            self.scopes()[k].ids@
        } else {
            Seq::empty()
        }
    }

    /// The number of requests that declared work in a scope so far.
    pub open spec fn requested(self, scope_id: u32) -> nat {
        let k = scope_at(self.scopes(), scope_id);
        if k < self.scopes().len() {
            self.scopes()[k].requests@.len()
        } else {
            0
        }
    }

    /// The request stands in the scope already.
    pub open spec fn replays(self, frame: WorkSetFrame) -> bool {
        frame.sequence < self.requested(frame.scope_id)
    }

    /// The frame comes from the producer of this session.
    pub open spec fn addressed(self, frame: WorkSetFrame) -> bool {
        !acks(frame.flags) && frame.session_id@ == self.session_id@ && frame.producer_id@
            == self.work_sets->0.producer_id@
    }

    /// The request is the next one in an open scope, behind everything declared there.
    pub open spec fn continues(self, frame: WorkSetFrame) -> bool {
        let k = scope_at(self.scopes(), frame.scope_id);
        let scope = self.scopes()[k];
        let ids = self.declared(frame.scope_id);
        &&& frame.sequence == self.requested(frame.scope_id)
        &&& k < self.scopes().len() ==> scope.seal_digest is None && scope.parent == frame.parent
        &&& ids.len() > 0 && frame.entity_ids@.len() > 0 ==> ids.last() < frame.entity_ids@[0]
    }

    /// What is declared in the scope once the request is taken in.
    pub open spec fn declared_with(self, frame: WorkSetFrame) -> Seq<u32> {
        self.declared(frame.scope_id) + frame.entity_ids@
    }

    /// The seal of the request is that of the complete identifier set.
    pub open spec fn seal_holds(self, frame: WorkSetFrame) -> bool {
        frame.seal_digest matches Some(digest) ==> digest@ == hashing::sha256(
            seal_preimage(
                self.session_id@,
                self.work_sets->0.producer_id@,
                frame.scope_id,
                frame.parent,
                self.declared_with(frame),
            ),
        )
    }

    /// The request opens the scope below an entity.
    pub open spec fn opens_child(self, frame: WorkSetFrame) -> bool {
        scope_at(self.scopes(), frame.scope_id) >= self.scopes().len() && frame.parent is Some
    }

    /// Why a declaration is refused, if it is. `unnamed` says why the frame's session identifier is
    /// none, where it is none, and `refused` why the scope could not be opened, where it could not.
    pub open spec fn declare_fault(
        self,
        frame: WorkSetFrame,
        unnamed: Option<ProtocolCode>,
        refused: Option<ProtocolCode>,
    ) -> Option<ProtocolCode> {
        let k = scope_at(self.scopes(), frame.scope_id);
        let count = self.declared_with(frame).len();
        if frame.fault(self.max_entity_id, unnamed) is Some {
            frame.fault(self.max_entity_id, unnamed)
        } else if self.work_sets is None || !self.addressed(frame) {
            Some(ProtocolCode::Entity)
        } else if frame.body().len() > u32::MAX {
            Some(ProtocolCode::Frame)
        } else if self.replays(frame) {
            if self.scopes()[k].requests@[frame.sequence as int]@ == request_hash(frame) {
                None
            } else {
                Some(ProtocolCode::Entity)
            }
        } else if !self.continues(frame) {
            Some(ProtocolCode::Entity)
        } else if declared_total(self.scopes()) + frame.entity_ids@.len() > MAX_SESSION_DECLARATIONS {
            Some(ProtocolCode::Limit)
        } else if count == 0 || count > self.max_entities_per_scope {
            Some(ProtocolCode::Limit)
        } else if !self.seal_holds(frame) {
            Some(ProtocolCode::Integrity)
        } else if self.opens_child(frame) {
            refused
        } else {
            None
        }
    }

    /// The scope is sealed, and every identifier declared in it is resolved.
    pub open spec fn ready(self, scope_id: u32, resolved: Seq<u32>) -> bool {
        let k = scope_at(self.scopes(), scope_id);
        &&& self.work_sets is Some
        &&& k < self.scopes().len()
        &&& self.scopes()[k].seal_digest is Some
        &&& forall|i: int|
            0 <= i < self.scopes()[k].ids@.len() ==> resolved.contains(
                #[trigger] self.scopes()[k].ids@[i],
            )
    }

    /// The work may arrive: it was declared, below this parent. A session without declarations takes
    /// any.
    pub open spec fn admits(self, key: EntityKey, parent: Option<EntityKey>) -> bool {
        let k = scope_at(self.scopes(), key.scope_id);
        self.work_sets is Some ==> k < self.scopes().len() && self.scopes()[k].parent == parent
            && self.scopes()[k].ids@.contains(key.entity_id)
    }

    /// The scope with the request taken in.
    pub open spec fn takes_in(self, frame: WorkSetFrame, scope: DeclaredScope) -> bool {
        let k = scope_at(self.scopes(), frame.scope_id);
        let n = self.requested(frame.scope_id);
        &&& scope.scope_id == frame.scope_id
        &&& scope.parent == frame.parent
        &&& scope.ids@ == self.declared_with(frame)
        &&& scope.requests@.len() == n + 1
        &&& forall|i: int|
            0 <= i < n ==> (#[trigger] scope.requests@[i])@ == self.scopes()[k].requests@[i]@
        &&& scope.requests@[n as int]@ == request_hash(frame)
        &&& scope.seal_digest is Some == frame.seal_digest is Some
        &&& scope.seal_digest is Some ==> scope.seal_digest->0@ == frame.seal_digest->0@
    }

    /// What a declaration comes to: a refusal that changes nothing, the acknowledgement of a request that
    /// was taken in before, or that of one taken in now.
    pub open spec fn takes(
        self,
        frame: WorkSetFrame,
        unnamed: Option<ProtocolCode>,
        refused: Option<ProtocolCode>,
        r: Result<WorkSetFrame, ProtocolError>,
        next: Session,
    ) -> bool {
        let fault = self.declare_fault(frame, unnamed, refused);
        match r {
            Ok(ack) => fault is None && acknowledges(ack, frame) && if self.replays(frame) {
                next == self
            } else {
                self.declares(frame, next)
            },
            Err(e) => fault == Some(e.code) && next == self,
        }
    }

    /// The session with the request taken in.
    pub open spec fn declares(self, frame: WorkSetFrame, next: Session) -> bool {
        let k = scope_at(self.scopes(), frame.scope_id);
        &&& next.session_id@ == self.session_id@
        &&& next.depth == self.depth
        &&& next.max_entities_per_scope == self.max_entities_per_scope
        &&& next.max_entity_id == self.max_entity_id
        &&& next.work_sets is Some
        &&& next.work_sets->0.producer_id@ == self.work_sets->0.producer_id@
        &&& if k < self.scopes().len() {
            next.scopes() == self.scopes().update(k, next.scopes()[k]) && self.takes_in(
                frame,
                next.scopes()[k],
            )
        } else {
            next.scopes() == self.scopes().push(next.scopes().last()) && self.takes_in(
                frame,
                next.scopes().last(),
            )
        }
    }
}

/// How a declaration stands that nothing speaks against, but perhaps the opening of its scope.
#[derive(Debug, Clone, Copy, PartialEq, Eq, Structural)]
pub enum Standing {
    /// It repeats a request that was taken in before.
    Repeated,
    /// It is accepted.
    Accepted,
    /// It is accepted if its scope can be opened below its parent.
    Opening,
}

/// Once a scope is sealed, only what was requested before is answered.
pub proof fn law_sealed_scope_is_closed(
    s: Session,
    frame: WorkSetFrame,
    unnamed: Option<ProtocolCode>,
    refused: Option<ProtocolCode>,
)
    requires
        s.work_sets is Some,
        scope_at(s.scopes(), frame.scope_id) < s.scopes().len(),
        s.scopes()[scope_at(s.scopes(), frame.scope_id)].seal_digest is Some,
        s.declare_fault(frame, unnamed, refused) is None,
    ensures
        s.replays(frame),
{
}

/// The index of a scope is not beyond the scopes, and is where the scope stands.
pub proof fn lemma_scope_found(scopes: Seq<DeclaredScope>, scope_id: u32)
    ensures
        0 <= scope_at(scopes, scope_id) <= scopes.len(),
        scope_at(scopes, scope_id) < scopes.len() ==> scopes[scope_at(scopes, scope_id)].scope_id
            == scope_id,
        forall|j: int|
            0 <= j < scope_at(scopes, scope_id) ==> (#[trigger] scopes[j]).scope_id != scope_id,
    decreases scopes.len(),
{
    if scopes.len() > 0 {
        let front = scopes.drop_last();
        lemma_scope_found(front, scope_id);
        assert forall|j: int| 0 <= j < scope_at(scopes, scope_id) implies (
        #[trigger] scopes[j]).scope_id != scope_id by {
            if j < front.len() {
                assert(front[j].scope_id != scope_id);
            }
        }
    }
}

/// A declaration that was taken in is answered again, and changes nothing any more.
pub proof fn law_declaration_is_idempotent(
    s: Session,
    frame: WorkSetFrame,
    next: Session,
    unnamed: Option<ProtocolCode>,
    refused: Option<ProtocolCode>,
)
    requires
        s.work_sets is Some,
        s.declare_fault(frame, unnamed, refused) is None,
        !s.replays(frame),
        s.declares(frame, next),
    ensures
        next.replays(frame),
        forall|later: Option<ProtocolCode>|
            #[trigger] next.declare_fault(frame, unnamed, later) is None,
{
    let k = scope_at(s.scopes(), frame.scope_id);
    lemma_scope_found(s.scopes(), frame.scope_id);
    let m = if k < s.scopes().len() {
        k
    } else {
        s.scopes().len() as int
    };
    assert forall|j: int| 0 <= j < m implies (#[trigger] next.scopes()[j]).scope_id
        != frame.scope_id by {
        assert(s.scopes()[j].scope_id != frame.scope_id);
    }
    lemma_scope_at(next.scopes(), frame.scope_id, m);
}

/// The hash of the request that was taken in for a scope under a sequence number.
pub open spec fn answered(s: Session, scope_id: u32, sequence: u64) -> Option<Seq<u8>> {
    let k = scope_at(s.scopes(), scope_id);
    if k < s.scopes().len() && sequence < s.scopes()[k].requests@.len() {
        Some(s.scopes()[k].requests@[sequence as int]@)
    } else {
        None
    }
}

/// A request that was taken in is kept under its scope and its sequence number, and what was kept
/// before stays.
pub proof fn law_request_is_kept(
    s: Session,
    next: Session,
    frame: WorkSetFrame,
    scope_id: u32,
    sequence: u64,
)
    requires
        s.well_formed(),
        s.declare_fault(frame, None, None) is None,
        !s.replays(frame),
        s.declares(frame, next),
    ensures
        answered(next, frame.scope_id, frame.sequence) == Some(request_hash(frame)),
        answered(s, scope_id, sequence) is Some ==> answered(next, scope_id, sequence) == answered(
            s,
            scope_id,
            sequence,
        ),
{
    let k = scope_at(s.scopes(), frame.scope_id);
    lemma_scope_found(s.scopes(), frame.scope_id);
    let m = if k < s.scopes().len() {
        k
    } else {
        s.scopes().len() as int
    };
    assert forall|j: int| 0 <= j < m implies (#[trigger] next.scopes()[j]).scope_id
        != frame.scope_id by {
        assert(s.scopes()[j].scope_id != frame.scope_id);
    }
    lemma_scope_at(next.scopes(), frame.scope_id, m);
    if answered(s, scope_id, sequence) is Some && scope_id != frame.scope_id {
        let n = scope_at(s.scopes(), scope_id);
        lemma_scope_found(s.scopes(), scope_id);
        assert(n != m);
        assert(next.scopes()[n] == s.scopes()[n]);
        assert forall|j: int| 0 <= j < n implies (#[trigger] next.scopes()[j]).scope_id
            != scope_id by {
            assert(s.scopes()[j].scope_id != scope_id);
        }
        lemma_scope_at(next.scopes(), scope_id, n);
    }
}

/// Where a request was taken in, another frame with its scope and its sequence number is refused,
/// provided that the two do not hash alike.
pub proof fn law_changed_request_is_refused(
    s: Session,
    other: WorkSetFrame,
    unnamed: Option<ProtocolCode>,
    refused: Option<ProtocolCode>,
)
    requires
        s.well_formed(),
        s.work_sets is Some,
        answered(s, other.scope_id, other.sequence) is Some,
        answered(s, other.scope_id, other.sequence) != Some(request_hash(other)),
    ensures
        s.declare_fault(other, unnamed, refused) is Some,
        other.fault(s.max_entity_id, unnamed) is None && other.body().len() <= u32::MAX
            ==> s.declare_fault(other, unnamed, refused) == Some(ProtocolCode::Entity),
{
}

/// Everything that is declared in the first session is declared in the second, in its place.
pub open spec fn extends(s: Session, next: Session) -> bool {
    forall|n: u32| s.declared(n).is_prefix_of(#[trigger] next.declared(n))
}

/// The identifiers of a declaration that was taken in are declared, and so is everything that was.
pub proof fn law_declared_identifiers_stay(s: Session, frame: WorkSetFrame, next: Session)
    requires
        s.declares(frame, next),
    ensures
        extends(s, next),
        next.declared(frame.scope_id) == s.declared(frame.scope_id) + frame.entity_ids@,
        forall|id: u32|
            frame.entity_ids@.contains(id) ==> #[trigger] next.declared(frame.scope_id).contains(id),
{
    let k = scope_at(s.scopes(), frame.scope_id);
    lemma_scope_found(s.scopes(), frame.scope_id);
    let m = if k < s.scopes().len() {
        k
    } else {
        s.scopes().len() as int
    };
    assert forall|n: u32| n != frame.scope_id implies next.declared(n) == s.declared(n) by {
        let i = scope_at(s.scopes(), n);
        lemma_scope_found(s.scopes(), n);
        assert forall|j: int| 0 <= j < i implies (#[trigger] next.scopes()[j]).scope_id != n by {
            assert(s.scopes()[j].scope_id != n);
        }
        if i < s.scopes().len() {
            lemma_scope_at(next.scopes(), n, i);
        } else {
            lemma_scope_at(next.scopes(), n, next.scopes().len() as int);
        }
    }
    assert forall|j: int| 0 <= j < m implies (#[trigger] next.scopes()[j]).scope_id
        != frame.scope_id by {
        assert(s.scopes()[j].scope_id != frame.scope_id);
    }
    lemma_scope_at(next.scopes(), frame.scope_id, m);
    let before = s.declared(frame.scope_id);
    let after = next.declared(frame.scope_id);
    assert(after == before + frame.entity_ids@);
    assert(before =~= after.subrange(0, before.len() as int));
    assert forall|id: u32| frame.entity_ids@.contains(id) implies #[trigger] after.contains(id) by {
        let i = choose|i: int| 0 <= i < frame.entity_ids@.len() && frame.entity_ids@[i] == id;
        assert(after[before.len() + i] == id);
    }
    assert forall|n: u32| s.declared(n).is_prefix_of(#[trigger] next.declared(n)) by {
        if n != frame.scope_id {
            assert(s.declared(n) =~= s.declared(n).subrange(0, s.declared(n).len() as int));
        }
    }
}

/// What was declared once stays declared, however many declarations follow.
pub proof fn law_extension_is_transitive(a: Session, b: Session, c: Session)
    requires
        extends(a, b),
        extends(b, c),
    ensures
        extends(a, c),
{
    assert forall|n: u32| a.declared(n).is_prefix_of(#[trigger] c.declared(n)) by {
        assert(a.declared(n).is_prefix_of(b.declared(n)));
        assert(b.declared(n).is_prefix_of(c.declared(n)));
        assert(a.declared(n) =~= c.declared(n).subrange(0, a.declared(n).len() as int));
    }
}

fn copy_key(parent: &Option<EntityKey>) -> (r: Option<EntityKey>)
    ensures
        r == *parent,
{
    match parent {
        Some(p) => Some(*p),
        None => None,
    }
}

fn copy_ids(ids: &Vec<u32>) -> (r: Vec<u32>)
    ensures
        r@ == ids@,
{
    let mut out: Vec<u32> = Vec::new();
    append_ids(&mut out, ids);
    assert(out@ =~= ids@);
    out
}

fn append_ids(out: &mut Vec<u32>, ids: &Vec<u32>)
    ensures
        final(out)@ == old(out)@ + ids@,
{
    let mut i: usize = 0;
    assert(out@ =~= old(out)@ + ids@.take(0));
    while i < ids.len()
        invariant
            i <= ids@.len(),
            out@ == old(out)@ + ids@.take(i as int),
        decreases ids@.len() - i,
    {
        out.push(ids[i]);
        i += 1;
        assert(out@ =~= old(out)@ + ids@.take(i as int));
    }
    assert(ids@.take(i as int) =~= ids@);
}

fn acknowledge(frame: &WorkSetFrame) -> (r: WorkSetFrame)
    requires
        frame.flags <= 3,
        !acks(frame.flags),
    ensures
        acknowledges(r, *frame),
{
    WorkSetFrame {
        session_id: frame.session_id.clone(),
        producer_id: frame.producer_id,
        scope_id: frame.scope_id,
        parent: copy_key(&frame.parent),
        sequence: frame.sequence,
        entity_ids: copy_ids(&frame.entity_ids),
        flags: frame.flags + 1,
        seal_digest: frame.seal_digest,
    }
}

impl Session {
    /// A session whose work is declared before it arrives. `refused` says why a session of this
    /// identifier, depth and limit cannot be, where it cannot.
    pub fn new_sealed(
        session_id: String,
        producer_id: [u8; 16],
        depth: u8,
        limit: u32,
        max_entity_id: u32,
        refused: Option<ProtocolError>,
    ) -> (r: Result<Session, ProtocolError>)
        ensures
            match r {
                Ok(s) => {
                    &&& !is_zero(producer_id@) && refused is None
                    &&& s.session_id == session_id
                    &&& s.depth == depth
                    &&& s.max_entities_per_scope == limit
                    &&& s.max_entity_id == max_entity_id
                    &&& s.work_sets is Some
                    &&& s.work_sets->0.producer_id == producer_id
                    &&& s.scopes().len() == 0
                    &&& s.well_formed()
                },
                Err(e) => if is_zero(producer_id@) {
                    e.code == ProtocolCode::Entity
                } else {
                    refused == Some(e)
                },
            },
    {
        if all_zero(&producer_id) {
            return Err(refuse(ProtocolCode::Entity, "producer-id is zero"));
        }
        if let Some(e) = refused {
            return Err(e);
        }
        Ok(
            Session {
                session_id,
                depth,
                max_entities_per_scope: limit,
                max_entity_id,
                work_sets: Some(WorkSets { producer_id, scopes: Vec::new() }),
            },
        )
    }

    fn find(work: &WorkSets, scope_id: u32) -> (r: Option<usize>)
        ensures
            match r {
                Some(i) => i == scope_at(work.scopes@, scope_id) && i < work.scopes@.len()
                    && work.scopes@[i as int].scope_id == scope_id,
                None => scope_at(work.scopes@, scope_id) == work.scopes@.len(),
            },
    {
        let mut i: usize = 0;
        while i < work.scopes.len()
            invariant
                i <= work.scopes@.len(),
                forall|j: int| 0 <= j < i ==> (#[trigger] work.scopes@[j]).scope_id != scope_id,
            decreases work.scopes@.len() - i,
        {
            if work.scopes[i].scope_id == scope_id {
                proof {
                    lemma_scope_at(work.scopes@, scope_id, i as int);
                }
                return Some(i);
            }
            i += 1;
        }
        proof {
            lemma_scope_at(work.scopes@, scope_id, i as int);
        }
        None
    }

    fn total(work: &WorkSets) -> (r: usize)
        requires
            declared_total(work.scopes@) <= MAX_SESSION_DECLARATIONS,
        ensures
            r == declared_total(work.scopes@),
    {
        let mut n: usize = 0;
        let mut i: usize = 0;
        assert(work.scopes@.take(0) =~= Seq::empty());
        while i < work.scopes.len()
            invariant
                i <= work.scopes@.len(),
                n == declared_total(work.scopes@.take(i as int)),
                declared_total(work.scopes@) <= MAX_SESSION_DECLARATIONS,
            decreases work.scopes@.len() - i,
        {
            proof {
                assert(work.scopes@.take(i + 1).drop_last() =~= work.scopes@.take(i as int));
                assert(work.scopes@.take(i + 1).last() == work.scopes@[i as int]);
                lemma_total_grows(work.scopes@, i + 1);
            }
            n += work.scopes[i].ids.len();
            i += 1;
        }
        assert(work.scopes@.take(i as int) =~= work.scopes@);
        n
    }

    /// Whether the request would open its scope below an entity, which the session must then allow.
    pub fn opens_scope(&self, frame: &WorkSetFrame) -> (r: bool)
        ensures
            r == (self.work_sets is Some && self.opens_child(*frame)),
    {
        match &self.work_sets {
            Some(work) => Session::find(work, frame.scope_id).is_none() && frame.parent.is_some(),
            None => false,
        }
    }

    /// Holds a request against what was declared before: whether it repeats a request, or the
    /// identifiers of its scope once it is taken in.
    fn plan(&self, work: &WorkSets, frame: &WorkSetFrame, hash: &[u8; 32], known: Option<usize>) -> (r:
        Result<Option<Vec<u32>>, ProtocolError>)
        requires
            self.work_sets == Some(*work),
            scopes_sound(work.scopes@),
            frame.valid(self.max_entity_id),
            self.addressed(*frame),
            frame.body().len() <= u32::MAX,
            hash@ == request_hash(*frame),
            match known {
                Some(i) => i == scope_at(work.scopes@, frame.scope_id) && i < work.scopes@.len(),
                None => scope_at(work.scopes@, frame.scope_id) == work.scopes@.len(),
            },
        ensures
            match r {
                Ok(None) => self.replays(*frame) && forall|refused: Option<ProtocolCode>|
                    #[trigger] self.declare_fault(*frame, None, refused) is None,
                Ok(Some(ids)) => {
                    &&& !self.replays(*frame)
                    &&& ids@ == self.declared_with(*frame)
                    &&& ascending(ids@)
                    &&& declared_total(work.scopes@) + frame.entity_ids@.len()
                        <= MAX_SESSION_DECLARATIONS
                    &&& frame.sequence == self.requested(frame.scope_id)
                    &&& forall|refused: Option<ProtocolCode>|
                        #[trigger] self.declare_fault(*frame, None, refused) == (if self.opens_child(
                            *frame,
                        ) {
                            refused
                        } else {
                            None
                        })
                },
                Err(e) => forall|refused: Option<ProtocolCode>|
                    #[trigger] self.declare_fault(*frame, None, refused) == Some(e.code),
            },
    {
        let mut ids: Vec<u32> = Vec::new();
        match known {
            Some(k) => {
                let scope = &work.scopes[k];
                if frame.sequence < scope.requests.len() as u64 {
                    if same_octets(&scope.requests[frame.sequence as usize], hash) {
                        return Ok(None);
                    }
                    return Err(refuse(ProtocolCode::Entity, "WORK_SET sequence changed"));
                }
                let after = scope.ids.len() == 0 || frame.entity_ids.len() == 0
                    || scope.ids[scope.ids.len() - 1] < frame.entity_ids[0];
                if frame.sequence != scope.requests.len() as u64 || scope.seal_digest.is_some()
                    || scope.parent != frame.parent || !after {
                    return Err(
                        refuse(ProtocolCode::Entity, "late, reordered or conflicting WORK_SET"),
                    );
                }
                append_ids(&mut ids, &scope.ids);
                assert(ids@ =~= self.declared(frame.scope_id));
            },
            None => {
                if frame.sequence != 0 {
                    return Err(
                        refuse(ProtocolCode::Entity, "late, reordered or conflicting WORK_SET"),
                    );
                }
                assert(ids@ =~= self.declared(frame.scope_id));
            },
        }
        append_ids(&mut ids, &frame.entity_ids);
        proof {
            let held = self.declared(frame.scope_id);
            let k = scope_at(work.scopes@, frame.scope_id);
            if k < work.scopes@.len() {
                lemma_total_part(work.scopes@, k);
            }
            assert forall|i: int, j: int| 0 <= i < j < ids@.len() implies #[trigger] ids@[i]
                < #[trigger] ids@[j] by {
                if j < held.len() {
                    assert(held[i] < held[j]);
                } else if i >= held.len() {
                    assert(frame.entity_ids@[i - held.len()] < frame.entity_ids@[j - held.len()]);
                } else {
                    assert(i < held.len() - 1 ==> held[i] < held[held.len() - 1]);
                    assert(j > held.len() ==> frame.entity_ids@[0] < frame.entity_ids@[j
                        - held.len()]);
                }
            }
        }
        if Session::total(work) + frame.entity_ids.len() > MAX_SESSION_DECLARATIONS {
            return Err(refuse(ProtocolCode::Limit, "session declaration budget exhausted"));
        }
        if ids.len() == 0 || ids.len() as u64 > self.max_entities_per_scope as u64 {
            return Err(refuse(ProtocolCode::Limit, "work-set entity count is invalid"));
        }
        // Validate the complete seal before mutating a scope or manifest.
        match &frame.seal_digest {
            Some(expected) => {
                let actual = seal_digest(
                    self.session_id.as_str(),
                    &work.producer_id,
                    frame.scope_id,
                    copy_key(&frame.parent),
                    &ids,
                );
                if !same_octets(&actual, expected) {
                    return Err(
                        refuse(
                            ProtocolCode::Integrity,
                            "work-set seal differs from declarations",
                        ),
                    );
                }
            },
            None => {},
        }
        Ok(Some(ids))
    }

    /// Everything that is asked of a declaration before its scope is opened: where its scope stands,
    /// the identifiers of its scope once it is taken in, and its hash; nothing where it repeats a
    /// request.
    fn weigh(&self, frame: &WorkSetFrame, unnamed: Option<ProtocolError>) -> (r: Result<
        Option<(Option<usize>, Vec<u32>, [u8; 32])>,
        ProtocolError,
    >)
        requires
            self.well_formed(),
        ensures
            match r {
                Ok(None) => self.replays(*frame) && forall|refused: Option<ProtocolCode>|
                    #[trigger] self.declare_fault(*frame, code_of(unnamed), refused) is None,
                Ok(Some((known, ids, hash))) => {
                    &&& self.work_sets is Some
                    &&& !self.replays(*frame)
                    &&& hash@ == request_hash(*frame)
                    &&& ids@ == self.declared_with(*frame)
                    &&& ascending(ids@)
                    &&& frame.sequence == self.requested(frame.scope_id)
                    &&& declared_total(self.scopes()) + frame.entity_ids@.len()
                        <= MAX_SESSION_DECLARATIONS
                    &&& match known {
                        Some(i) => i == scope_at(self.scopes(), frame.scope_id) && i
                            < self.scopes().len() && self.scopes()[i as int].scope_id
                            == frame.scope_id && self.scopes()[i as int].parent == frame.parent,
                        None => scope_at(self.scopes(), frame.scope_id) == self.scopes().len(),
                    }
                    &&& forall|refused: Option<ProtocolCode>|
                        #[trigger] self.declare_fault(*frame, code_of(unnamed), refused) == (
                        if self.opens_child(*frame) {
                            refused
                        } else {
                            None
                        })
                },
                Err(e) => forall|refused: Option<ProtocolCode>|
                    #[trigger] self.declare_fault(*frame, code_of(unnamed), refused) == Some(e.code),
            },
    {
        let ghost absent = code_of(unnamed);
        frame.validate(self.max_entity_id, unnamed)?;
        assert(absent == None::<ProtocolCode>);
        match &self.work_sets {
            None => {
                return Err(
                    refuse(ProtocolCode::Entity, "session is not a sealed-work session"),
                );
            },
            Some(work) => {
                if frame.flags % 2 == 1 || !same_octets(
                    frame.session_id.as_str().as_bytes(),
                    self.session_id.as_str().as_bytes(),
                ) || !same_octets(&frame.producer_id, &work.producer_id) {
                    proof {
                        if encode_utf8(frame.session_id@) == encode_utf8(self.session_id@) {
                            labels::lemma_text_injective(frame.session_id@, self.session_id@);
                        }
                    }
                    return Err(
                        refuse(
                            ProtocolCode::Entity,
                            "WORK_SET producer, session or direction mismatch",
                        ),
                    );
                }
                proof {
                    labels::lemma_text_injective(frame.session_id@, self.session_id@);
                }
                let encoded = encode(frame, self.max_entity_id, None)?;
                let mut hasher = hash_start();
                hash_update(&mut hasher, encoded.as_slice());
                assert(hashing::absorbed(hasher) =~= messages::framed(
                    FRAME_WORK_SET,
                    frame.body(),
                ));
                let hash = hash_finish(&hasher);
                let known = Session::find(work, frame.scope_id);
                match self.plan(work, frame, &hash, known)? {
                    None => {
                        assert forall|refused: Option<ProtocolCode>|
                            #[trigger] self.declare_fault(*frame, absent, refused) is None by {
                            assert(self.declare_fault(*frame, None, refused) is None);
                        }
                        Ok(None)
                    },
                    Some(ids) => {
                        assert(self.declare_fault(*frame, None, None) is None);
                        assert(known is Some ==> self.scopes()[known->0 as int].parent
                            == frame.parent);
                        Ok(Some((known, ids, hash)))
                    },
                }
            },
        }
    }

    /// Whether a declaration is accepted, up to the opening of its scope below an entity: refuses
    /// what is refused whether or not that scope can be opened, and says where that decides.
    pub fn examine_work(&self, frame: &WorkSetFrame, unnamed: Option<ProtocolError>) -> (r: Result<
        Standing,
        ProtocolError,
    >)
        requires
            self.well_formed(),
        ensures
            match r {
                Ok(standing) => {
                    &&& standing == if self.replays(*frame) {
                        Standing::Repeated
                    } else if self.opens_child(*frame) {
                        Standing::Opening
                    } else {
                        Standing::Accepted
                    }
                    &&& forall|refused: Option<ProtocolCode>|
                        #[trigger] self.declare_fault(*frame, code_of(unnamed), refused) == (
                        if standing is Opening {
                            refused
                        } else {
                            None
                        })
                },
                Err(e) => forall|refused: Option<ProtocolCode>|
                    #[trigger] self.declare_fault(*frame, code_of(unnamed), refused) == Some(e.code),
            },
    {
        match self.weigh(frame, unnamed)? {
            None => Ok(Standing::Repeated),
            Some((known, _, _)) => if known.is_none() && frame.parent.is_some() {
                Ok(Standing::Opening)
            } else {
                Ok(Standing::Accepted)
            },
        }
    }

    /// Takes in a declaration of the producer. `unnamed` says why the frame's session identifier is
    /// none, where it is none, and `refused` why the scope could not be opened below its parent, where
    /// the request opens it and it could not.
    pub fn declare_work(
        &mut self,
        frame: &WorkSetFrame,
        unnamed: Option<ProtocolError>,
        refused: Option<ProtocolError>,
    ) -> (r: Result<WorkSetFrame, ProtocolError>)
        requires
            old(self).well_formed(),
        ensures
            final(self).well_formed(),
            old(self).takes(*frame, code_of(unnamed), code_of(refused), r, *final(self)),
    {
        let (known, ids, hash) = match self.weigh(frame, unnamed)? {
            Some(step) => step,
            None => {
                assert(self.declare_fault(*frame, code_of(unnamed), code_of(refused)) is None);
                return Ok(acknowledge(frame));
            },
        };
        if known.is_none() && frame.parent.is_some() {
            match refused {
                Some(e) => {
                    return Err(e);
                },
                None => {},
            }
        }
        let ack = acknowledge(frame);
        self.insert(frame, known, ids, hash);
        Ok(ack)
    }

    fn insert(&mut self, frame: &WorkSetFrame, known: Option<usize>, ids: Vec<u32>, hash: [u8; 32])
        requires
            old(self).well_formed(),
            old(self).work_sets is Some,
            hash@ == request_hash(*frame),
            ids@ == old(self).declared_with(*frame),
            ascending(ids@),
            frame.sequence == old(self).requested(frame.scope_id),
            declared_total(old(self).scopes()) + frame.entity_ids@.len() <= MAX_SESSION_DECLARATIONS,
            match known {
                Some(i) => i == scope_at(old(self).scopes(), frame.scope_id) && i < old(
                    self,
                ).scopes().len() && old(self).scopes()[i as int].scope_id == frame.scope_id && old(
                    self,
                ).scopes()[i as int].parent == frame.parent,
                None => scope_at(old(self).scopes(), frame.scope_id) == old(self).scopes().len(),
            },
        ensures
            final(self).well_formed(),
            old(self).declares(*frame, *final(self)),
    {
        let ghost before = *self;
        match &mut self.work_sets {
            Some(work) => match known {
                Some(k) => {
                    work.scopes[k].ids = ids;
                    work.scopes[k].requests.push(hash);
                    work.scopes[k].seal_digest = frame.seal_digest;
                    proof {
                        let next = work.scopes@;
                        assert(next =~= before.scopes().update(k as int, next[k as int]));
                        lemma_total_update(before.scopes(), k as int, next[k as int]);
                    }
                },
                None => {
                    let mut requests: Vec<[u8; 32]> = Vec::new();
                    requests.push(hash);
                    let scope = DeclaredScope {
                        scope_id: frame.scope_id,
                        parent: copy_key(&frame.parent),
                        ids,
                        requests,
                        seal_digest: frame.seal_digest,
                    };
                    work.scopes.push(scope);
                    proof {
                        let next = work.scopes@;
                        assert(next =~= before.scopes().push(next.last()));
                        assert(next.drop_last() =~= before.scopes());
                        lemma_scope_found(before.scopes(), frame.scope_id);
                    }
                },
            },
            None => {},
        }
    }

    /// Whether a scope is sealed and every identifier declared in it is resolved.
    pub fn work_scope_ready(&self, scope_id: u32, resolved: &Vec<u32>) -> (r: bool)
        ensures
            r == self.ready(scope_id, resolved@),
    {
        match &self.work_sets {
            Some(work) => match Session::find(work, scope_id) {
                Some(k) => {
                    if work.scopes[k].seal_digest.is_none() {
                        return false;
                    }
                    all_contained(&work.scopes[k].ids, resolved)
                },
                None => false,
            },
            None => false,
        }
    }

    /// Work arrives only where it was declared. A session without declarations takes any.
    pub fn work_admission(&self, key: EntityKey, parent: Option<EntityKey>) -> (r: Result<
        (),
        ProtocolError,
    >)
        ensures
            match r {
                Ok(_) => self.admits(key, parent),
                Err(e) => !self.admits(key, parent) && e.code == ProtocolCode::Entity,
            },
    {
        match &self.work_sets {
            Some(work) => match Session::find(work, key.scope_id) {
                Some(k) => {
                    if work.scopes[k].parent != parent || !contains_id(
                        &work.scopes[k].ids,
                        key.entity_id,
                    ) {
                        return Err(
                            refuse(
                                ProtocolCode::Entity,
                                "entity was not declared in this work set",
                            ),
                        );
                    }
                    Ok(())
                },
                None => Err(refuse(ProtocolCode::Entity, "scope has no declaration")),
            },
            None => Ok(()),
        }
    }
}

proof fn lemma_total_grows(scopes: Seq<DeclaredScope>, i: int)
    requires
        0 <= i <= scopes.len(),
    ensures
        declared_total(scopes.take(i)) <= declared_total(scopes),
    decreases scopes.len() - i,
{
    if i < scopes.len() {
        assert(scopes.take(i + 1).drop_last() =~= scopes.take(i));
        lemma_total_grows(scopes, i + 1);
    } else {
        assert(scopes.take(i) =~= scopes);
    }
}

fn all_contained(ids: &Vec<u32>, resolved: &Vec<u32>) -> (r: bool)
    ensures
        r == forall|i: int| 0 <= i < ids@.len() ==> resolved@.contains(#[trigger] ids@[i]),
{
    let mut i: usize = 0;
    while i < ids.len()
        invariant
            i <= ids@.len(),
            forall|j: int| 0 <= j < i ==> resolved@.contains(#[trigger] ids@[j]),
        decreases ids@.len() - i,
    {
        if !contains_id(resolved, ids[i]) {
            assert(!resolved@.contains(ids@[i as int]));
            return false;
        }
        i += 1;
    }
    true
}

fn contains_id(ids: &Vec<u32>, id: u32) -> (r: bool)
    ensures
        r == ids@.contains(id),
{
    let mut i: usize = 0;
    while i < ids.len()
        invariant
            i <= ids@.len(),
            forall|j: int| 0 <= j < i ==> ids@[j] != id,
        decreases ids@.len() - i,
    {
        if ids[i] == id {
            assert(ids@[i as int] == id);
            return true;
        }
        i += 1;
    }
    false
}

} // verus!
