//! Recoverable raw exports inside an explicitly initialized private directory.
//! Immutable intent precedes copying. Files outside this directory are never
//! scanned, adopted, overwritten, or removed.

use super::super::authority::store::{protocol, Fault, StoreError};
use super::super::error::{ErrorCode, MAX_CONTROL_LIMIT, MAX_NUMBER};
use super::super::labels::{self, Digest, IdentityLabel, OperationId};
use super::super::numbers::OutputIndex;
use super::super::records::Manifest;
use super::super::wire::{same_octets, Wire};
use super::references::RetainedReference;
use super::results::{self, binding, LocalResult};
use super::storage::push_be;
use crate::cbor;
use crate::hashing::{self, hash_finish, hash_start, hash_update, Hasher};
use crate::text::{self, ascii_string, find_octet, push_all};
use vstd::prelude::*;
use vstd::slice::slice_subrange;
use vstd::utf8::*;

verus! {

/// The length of an intent's record.
pub const RECORD: usize = 112;

/// How many exports a directory holds at most, and how many octets.
#[derive(Clone, Copy, Debug, PartialEq, Eq, Structural)]
pub struct ExportPolicy {
    pub objects: u64,
    pub bytes: u64,
}

#[derive(Clone, Copy, Debug, PartialEq, Eq, Structural)]
pub struct ExportUsage {
    pub intents: usize,
    pub charged_bytes: u64,
    pub recovered_stages: usize,
}

/// What an export commits to.
#[derive(Clone, Copy, Debug, PartialEq, Eq)]
pub struct ExportIntent {
    pub length: u64,
    pub sha256: Digest,
    pub selection: Digest,
}

/// The octets before the checksum.
pub open spec fn record_front(i: ExportIntent) -> Seq<u8> {
    encode_utf8("PSXINT01"@) + cbor::be_bytes(i.length as nat, 8) + i.sha256.0@ + i.selection.0@
}

/// The record of an intent.
pub open spec fn record_of(i: ExportIntent) -> Seq<u8> {
    record_front(i) + hashing::sha256(record_front(i))
}

/// The octets are the record of the intent.
pub open spec fn records(i: ExportIntent, bytes: Seq<u8>) -> bool {
    bytes.len() == RECORD && bytes == record_of(i)
}

/// The intent that the octets record, if they record one.
pub open spec fn recorded(bytes: Seq<u8>) -> Option<ExportIntent> {
    if exists|i: ExportIntent| #[trigger] records(i, bytes) {
        Some(choose|i: ExportIntent| #[trigger] records(i, bytes))
    } else {
        None
    }
}

proof fn lemma_magic()
    ensures
        encode_utf8("PSXINT01"@).len() == 8,
        encode_utf8("PSXROOT1"@).len() == 8,
{
    reveal_strlit("PSXINT01");
    reveal_strlit("PSXROOT1");
    assert(is_ascii_chars("PSXINT01"@));
    assert(is_ascii_chars("PSXROOT1"@));
    is_ascii_chars_encode_utf8("PSXINT01"@);
    is_ascii_chars_encode_utf8("PSXROOT1"@);
}

/// Octets are the big-endian octets of their value.
proof fn lemma_be_again(s: Seq<u8>)
    ensures
        cbor::be_bytes(cbor::be_value(s), s.len()) == s,
    decreases s.len(),
{
    if s.len() > 0 {
        lemma_be_again(s.drop_last());
        let front = cbor::be_value(s.drop_last());
        let n = cbor::be_value(s);
        assert(n / 256 == front);
        assert(n % 256 == s.last() as nat);
        assert(cbor::be_bytes(n, s.len()) =~= s);
    } else {
        assert(cbor::be_bytes(cbor::be_value(s), 0) =~= s);
    }
}

proof fn lemma_front(i: ExportIntent)
    ensures
        record_front(i).len() == 80,
        record_front(i).subrange(0, 8) == encode_utf8("PSXINT01"@),
        record_front(i).subrange(8, 16) == cbor::be_bytes(i.length as nat, 8),
        record_front(i).subrange(16, 48) == i.sha256.0@,
        record_front(i).subrange(48, 80) == i.selection.0@,
        cbor::be_value(cbor::be_bytes(i.length as nat, 8)) == i.length,
{
    lemma_magic();
    lemma_range_8();
    cbor::lemma_be_bytes(i.length as nat, 8);
    let f = record_front(i);
    assert(f.subrange(0, 8) =~= encode_utf8("PSXINT01"@));
    assert(f.subrange(8, 16) =~= cbor::be_bytes(i.length as nat, 8));
    assert(f.subrange(16, 48) =~= i.sha256.0@);
    assert(f.subrange(48, 80) =~= i.selection.0@);
}

proof fn lemma_range_8()
    ensures
        cbor::octet_range(8) == 0x1_0000_0000_0000_0000,
{
    reveal_with_fuel(cbor::octet_range, 9);
}

/// A record determines its intent.
pub proof fn law_record_determines_intent(a: ExportIntent, b: ExportIntent, bytes: Seq<u8>)
    requires
        records(a, bytes),
        records(b, bytes),
    ensures
        a == b,
{
    lemma_front(a);
    lemma_front(b);
    assert(record_front(a) =~= bytes.take(80));
    assert(record_front(b) =~= bytes.take(80));
    labels::lemma_digest_of(a.sha256);
    labels::lemma_digest_of(b.sha256);
    labels::lemma_digest_of(a.selection);
    labels::lemma_digest_of(b.selection);
}

fn digest_at(bytes: &[u8], at: usize) -> (r: Digest)
    requires
        at + 32 <= bytes@.len(),
    ensures
        r.0@ == bytes@.subrange(at as int, at + 32),
{
    let mut out: [u8; 32] = [0u8; 32];
    let mut i: usize = 0;
    let count = bytes.len();
    while i < 32
        invariant
            i <= 32,
            count == bytes@.len(),
            at + 32 <= count,
            out@.len() == 32,
            forall|j: int| 0 <= j < i ==> out@[j] == bytes@[at + j],
        decreases 32 - i,
    {
        out.set(i, bytes[at + i]);
        i += 1;
    }
    assert(out@ =~= bytes@.subrange(at as int, at + 32));
    Digest(out)
}

/// The number in eight octets.
fn number_at(bytes: &[u8], at: usize) -> (r: u64)
    requires
        at + 8 <= bytes@.len(),
    ensures
        r == cbor::be_value(bytes@.subrange(at as int, at + 8)),
{
    let ghost s = bytes@.subrange(at as int, at + 8);
    let mut n: u64 = 0;
    let mut i: usize = 0;
    let count = bytes.len();
    assert(s.take(0) =~= Seq::empty());
    while i < 8
        invariant
            i <= 8,
            count == bytes@.len(),
            at + 8 <= count,
            s == bytes@.subrange(at as int, at + 8),
            n == cbor::be_value(s.take(i as int)),
            n < cbor::octet_range(i as nat),
        decreases 8 - i,
    {
        proof {
            lemma_range_8();
            lemma_range_grows(i as nat, 7);
            assert(s.take(i + 1).drop_last() =~= s.take(i as int));
            assert(s.take(i + 1).last() == bytes@[at + i]);
            reveal_with_fuel(cbor::octet_range, 2);
            assert(n * 256 + 255 < 256 * cbor::octet_range(i as nat));
        }
        n = n * 256 + bytes[at + i] as u64;
        i += 1;
    }
    assert(s.take(8) =~= s);
    n
}

proof fn lemma_range_grows(a: nat, b: nat)
    requires
        a <= b,
        b <= 7,
    ensures
        cbor::octet_range(a) <= cbor::octet_range(b) <= 0x100_0000_0000_0000,
    decreases b - a,
{
    reveal_with_fuel(cbor::octet_range, 8);
    if a < b {
        lemma_range_grows(a + 1, b);
        assert(cbor::octet_range(a) <= cbor::octet_range(a + 1));
    }
}

/// The directory is damaged, and the text says how.
pub open spec fn damage(e: StoreError, text: Seq<char>) -> bool {
    e matches StoreError::Corrupt(t) && t@ == text
}

impl ExportIntent {
    pub fn encode(&self) -> (r: Vec<u8>)
        ensures
            records(*self, r@),
    {
        let mut bytes: Vec<u8> = Vec::new();
        push_all(&mut bytes, "PSXINT01".as_bytes());
        push_be(&mut bytes, self.length, 8);
        push_all(&mut bytes, &self.sha256.0);
        push_all(&mut bytes, &self.selection.0);
        assert(bytes@ =~= record_front(*self));
        let mut hasher = hash_start();
        hash_update(&mut hasher, bytes.as_slice());
        assert(hashing::absorbed(hasher) =~= record_front(*self));
        let checksum = hash_finish(&hasher);
        push_all(&mut bytes, &checksum);
        proof {
            lemma_front(*self);
            assert(bytes@ =~= record_of(*self));
        }
        bytes
    }

    /// Accepts exactly the records of intents.
    pub fn decode(bytes: &[u8]) -> (r: Result<ExportIntent, StoreError>)
        ensures
            match r {
                Ok(i) => records(i, bytes@) && recorded(bytes@) == Some(i),
                Err(e) => recorded(bytes@) is None && damage(e, "invalid export intent"@),
            },
    {
        let ghost found = exists|i: ExportIntent| #[trigger] records(i, bytes@);
        let ghost w = choose|i: ExportIntent| #[trigger] records(i, bytes@);
        proof {
            lemma_magic();
            if found {
                lemma_front(w);
                assert(record_front(w) =~= bytes@.take(80));
                assert(bytes@.subrange(0, 8) =~= record_front(w).subrange(0, 8));
                assert(bytes@.subrange(80, 112) =~= hashing::sha256(record_front(w)));
            }
        }
        if bytes.len() != RECORD {
            return Err(StoreError::Corrupt("invalid export intent"));
        }
        let front = slice_subrange(bytes, 0, 80);
        let mut hasher = hash_start();
        hash_update(&mut hasher, front);
        let checksum = hash_finish(&hasher);
        assert(front@ =~= bytes@.take(80));
        assert(hashing::absorbed(hasher) =~= front@);
        if !same_octets(slice_subrange(bytes, 0, 8), "PSXINT01".as_bytes()) || !same_octets(
            slice_subrange(bytes, 80, 112),
            &checksum,
        ) {
            return Err(StoreError::Corrupt("invalid export intent"));
        }
        let intent = ExportIntent {
            length: number_at(bytes, 8),
            sha256: digest_at(bytes, 16),
            selection: digest_at(bytes, 48),
        };
        proof {
            lemma_be_again(bytes@.subrange(8, 16));
            assert(record_front(intent) =~= front@);
            assert(bytes@ =~= record_of(intent));
            assert(records(intent, bytes@));
            law_record_determines_intent(intent, w, bytes@);
        }
        Ok(intent)
    }
}

/// A lower-case hexadecimal digit.
pub open spec fn hex_digit(n: nat) -> u8 {
    if n < 10 {
        (0x30 + n) as u8
    } else {
        (0x61 + n - 10) as u8
    }
}

pub open spec fn is_hex_digit(c: u8) -> bool {
    0x30 <= c <= 0x39 || 0x61 <= c <= 0x66
}

/// Two digits for each octet.
pub open spec fn hex(s: Seq<u8>) -> Seq<u8>
    decreases s.len(),
{
    if s.len() == 0 {
        Seq::empty()
    } else {
        hex(s.drop_last()).push(hex_digit(s.last() as nat / 16)).push(
            hex_digit(s.last() as nat % 16),
        )
    }
}

pub open spec fn all_zero(s: Seq<u8>) -> bool {
    forall|i: int| 0 <= i < s.len() ==> #[trigger] s[i] == 0
}

/// Names of exports: 32 digits, not all of them zero.
pub open spec fn is_key(s: Seq<u8>) -> bool {
    &&& s.len() == 32
    &&& forall|i: int| 0 <= i < s.len() ==> is_hex_digit(#[trigger] s[i])
    &&& exists|i: int| 0 <= i < s.len() && #[trigger] s[i] != 0x30
}

proof fn lemma_hex(s: Seq<u8>)
    ensures
        hex(s).len() == 2 * s.len(),
        forall|i: int| 0 <= i < hex(s).len() ==> is_hex_digit(#[trigger] hex(s)[i]),
        forall|i: int|
            0 <= i < s.len() ==> hex(s)[2 * i] == hex_digit((#[trigger] s[i]) as nat / 16)
                && hex(s)[2 * i + 1] == hex_digit(s[i] as nat % 16),
    decreases s.len(),
{
    if s.len() > 0 {
        lemma_hex(s.drop_last());
        let front = s.drop_last();
        assert forall|i: int| 0 <= i < s.len() implies hex(s)[2 * i] == hex_digit(
            (#[trigger] s[i]) as nat / 16,
        ) && hex(s)[2 * i + 1] == hex_digit(s[i] as nat % 16) by {
            if i < front.len() {
                assert(front[i] == s[i]);
            }
        }
    }
}

/// The name of every identity but zero is the name of an export, and no two identities share one.
pub proof fn law_key_names_one_export(a: Seq<u8>, b: Seq<u8>)
    requires
        a.len() == 16,
        b.len() == 16,
        !all_zero(a),
    ensures
        is_key(hex(a)),
        hex(a) == hex(b) ==> a == b,
{
    lemma_hex(a);
    lemma_hex(b);
    let k = choose|k: int| 0 <= k < a.len() && #[trigger] a[k] != 0;
    assert(hex(a)[2 * k] != 0x30 || hex(a)[2 * k + 1] != 0x30) by {
        let n = a[k] as nat;
        assert(n / 16 < 16 && n % 16 < 16 && (n / 16 != 0 || n % 16 != 0));
    }
    if hex(a) == hex(b) {
        assert forall|i: int| 0 <= i < 16 implies a[i] == b[i] by {
            let m = a[i] as nat;
            let n = b[i] as nat;
            assert(hex_digit(m / 16) == hex_digit(n / 16));
            assert(hex_digit(m % 16) == hex_digit(n % 16));
            assert(m / 16 < 16 && n / 16 < 16 && m % 16 < 16 && n % 16 < 16);
            assert(m / 16 == n / 16 && m % 16 == n % 16);
        }
        assert(a =~= b);
    }
}

fn digit(n: u8) -> (r: u8)
    requires
        n < 16,
    ensures
        r == hex_digit(n as nat),
{
    if n < 10 {
        0x30 + n
    } else {
        0x61 + (n - 10)
    }
}

fn key_octets(id: &OperationId) -> (r: Result<Vec<u8>, StoreError>)
    ensures
        match r {
            Ok(k) => !all_zero(id.0@) && k@ == hex(id.0@),
            Err(e) => all_zero(id.0@) && e.fault() == Fault::Refused(ErrorCode::Conflict),
        },
{
    let mut out: Vec<u8> = Vec::new();
    let mut nonzero = false;
    let mut i: usize = 0;
    assert(id.0@.take(0) =~= Seq::empty());
    while i < 16
        invariant
            i <= 16,
            id.0@.len() == 16,
            out@ == hex(id.0@.take(i as int)),
            nonzero == exists|j: int| 0 <= j < i && #[trigger] id.0@[j] != 0,
        decreases 16 - i,
    {
        let b = id.0[i];
        proof {
            assert(id.0@.take(i + 1).drop_last() =~= id.0@.take(i as int));
            assert(id.0@.take(i + 1).last() == b);
            assert(id.0@[i as int] == b);
        }
        if b != 0 {
            nonzero = true;
        }
        out.push(digit(b / 16));
        out.push(digit(b % 16));
        i += 1;
    }
    assert(id.0@.take(16) =~= id.0@);
    if !nonzero {
        return Err(protocol(ErrorCode::Conflict, "zero export identity"));
    }
    Ok(out)
}

/// The name of an export.
pub fn key(id: OperationId) -> (r: Result<String, StoreError>)
    ensures
        match r {
            Ok(k) => !all_zero(id.0@) && encode_utf8(k@) == hex(id.0@),
            Err(e) => all_zero(id.0@) && e.fault() == Fault::Refused(ErrorCode::Conflict),
        },
{
    let octets = key_octets(&id)?;
    proof {
        lemma_hex(id.0@);
        assert(text::all_ascii(octets@));
    }
    Ok(ascii_string(octets))
}

fn valid_octets(key: &[u8]) -> (r: bool)
    ensures
        r == is_key(key@),
{
    if key.len() != 32 {
        return false;
    }
    let mut nonzero = false;
    let mut i: usize = 0;
    while i < 32
        invariant
            i <= 32,
            key@.len() == 32,
            forall|j: int| 0 <= j < i ==> is_hex_digit(#[trigger] key@[j]),
            nonzero == exists|j: int| 0 <= j < i && #[trigger] key@[j] != 0x30,
        decreases 32 - i,
    {
        let c = key[i];
        assert(key@[i as int] == c);
        if !((0x30 <= c && c <= 0x39) || (0x61 <= c && c <= 0x66)) {
            return false;
        }
        if c != 0x30 {
            nonzero = true;
        }
        i += 1;
    }
    nonzero
}

pub fn valid_key(key: &str) -> (r: bool)
    ensures
        r == is_key(encode_utf8(key@)),
{
    valid_octets(key.as_bytes())
}

/// The octets that bind a directory to its owner and its policy, before their checksum.
pub open spec fn root_front(
    authority: IdentityLabel,
    owner: IdentityLabel,
    policy: ExportPolicy,
) -> Seq<u8> {
    encode_utf8("PSXROOT1"@) + results::binding_digest(authority, owner).take(16)
        + cbor::be_bytes(policy.objects as nat, 8) + cbor::be_bytes(policy.bytes as nat, 8)
}

pub open spec fn policy_allowed(policy: ExportPolicy) -> bool {
    0 < policy.objects <= 1_000_000 && policy.bytes <= MAX_NUMBER
}

/// The octets that bind a directory to its owner and its policy.
pub fn configuration(authority: &IdentityLabel, owner: &IdentityLabel, policy: ExportPolicy) -> (r:
    Result<Vec<u8>, StoreError>)
    ensures
        match r {
            Ok(b) => {
                let front = root_front(*authority, *owner, policy);
                &&& policy_allowed(policy) && authority.valid() && owner.valid()
                &&& b@ == front + hashing::sha256(front)
            },
            Err(e) => if !policy_allowed(policy) {
                e.fault() == Fault::Refused(ErrorCode::LimitExceeded)
            } else {
                !(authority.valid() && owner.valid()) && e.fault() == Fault::Refused(
                    ErrorCode::FrameError,
                )
            },
        },
{
    if policy.objects == 0 || policy.objects > 1_000_000 || policy.bytes > MAX_NUMBER {
        return Err(protocol(ErrorCode::LimitExceeded, "invalid export policy"));
    }
    let identity = binding(authority, owner)?;
    let mut bytes: Vec<u8> = Vec::new();
    push_all(&mut bytes, "PSXROOT1".as_bytes());
    push_all(&mut bytes, &identity);
    push_be(&mut bytes, policy.objects, 8);
    push_be(&mut bytes, policy.bytes, 8);
    let ghost front = root_front(*authority, *owner, policy);
    assert(bytes@ =~= front);
    let mut hasher = hash_start();
    hash_update(&mut hasher, bytes.as_slice());
    assert(hashing::absorbed(hasher) =~= front);
    let checksum = hash_finish(&hasher);
    push_all(&mut bytes, &checksum);
    assert(bytes@ =~= front + hashing::sha256(front));
    Ok(bytes)
}

/// What an entry of the directory is.
#[derive(Clone, Copy, Debug, PartialEq, Eq, Structural)]
pub enum EntryKind {
    /// A committed intent.
    Record,
    /// A complete export.
    File,
    /// An export that is being copied.
    Stage,
    /// An intent that is being written.
    Unfinished,
}

/// An entry that the directory lists. The content is given where the file is as long as a record.
#[derive(Clone, Debug, PartialEq, Eq)]
pub struct FoundEntry {
    pub name: String,
    pub length: u64,
    pub content: Vec<u8>,
}

/// The directory's own files.
pub open spec fn is_reserved(name: Seq<char>) -> bool {
    encode_utf8(name) == encode_utf8("binding"@) || encode_utf8(name) == encode_utf8("export.lock"@)
}

/// What the name of an entry says: its kind, and which export it belongs to.
pub open spec fn named(name: Seq<u8>) -> Option<(EntryKind, Seq<u8>)> {
    let at = text::first_index(name, 0x2d) as int;
    let kind = name.take(at);
    let id = name.skip(at + 1);
    if at >= name.len() || !is_key(id) {
        None
    } else if kind == encode_utf8("record"@) {
        Some((EntryKind::Record, id))
    } else if kind == encode_utf8("file"@) {
        Some((EntryKind::File, id))
    } else if kind == encode_utf8("stage"@) {
        Some((EntryKind::Stage, id))
    } else if kind == encode_utf8("intent"@) {
        Some((EntryKind::Unfinished, id))
    } else {
        None
    }
}

/// What is said of the name of an entry that belongs in no such directory.
pub open spec fn name_text(name: Seq<u8>) -> Seq<char> {
    let at = text::first_index(name, 0x2d) as int;
    if at < name.len() && !is_key(name.skip(at + 1)) {
        "invalid export entry identity"@
    } else {
        "unknown export entry"@
    }
}

fn parse_name(name: &[u8]) -> (r: Result<(EntryKind, Vec<u8>), StoreError>)
    ensures
        match r {
            Ok((kind, id)) => named(name@) == Some((kind, id@)),
            Err(e) => named(name@) is None && damage(e, name_text(name@)),
        },
{
    let at = find_octet(name, 0x2d);
    if at >= name.len() {
        return Err(StoreError::Corrupt("unknown export entry"));
    }
    let kind = slice_subrange(name, 0, at);
    let rest = slice_subrange(name, at + 1, name.len());
    assert(kind@ =~= name@.take(at as int));
    assert(rest@ =~= name@.skip(at + 1));
    if !valid_octets(rest) {
        return Err(StoreError::Corrupt("invalid export entry identity"));
    }
    let mut id: Vec<u8> = Vec::new();
    push_all(&mut id, rest);
    assert(id@ =~= rest@);
    if same_octets(kind, "record".as_bytes()) {
        Ok((EntryKind::Record, id))
    } else if same_octets(kind, "file".as_bytes()) {
        Ok((EntryKind::File, id))
    } else if same_octets(kind, "stage".as_bytes()) {
        Ok((EntryKind::Stage, id))
    } else if same_octets(kind, "intent".as_bytes()) {
        Ok((EntryKind::Unfinished, id))
    } else {
        Err(StoreError::Corrupt("unknown export entry"))
    }
}

/// A committed intent and its name.
#[derive(Clone, Debug, PartialEq, Eq)]
pub struct ExportRow {
    pub id: Vec<u8>,
    pub intent: ExportIntent,
}

/// The body of an export: complete, or still a stage.
#[derive(Clone, Debug, PartialEq, Eq)]
pub struct ExportBody {
    pub id: Vec<u8>,
    pub stage: bool,
    pub length: u64,
}

/// The rows as their names and intents.
pub open spec fn rows_view(rows: Seq<ExportRow>) -> Seq<(Seq<u8>, ExportIntent)> {
    rows.map_values(|r: ExportRow| (r.id@, r.intent))
}

pub open spec fn bodies_view(rows: Seq<ExportBody>) -> Seq<(Seq<u8>, bool, u64)> {
    rows.map_values(|r: ExportBody| (r.id@, r.stage, r.length))
}

pub open spec fn ids_view(rows: Seq<Vec<u8>>) -> Seq<Seq<u8>> {
    rows.map_values(|r: Vec<u8>| r@)
}

/// What a directory holds.
pub struct Inventory {
    pub records: Seq<(Seq<u8>, ExportIntent)>,
    pub bodies: Seq<(Seq<u8>, bool, u64)>,
    pub unfinished: Seq<Seq<u8>>,
    pub count: nat,
}

pub open spec fn record_named(rows: Seq<(Seq<u8>, ExportIntent)>, id: Seq<u8>) -> bool {
    exists|i: int| 0 <= i < rows.len() && (#[trigger] rows[i]).0 == id
}

pub open spec fn body_named(rows: Seq<(Seq<u8>, bool, u64)>, id: Seq<u8>) -> bool {
    exists|i: int| 0 <= i < rows.len() && (#[trigger] rows[i]).0 == id
}

/// The inventory with one more entry, where the entry belongs in such a directory.
pub open spec fn noted(inv: Inventory, e: FoundEntry, policy: ExportPolicy) -> Option<Inventory> {
    let more = Inventory { count: inv.count + 1, ..inv };
    if is_reserved(e.name@) {
        Some(inv)
    } else if inv.count + 1 > policy.objects * 3 {
        None
    } else {
        match named(encode_utf8(e.name@)) {
            None => None,
            Some((EntryKind::Record, id)) => if e.length != RECORD || recorded(e.content@) is None
                || record_named(inv.records, id) {
                None
            } else {
                Some(Inventory { records: inv.records.push((id, recorded(e.content@)->0)), ..more })
            },
            Some((EntryKind::Unfinished, id)) => if e.length > RECORD {
                None
            } else {
                Some(Inventory { unfinished: inv.unfinished.push(id), ..more })
            },
            Some((kind, id)) => if body_named(inv.bodies, id) {
                None
            } else {
                Some(
                    Inventory {
                        bodies: inv.bodies.push((id, kind == EntryKind::Stage, e.length)),
                        ..more
                    },
                )
            },
        }
    }
}

/// What is said of an entry that does not belong in such a directory.
pub open spec fn entry_text(inv: Inventory, e: FoundEntry, policy: ExportPolicy) -> Seq<char> {
    if inv.count + 1 > policy.objects * 3 {
        "export entry ceiling exceeded"@
    } else {
        match named(encode_utf8(e.name@)) {
            None => name_text(encode_utf8(e.name@)),
            Some((EntryKind::Record, id)) => if e.length != RECORD {
                "export record length changed"@
            } else if recorded(e.content@) is None {
                "invalid export intent"@
            } else {
                "duplicate export intent"@
            },
            Some((EntryKind::Unfinished, id)) => "unfinished intent exceeds bound"@,
            Some((kind, id)) => "duplicate export body"@,
        }
    }
}

/// What is said of the first entry that does not belong in such a directory.
pub open spec fn scan_text(entries: Seq<FoundEntry>, policy: ExportPolicy) -> Seq<char>
    decreases entries.len(),
{
    if entries.len() == 0 {
        Seq::empty()
    } else {
        match scanned(entries.drop_last(), policy) {
            Some(inv) => entry_text(inv, entries.last(), policy),
            None => scan_text(entries.drop_last(), policy),
        }
    }
}

/// What the listed entries are, where all of them belong in such a directory.
pub open spec fn scanned(entries: Seq<FoundEntry>, policy: ExportPolicy) -> Option<Inventory>
    decreases entries.len(),
{
    if entries.len() == 0 {
        Some(
            Inventory {
                records: Seq::empty(),
                bodies: Seq::empty(),
                unfinished: Seq::empty(),
                count: 0,
            },
        )
    } else {
        match scanned(entries.drop_last(), policy) {
            Some(inv) => noted(inv, entries.last(), policy),
            None => None,
        }
    }
}

proof fn lemma_scan_fails(entries: Seq<FoundEntry>, policy: ExportPolicy, i: int)
    requires
        0 <= i <= entries.len(),
        scanned(entries.take(i), policy) is None,
    ensures
        scanned(entries, policy) is None,
        scan_text(entries, policy) == scan_text(entries.take(i), policy),
    decreases entries.len() - i,
{
    if i < entries.len() {
        assert(entries.take(i + 1).drop_last() =~= entries.take(i));
        lemma_scan_fails(entries, policy, i + 1);
    } else {
        assert(entries.take(i) =~= entries);
    }
}

/// The octets that intents take up together: each its body and its record.
pub open spec fn charge_of(rows: Seq<(Seq<u8>, ExportIntent)>) -> nat
    decreases rows.len(),
{
    if rows.len() == 0 {
        0
    } else {
        charge_of(rows.drop_last()) + rows.last().1.length as nat + RECORD as nat
    }
}

proof fn lemma_charge_grows(rows: Seq<(Seq<u8>, ExportIntent)>, i: int)
    requires
        0 <= i <= rows.len(),
    ensures
        charge_of(rows.take(i)) <= charge_of(rows),
    decreases rows.len() - i,
{
    if i < rows.len() {
        assert(rows.take(i + 1).drop_last() =~= rows.take(i));
        lemma_charge_grows(rows, i + 1);
    } else {
        assert(rows.take(i) =~= rows);
    }
}

/// Why the intents do not fit the policy, if they do not.
pub open spec fn charge_fault(rows: Seq<(Seq<u8>, ExportIntent)>, policy: ExportPolicy) -> Option<
    Fault,
> {
    if charge_of(rows) > u64::MAX {
        Some(Fault::Corrupt)
    } else if rows.len() > policy.objects || charge_of(rows) > policy.bytes {
        Some(Fault::Refused(ErrorCode::LimitExceeded))
    } else {
        None
    }
}

fn charge(rows: &Vec<ExportRow>, policy: ExportPolicy) -> (r: Result<u64, StoreError>)
    ensures
        match r {
            Ok(n) => charge_fault(rows_view(rows@), policy) is None && n == charge_of(
                rows_view(rows@),
            ),
            Err(e) => {
                &&& charge_fault(rows_view(rows@), policy) == Some(e.fault())
                &&& e is Corrupt ==> damage(e, "export quota overflow"@)
            },
        },
{
    let ghost v = rows_view(rows@);
    let mut total: u64 = 0;
    let mut i: usize = 0;
    assert(v.take(0) =~= Seq::empty());
    while i < rows.len()
        invariant
            i <= rows@.len(),
            v == rows_view(rows@),
            total == charge_of(v.take(i as int)),
        decreases rows@.len() - i,
    {
        proof {
            assert(v.take(i + 1).drop_last() =~= v.take(i as int));
            assert(v.take(i + 1).last() == v[i as int]);
            lemma_charge_grows(v, i + 1);
        }
        let next = match total.checked_add(rows[i].intent.length) {
            Some(n) => n.checked_add(RECORD as u64),
            None => None,
        };
        match next {
            Some(n) => {
                total = n;
            },
            None => {
                return Err(StoreError::Corrupt("export quota overflow"));
            },
        }
        i += 1;
    }
    assert(v.take(i as int) =~= v);
    if rows.len() as u64 > policy.objects || total > policy.bytes {
        return Err(protocol(ErrorCode::LimitExceeded, "export quota exhausted"));
    }
    Ok(total)
}

fn find_row(rows: &Vec<ExportRow>, id: &[u8]) -> (r: Option<usize>)
    ensures
        match r {
            Some(i) => i < rows@.len() && rows@[i as int].id@ == id@ && forall|j: int|
                0 <= j < i ==> (#[trigger] rows@[j]).id@ != id@,
            None => forall|j: int| 0 <= j < rows@.len() ==> (#[trigger] rows@[j]).id@ != id@,
        },
{
    let mut i: usize = 0;
    while i < rows.len()
        invariant
            i <= rows@.len(),
            forall|j: int| 0 <= j < i ==> (#[trigger] rows@[j]).id@ != id@,
        decreases rows@.len() - i,
    {
        if same_octets(rows[i].id.as_slice(), id) {
            return Some(i);
        }
        i += 1;
    }
    None
}

fn find_body(rows: &Vec<ExportBody>, id: &[u8]) -> (r: Option<usize>)
    ensures
        match r {
            Some(i) => i < rows@.len() && rows@[i as int].id@ == id@,
            None => forall|j: int| 0 <= j < rows@.len() ==> (#[trigger] rows@[j]).id@ != id@,
        },
{
    let mut i: usize = 0;
    while i < rows.len()
        invariant
            i <= rows@.len(),
            forall|j: int| 0 <= j < i ==> (#[trigger] rows@[j]).id@ != id@,
        decreases rows@.len() - i,
    {
        if same_octets(rows[i].id.as_slice(), id) {
            return Some(i);
        }
        i += 1;
    }
    None
}

/// What a directory holds, in memory.
struct Listing {
    records: Vec<ExportRow>,
    bodies: Vec<ExportBody>,
    unfinished: Vec<Vec<u8>>,
    count: u64,
}

impl Listing {
    spec fn model(self) -> Inventory {
        Inventory {
            records: rows_view(self.records@),
            bodies: bodies_view(self.bodies@),
            unfinished: ids_view(self.unfinished@),
            count: self.count as nat,
        }
    }
}

fn note_entry(listing: &mut Listing, e: &FoundEntry, policy: ExportPolicy) -> (r: Result<(), StoreError>)
    requires
        policy_allowed(policy),
        old(listing).count <= policy.objects * 3,
    ensures
        final(listing).count <= policy.objects * 3,
        match r {
            Ok(_) => noted(old(listing).model(), *e, policy) == Some(final(listing).model()),
            Err(x) => noted(old(listing).model(), *e, policy) is None && damage(
                x,
                entry_text(old(listing).model(), *e, policy),
            ),
        },
{
    let ghost inv = listing.model();
    let name = e.name.as_str().as_bytes();
    if same_octets(name, "binding".as_bytes()) || same_octets(name, "export.lock".as_bytes()) {
        return Ok(());
    }
    if listing.count >= policy.objects * 3 {
        return Err(StoreError::Corrupt("export entry ceiling exceeded"));
    }
    let (kind, id) = parse_name(name)?;
    match kind {
        EntryKind::Record => {
            if e.length != RECORD as u64 {
                return Err(StoreError::Corrupt("export record length changed"));
            }
            let intent = ExportIntent::decode(e.content.as_slice())?;
            let known = find_row(&listing.records, id.as_slice());
            proof {
                let rows = inv.records;
                if known is Some {
                    assert(rows[known->0 as int].0 == id@);
                } else if record_named(rows, id@) {
                    let k = choose|k: int| 0 <= k < rows.len() && (#[trigger] rows[k]).0 == id@;
                    assert(listing.records@[k].id@ == id@);
                }
            }
            if known.is_some() {
                return Err(StoreError::Corrupt("duplicate export intent"));
            }
            let ghost key = id@;
            listing.records.push(ExportRow { id, intent });
            listing.count += 1;
            assert(listing.model().records =~= inv.records.push((key, intent)));
            Ok(())
        },
        EntryKind::Unfinished => {
            if e.length > RECORD as u64 {
                return Err(StoreError::Corrupt("unfinished intent exceeds bound"));
            }
            let ghost key = id@;
            listing.unfinished.push(id);
            listing.count += 1;
            assert(listing.model().unfinished =~= inv.unfinished.push(key));
            Ok(())
        },
        _ => {
            let known = find_body(&listing.bodies, id.as_slice());
            proof {
                let rows = inv.bodies;
                if known is Some {
                    assert(rows[known->0 as int].0 == id@);
                } else if body_named(rows, id@) {
                    let k = choose|k: int| 0 <= k < rows.len() && (#[trigger] rows[k]).0 == id@;
                    assert(listing.bodies@[k].id@ == id@);
                }
            }
            if known.is_some() {
                return Err(StoreError::Corrupt("duplicate export body"));
            }
            let ghost key = id@;
            let stage = kind == EntryKind::Stage;
            listing.bodies.push(ExportBody { id, stage, length: e.length });
            listing.count += 1;
            assert(listing.model().bodies =~= inv.bodies.push((key, stage, e.length)));
            Ok(())
        },
    }
}

fn scan(entries: &Vec<FoundEntry>, policy: ExportPolicy) -> (r: Result<Listing, StoreError>)
    requires
        policy_allowed(policy),
    ensures
        match r {
            Ok(l) => scanned(entries@, policy) == Some(l.model()),
            Err(e) => scanned(entries@, policy) is None && damage(e, scan_text(entries@, policy)),
        },
{
    let mut listing = Listing {
        records: Vec::new(),
        bodies: Vec::new(),
        unfinished: Vec::new(),
        count: 0,
    };
    let mut i: usize = 0;
    proof {
        assert(entries@.take(0) =~= Seq::empty());
        assert(listing.model().records =~= Seq::empty());
        assert(listing.model().bodies =~= Seq::empty());
        assert(listing.model().unfinished =~= Seq::empty());
    }
    while i < entries.len()
        invariant
            i <= entries@.len(),
            policy_allowed(policy),
            listing.count <= policy.objects * 3,
            scanned(entries@.take(i as int), policy) == Some(listing.model()),
        decreases entries@.len() - i,
    {
        proof {
            assert(entries@.take(i + 1).drop_last() =~= entries@.take(i as int));
            assert(entries@.take(i + 1).last() == entries@[i as int]);
        }
        match note_entry(&mut listing, &entries[i], policy) {
            Ok(_) => {},
            Err(e) => {
                proof {
                    lemma_scan_fails(entries@, policy, i + 1);
                }
                return Err(e);
            },
        }
        i += 1;
    }
    assert(entries@.take(i as int) =~= entries@);
    Ok(listing)
}

/// The body belongs to a committed intent and is not longer than that, or as long where it is
/// complete.
pub open spec fn body_fits(records: Seq<(Seq<u8>, ExportIntent)>, body: (Seq<u8>, bool, u64)) -> bool {
    exists|i: int|
        0 <= i < records.len() && (#[trigger] records[i]).0 == body.0 && body.2
            <= records[i].1.length && (body.1 || body.2 == records[i].1.length)
}

/// The octets come before others in the order of names.
pub open spec fn octets_before(a: Seq<u8>, b: Seq<u8>) -> bool
    decreases a.len(),
{
    if b.len() == 0 {
        false
    } else if a.len() == 0 {
        true
    } else if a[0] != b[0] {
        a[0] < b[0]
    } else {
        octets_before(a.skip(1), b.skip(1))
    }
}

proof fn lemma_before_transitive(a: Seq<u8>, b: Seq<u8>, c: Seq<u8>)
    requires
        octets_before(a, b),
        octets_before(b, c),
    ensures
        octets_before(a, c),
    decreases a.len(),
{
    if a.len() > 0 && a[0] == b[0] && b[0] == c[0] {
        lemma_before_transitive(a.skip(1), b.skip(1), c.skip(1));
    }
}

proof fn lemma_before_irreflexive(a: Seq<u8>)
    ensures
        !octets_before(a, a),
    decreases a.len(),
{
    if a.len() > 0 {
        lemma_before_irreflexive(a.skip(1));
    }
}

fn comes_before(a: &[u8], b: &[u8]) -> (r: bool)
    ensures
        r == octets_before(a@, b@),
{
    let mut i: usize = 0;
    assert(a@.skip(0) =~= a@ && b@.skip(0) =~= b@);
    while i < a.len() && i < b.len()
        invariant
            i <= a@.len(),
            i <= b@.len(),
            octets_before(a@, b@) == octets_before(a@.skip(i as int), b@.skip(i as int)),
        decreases a@.len() - i,
    {
        assert(a@.skip(i as int).skip(1) =~= a@.skip(i + 1));
        assert(b@.skip(i as int).skip(1) =~= b@.skip(i + 1));
        if a[i] != b[i] {
            return a[i] < b[i];
        }
        i += 1;
    }
    i < b.len()
}

/// What is said of a body that does not fit.
pub open spec fn body_text(
    records: Seq<(Seq<u8>, ExportIntent)>,
    body: (Seq<u8>, bool, u64),
) -> Seq<char> {
    if record_named(records, body.0) {
        "export body length changed"@
    } else {
        "export body has no committed intent"@
    }
}

/// The text is what is said of the first body, in the order of names, that does not fit.
pub open spec fn bodies_text(inv: Inventory, text: Seq<char>) -> bool {
    exists|i: int|
        {
            &&& 0 <= i < inv.bodies.len()
            &&& !body_fits(inv.records, #[trigger] inv.bodies[i])
            &&& text == body_text(inv.records, inv.bodies[i])
            &&& forall|j: int|
                0 <= j < inv.bodies.len() && octets_before(
                    (#[trigger] inv.bodies[j]).0,
                    inv.bodies[i].0,
                ) ==> body_fits(inv.records, inv.bodies[j])
        }
}

/// What is said of a directory that is damaged.
pub open spec fn inventory_text(
    entries: Seq<FoundEntry>,
    policy: ExportPolicy,
    text: Seq<char>,
) -> bool {
    match scanned(entries, policy) {
        None => text == scan_text(entries, policy),
        Some(inv) => if charge_fault(inv.records, policy) is Some {
            text == "export quota overflow"@
        } else if inv.records.len() + inv.unfinished.len() > policy.objects {
            text == "export intent count exceeds quota"@
        } else if charge_of(inv.records) + inv.unfinished.len() * RECORD > policy.bytes {
            text == "unfinished export intents exceed quota"@
        } else if exists|i: int|
            0 <= i < inv.bodies.len() && !body_fits(inv.records, #[trigger] inv.bodies[i]) {
            bodies_text(inv, text)
        } else {
            text == "ambiguous export intent"@
        },
    }
}

/// What the directory holds fits together.
pub open spec fn coherent(inv: Inventory, policy: ExportPolicy) -> bool {
    &&& inv.records.len() + inv.unfinished.len() <= policy.objects
    &&& charge_of(inv.records) + inv.unfinished.len() * RECORD <= policy.bytes
    &&& forall|i: int| 0 <= i < inv.bodies.len() ==> body_fits(inv.records, #[trigger] inv.bodies[i])
    &&& forall|i: int|
        0 <= i < inv.unfinished.len() ==> !record_named(
            inv.records,
            #[trigger] inv.unfinished[i],
        ) && !body_named(inv.bodies, inv.unfinished[i])
}

/// Why a directory is not opened, if it is not.
pub open spec fn inventory_fault(entries: Seq<FoundEntry>, policy: ExportPolicy) -> Option<Fault> {
    match scanned(entries, policy) {
        None => Some(Fault::Corrupt),
        Some(inv) => if charge_fault(inv.records, policy) is Some {
            charge_fault(inv.records, policy)
        } else if !coherent(inv, policy) {
            Some(Fault::Corrupt)
        } else {
            None
        },
    }
}

/// Names are those of different exports.
pub open spec fn distinct(rows: Seq<(Seq<u8>, ExportIntent)>) -> bool {
    forall|i: int, j: int|
        0 <= i < j < rows.len() ==> (#[trigger] rows[i]).0 != (#[trigger] rows[j]).0
}

proof fn lemma_scan_distinct(entries: Seq<FoundEntry>, policy: ExportPolicy)
    ensures
        scanned(entries, policy) matches Some(inv) ==> distinct(inv.records),
    decreases entries.len(),
{
    if entries.len() > 0 {
        lemma_scan_distinct(entries.drop_last(), policy);
        if scanned(entries, policy) is Some {
            let before = scanned(entries.drop_last(), policy)->0;
            let after = scanned(entries, policy)->0;
            assert forall|i: int, j: int| 0 <= i < j < after.records.len() implies (
            #[trigger] after.records[i]).0 != (#[trigger] after.records[j]).0 by {
                if j == before.records.len() {
                    assert(before.records[i] == after.records[i]);
                    assert(!record_named(before.records, after.records[j].0));
                }
            }
        }
    }
}

fn check_bodies(listing: &Listing) -> (r: Result<(), StoreError>)
    requires
        distinct(listing.model().records),
    ensures
        match r {
            Ok(_) => forall|i: int|
                0 <= i < listing.model().bodies.len() ==> body_fits(
                    listing.model().records,
                    #[trigger] listing.model().bodies[i],
                ),
            Err(e) => {
                &&& exists|i: int|
                    0 <= i < listing.model().bodies.len() && !body_fits(
                        listing.model().records,
                        #[trigger] listing.model().bodies[i],
                    )
                &&& e matches StoreError::Corrupt(t) && bodies_text(listing.model(), t@)
            },
        },
{
    let ghost records = listing.model().records;
    let ghost bodies = listing.model().bodies;
    let mut first: Option<(usize, &'static str)> = None;
    let mut i: usize = 0;
    while i < listing.bodies.len()
        invariant
            i <= listing.bodies@.len(),
            records == listing.model().records,
            bodies == listing.model().bodies,
            distinct(records),
            match first {
                None => forall|j: int| 0 <= j < i ==> body_fits(records, #[trigger] bodies[j]),
                Some((k, t)) => {
                    &&& 0 <= k < i
                    &&& !body_fits(records, bodies[k as int])
                    &&& t@ == body_text(records, bodies[k as int])
                    &&& forall|j: int|
                        0 <= j < i && octets_before((#[trigger] bodies[j]).0, bodies[k as int].0)
                            ==> body_fits(records, bodies[j])
                },
            },
        decreases listing.bodies@.len() - i,
    {
        let body = &listing.bodies[i];
        let found = find_row(&listing.records, body.id.as_slice());
        let fits = match found {
            Some(k) => body.length <= listing.records[k].intent.length && (body.stage
                || body.length == listing.records[k].intent.length),
            None => false,
        };
        proof {
            let b = bodies[i as int];
            assert(b == (body.id@, body.stage, body.length));
            if found is Some {
                let k = found->0 as int;
                assert(records[k].0 == b.0);
                assert(record_named(records, b.0));
                if body_fits(records, b) {
                    let m = choose|m: int|
                        0 <= m < records.len() && (#[trigger] records[m]).0 == b.0 && b.2
                            <= records[m].1.length && (b.1 || b.2 == records[m].1.length);
                    if m < k {
                        assert(records[m].0 != records[k].0);
                    } else if k < m {
                        assert(records[k].0 != records[m].0);
                    }
                }
            } else {
                if body_fits(records, b) {
                    let m = choose|m: int|
                        0 <= m < records.len() && (#[trigger] records[m]).0 == b.0 && b.2
                            <= records[m].1.length && (b.1 || b.2 == records[m].1.length);
                    assert(listing.records@[m].id@ == b.0);
                }
                if record_named(records, b.0) {
                    let m = choose|m: int|
                        0 <= m < records.len() && (#[trigger] records[m]).0 == b.0;
                    assert(listing.records@[m].id@ == b.0);
                }
            }
            assert(fits == body_fits(records, b));
            lemma_before_irreflexive(b.0);
        }
        let earlier = match first {
            None => true,
            Some((k, _)) => comes_before(body.id.as_slice(), listing.bodies[k].id.as_slice()),
        };
        if !fits && earlier {
            proof {
                if first is Some {
                    let k = (first->0).0 as int;
                    assert(bodies[k].0 == listing.bodies@[k].id@);
                    assert forall|j: int| 0 <= j < i && octets_before(
                        (#[trigger] bodies[j]).0,
                        bodies[i as int].0,
                    ) implies body_fits(records, bodies[j]) by {
                        lemma_before_transitive(bodies[j].0, bodies[i as int].0, bodies[k].0);
                    }
                }
            }
            let text = if found.is_some() {
                "export body length changed"
            } else {
                "export body has no committed intent"
            };
            first = Some((i, text));
        } else {
            proof {
                if first is Some {
                    let k = (first->0).0 as int;
                    assert(bodies[k].0 == listing.bodies@[k].id@);
                }
            }
        }
        i += 1;
    }
    match first {
        None => Ok(()),
        Some((k, text)) => {
            assert(!body_fits(listing.model().records, listing.model().bodies[k as int]));
            Err(StoreError::Corrupt(text))
        },
    }
}

fn check_unfinished(listing: &Listing) -> (r: bool)
    ensures
        r == forall|i: int|
            0 <= i < listing.model().unfinished.len() ==> !record_named(
                listing.model().records,
                #[trigger] listing.model().unfinished[i],
            ) && !body_named(listing.model().bodies, listing.model().unfinished[i]),
{
    let ghost records = listing.model().records;
    let ghost bodies = listing.model().bodies;
    let ghost unfinished = listing.model().unfinished;
    let mut i: usize = 0;
    while i < listing.unfinished.len()
        invariant
            i <= listing.unfinished@.len(),
            records == listing.model().records,
            bodies == listing.model().bodies,
            unfinished == listing.model().unfinished,
            forall|j: int|
                0 <= j < i ==> !record_named(records, #[trigger] unfinished[j]) && !body_named(
                    bodies,
                    unfinished[j],
                ),
        decreases listing.unfinished@.len() - i,
    {
        let row = find_row(&listing.records, listing.unfinished[i].as_slice());
        let body = find_body(&listing.bodies, listing.unfinished[i].as_slice());
        proof {
            let id = unfinished[i as int];
            assert(id == listing.unfinished@[i as int]@);
            if row is Some {
                assert(records[row->0 as int].0 == id);
            } else if record_named(records, id) {
                let k = choose|k: int| 0 <= k < records.len() && (#[trigger] records[k]).0 == id;
                assert(listing.records@[k].id@ == id);
            }
            if body is Some {
                assert(bodies[body->0 as int].0 == id);
            } else if body_named(bodies, id) {
                let k = choose|k: int| 0 <= k < bodies.len() && (#[trigger] bodies[k]).0 == id;
                assert(listing.bodies@[k].id@ == id);
            }
        }
        if row.is_some() || body.is_some() {
            assert(record_named(records, unfinished[i as int]) || body_named(
                bodies,
                unfinished[i as int],
            ));
            return false;
        }
        i += 1;
    }
    true
}

/// What is to be removed after the complete identity, inventory and quota audit: intents that were
/// never committed, and copies that were never completed.
#[derive(Clone, Debug, PartialEq, Eq)]
pub struct Recovery {
    pub unfinished: Vec<Vec<u8>>,
    pub stages: Vec<Vec<u8>>,
}

/// The names of the bodies that are not complete.
pub open spec fn staged(bodies: Seq<(Seq<u8>, bool, u64)>) -> Seq<Seq<u8>>
    decreases bodies.len(),
{
    if bodies.len() == 0 {
        Seq::empty()
    } else if bodies.last().1 {
        staged(bodies.drop_last()).push(bodies.last().0)
    } else {
        staged(bodies.drop_last())
    }
}

fn copy_octets(s: &Vec<u8>) -> (r: Vec<u8>)
    ensures
        r@ == s@,
{
    let mut copy: Vec<u8> = Vec::new();
    push_all(&mut copy, s.as_slice());
    assert(copy@ =~= s@);
    copy
}

fn staged_ids(bodies: &Vec<ExportBody>) -> (r: Vec<Vec<u8>>)
    ensures
        ids_view(r@) == staged(bodies_view(bodies@)),
        r@.len() <= bodies@.len(),
{
    let ghost v = bodies_view(bodies@);
    let mut out: Vec<Vec<u8>> = Vec::new();
    let mut i: usize = 0;
    proof {
        assert(v.take(0) =~= Seq::empty());
        assert(ids_view(out@) =~= Seq::empty());
    }
    while i < bodies.len()
        invariant
            i <= bodies@.len(),
            out@.len() <= i,
            v == bodies_view(bodies@),
            ids_view(out@) == staged(v.take(i as int)),
        decreases bodies@.len() - i,
    {
        proof {
            assert(v.take(i + 1).drop_last() =~= v.take(i as int));
            assert(v.take(i + 1).last() == v[i as int]);
        }
        let ghost before = out@;
        if bodies[i].stage {
            let id = copy_octets(&bodies[i].id);
            out.push(id);
            assert(ids_view(out@) =~= ids_view(before).push(bodies@[i as int].id@));
        }
        i += 1;
    }
    assert(v.take(i as int) =~= v);
    out
}

/// What is to be done for an export: write the record first where the intent is new, then copy.
#[derive(Clone, Debug, PartialEq, Eq)]
pub struct ExportPlan {
    pub id: Vec<u8>,
    pub intent: ExportIntent,
    pub fresh: bool,
}

/// An export that is complete.
#[derive(Clone, Debug, PartialEq, Eq)]
pub struct Exported {
    pub path: String,
    pub replayed: bool,
}

/// Managed exports of one owner at one authority. The records stand in the order in which they were
/// found or made; their names are octets, which the specified maps cannot be keyed by.
#[derive(Clone, Debug, PartialEq, Eq)]
pub struct ExportStore {
    pub authority: IdentityLabel,
    pub owner: IdentityLabel,
    pub policy: ExportPolicy,
    pub intents: Vec<ExportRow>,
    pub recovered: usize,
    pub uncertain: bool,
}

/// The digest that names a manifest and one of its outputs.
pub open spec fn selection_digest(m: Manifest, index: OutputIndex) -> Seq<u8> {
    hashing::sha256(
        encode_utf8("PipeStream export selection v1\0"@) + m.wire() + cbor::be_bytes(
            index.0 as nat,
            8,
        ),
    )
}

/// What an export of the selection commits to.
pub open spec fn commits_to(intent: ExportIntent, reference: RetainedReference) -> bool {
    let output = results::selected(reference);
    &&& intent.length == output.length.0
    &&& intent.sha256 == output.sha256
    &&& intent.selection.0@ == selection_digest(reference.kept_manifest(), reference.kept_index())
}

/// The index of the row with a name, or the number of rows where there is none.
pub open spec fn row_at(rows: Seq<(Seq<u8>, ExportIntent)>, id: Seq<u8>) -> int
    decreases rows.len(),
{
    if rows.len() == 0 {
        0
    } else {
        let k = row_at(rows.drop_last(), id);
        if k < rows.len() - 1 {
            k
        } else if rows.last().0 == id {
            rows.len() - 1
        } else {
            rows.len() as int
        }
    }
}

pub proof fn lemma_row_at(rows: Seq<(Seq<u8>, ExportIntent)>, id: Seq<u8>, i: int)
    requires
        0 <= i <= rows.len(),
        forall|j: int| 0 <= j < i ==> (#[trigger] rows[j]).0 != id,
        i < rows.len() ==> rows[i].0 == id,
    ensures
        row_at(rows, id) == i,
    decreases rows.len(),
{
    if rows.len() > 0 {
        let front = rows.drop_last();
        assert forall|j: int| 0 <= j < front.len() && j < i implies (#[trigger] front[j]).0 != id by {
            assert(rows[j].0 != id);
        }
        if i < rows.len() {
            lemma_row_at(front, id, if i < front.len() { i } else { front.len() as int });
        } else {
            lemma_row_at(front, id, front.len() as int);
            assert(rows[rows.len() - 1].0 != id);
        }
    }
}

impl ExportStore {
    pub open spec fn rows(self) -> Seq<(Seq<u8>, ExportIntent)> {
        rows_view(self.intents@)
    }

    /// Names are different, and the intents fit the policy.
    pub open spec fn well_formed(self) -> bool {
        &&& policy_allowed(self.policy)
        &&& distinct(self.rows())
        &&& charge_fault(self.rows(), self.policy) is None
    }

    pub fn open(
        authority: IdentityLabel,
        owner: IdentityLabel,
        policy: ExportPolicy,
        found: &[u8],
        entries: &Vec<FoundEntry>,
    ) -> (r: Result<(ExportStore, Recovery), StoreError>)
        ensures
            ({
                let front = root_front(authority, owner, policy);
                let fault = if !policy_allowed(policy) {
                    Some(Fault::Refused(ErrorCode::LimitExceeded))
                } else if !(authority.valid() && owner.valid()) {
                    Some(Fault::Refused(ErrorCode::FrameError))
                } else if found@ != front + hashing::sha256(front) {
                    Some(Fault::Corrupt)
                } else {
                    inventory_fault(entries@, policy)
                };
                match r {
                    Ok((store, recovery)) => {
                        let inv = scanned(entries@, policy)->0;
                        &&& fault is None
                        &&& store.well_formed()
                        &&& store.authority == authority && store.owner == owner && store.policy
                            == policy
                        &&& store.rows() == inv.records
                        &&& !store.uncertain
                        &&& store.recovered == recovery.unfinished@.len() + recovery.stages@.len()
                        &&& ids_view(recovery.unfinished@) == inv.unfinished
                        &&& ids_view(recovery.stages@) == staged(inv.bodies)
                    },
                    Err(e) => {
                        &&& fault == Some(e.fault())
                        &&& e matches StoreError::Corrupt(t) ==> if found@.len() != (front
                            + hashing::sha256(front)).len() {
                            t@ == "export record length changed"@
                        } else if found@ != front + hashing::sha256(front) {
                            t@ == "export identity or policy changed"@
                        } else {
                            inventory_text(entries@, policy, t@)
                        }
                    },
                }
            }),
    {
        let expected = configuration(&authority, &owner, policy)?;
        if found.len() != expected.len() {
            return Err(StoreError::Corrupt("export record length changed"));
        }
        if !same_octets(found, expected.as_slice()) {
            return Err(StoreError::Corrupt("export identity or policy changed"));
        }
        let listing = scan(entries, policy)?;
        proof {
            lemma_scan_distinct(entries@, policy);
        }
        let charged = charge(&listing.records, policy)?;
        let unfinished = listing.unfinished.len();
        let ghost inv = listing.model();
        assert(inv.unfinished.len() == unfinished);
        assert(inv.records.len() == listing.records@.len());
        if listing.records.len() as u64 > policy.objects || unfinished as u64 > policy.objects
            - listing.records.len() as u64 {
            assert(!coherent(inv, policy));
            return Err(StoreError::Corrupt("export intent count exceeds quota"));
        }
        if charged + unfinished as u64 * RECORD as u64 > policy.bytes {
            assert(!coherent(inv, policy));
            return Err(StoreError::Corrupt("unfinished export intents exceed quota"));
        }
        check_bodies(&listing)?;
        if !check_unfinished(&listing) {
            return Err(StoreError::Corrupt("ambiguous export intent"));
        }
        let stages = staged_ids(&listing.bodies);
        proof {
            lemma_bodies_bounded(entries@, policy);
            assert(entries@.len() == entries.len());
            assert(inv.bodies.len() == listing.bodies@.len());
        }
        let recovered = unfinished + stages.len();
        Ok(
            (
                ExportStore {
                    authority,
                    owner,
                    policy,
                    intents: listing.records,
                    recovered,
                    uncertain: false,
                },
                Recovery { unfinished: listing.unfinished, stages },
            ),
        )
    }

    fn check(&self) -> (r: Result<(), StoreError>)
        ensures
            match r {
                Ok(_) => !self.uncertain,
                Err(e) => self.uncertain && e.fault() == Fault::Corrupt,
            },
    {
        if self.uncertain {
            return Err(StoreError::Corrupt("export owner requires exclusive reopen"));
        }
        Ok(())
    }

    pub fn usage(&self) -> (r: Result<ExportUsage, StoreError>)
        requires
            self.well_formed(),
        ensures
            match r {
                Ok(u) => !self.uncertain && u.intents == self.intents@.len() && u.charged_bytes
                    == charge_of(self.rows()) && u.recovered_stages == self.recovered,
                Err(e) => self.uncertain && e.fault() == Fault::Corrupt,
            },
    {
        self.check()?;
        Ok(
            ExportUsage {
                intents: self.intents.len(),
                charged_bytes: charge(&self.intents, self.policy)?,
                recovered_stages: self.recovered,
            },
        )
    }

    /// Why a selection cannot be exported from here, if it cannot.
    pub open spec fn selection_fault(self, reference: RetainedReference) -> Option<Fault> {
        let m = reference.kept_manifest();
        if !results::issued_to(reference, self.authority, self.owner) {
            Some(Fault::Refused(ErrorCode::Unauthorized))
        } else if !(m.valid() && m.wire().len() <= MAX_CONTROL_LIMIT) {
            Some(Fault::Refused(ErrorCode::FrameError))
        } else {
            None
        }
    }

    fn wanted(&self, reference: &RetainedReference) -> (r: Result<ExportIntent, StoreError>)
        requires
            reference.well_formed(),
        ensures
            match r {
                Ok(i) => self.selection_fault(*reference) is None && commits_to(i, *reference),
                Err(e) => self.selection_fault(*reference) == Some(e.fault()),
            },
    {
        let manifest = reference.manifest();
        if !manifest.authority.same(&self.authority) || !manifest.owner.same(&self.owner) {
            return Err(
                protocol(ErrorCode::Unauthorized, "export owner differs from selection"),
            );
        }
        let index = reference.index();
        assert(manifest.outputs@.len() == manifest.outputs.len());
        let output = &manifest.outputs[index.0 as usize];
        assert(*output == results::selected(*reference));
        let encoded = match manifest.encode() {
            Ok(encoded) => encoded,
            Err(e) => {
                return Err(StoreError::Protocol(e));
            },
        };
        let mut number: Vec<u8> = Vec::new();
        push_be(&mut number, index.0, 8);
        assert(number@ =~= cbor::be_bytes(index.0 as nat, 8));
        let mut hasher = hash_start();
        hash_update(&mut hasher, "PipeStream export selection v1\0".as_bytes());
        hash_update(&mut hasher, encoded.as_slice());
        hash_update(&mut hasher, number.as_slice());
        proof {
            assert(hashing::absorbed(hasher) =~= encode_utf8(
                "PipeStream export selection v1\0"@,
            ) + manifest.wire() + cbor::be_bytes(index.0 as nat, 8));
        }
        Ok(
            ExportIntent {
                length: output.length.0,
                sha256: output.sha256,
                selection: Digest(hash_finish(&hasher)),
            },
        )
    }

    /// The source is the selected output, held for the same owner.
    pub open spec fn source_fits(self, source: LocalResult, reference: RetainedReference) -> bool {
        let output = results::selected(reference);
        &&& source.authority.0@ == self.authority.0@
        &&& source.owner.0@ == self.owner.0@
        &&& source.descriptor.length == output.length
        &&& source.descriptor.sha256.0@ == output.sha256.0@
    }

    /// The row holds the commitment to the selection.
    pub open spec fn row_commits(self, i: int, reference: RetainedReference) -> bool {
        let output = results::selected(reference);
        let held = self.rows()[i].1;
        &&& held.length == output.length.0
        &&& held.sha256.0@ == output.sha256.0@
        &&& held.selection.0@ == selection_digest(
            reference.kept_manifest(),
            reference.kept_index(),
        )
    }

    /// Why an export does not begin, if it does not.
    pub open spec fn export_fault(
        self,
        id: OperationId,
        reference: RetainedReference,
        source: LocalResult,
    ) -> Option<Fault> {
        let i = row_at(self.rows(), hex(id.0@));
        let length = results::selected(reference).length.0;
        if self.uncertain {
            Some(Fault::Corrupt)
        } else if all_zero(id.0@) {
            Some(Fault::Refused(ErrorCode::Conflict))
        } else if self.selection_fault(reference) is Some {
            self.selection_fault(reference)
        } else if !self.source_fits(source, reference) {
            Some(Fault::Refused(ErrorCode::IntegrityError))
        } else if i < self.rows().len() {
            if self.row_commits(i, reference) {
                None
            } else {
                Some(Fault::Refused(ErrorCode::Conflict))
            }
        } else if self.rows().len() >= self.policy.objects || charge_of(self.rows()) + length + RECORD
            > self.policy.bytes {
            Some(Fault::Refused(ErrorCode::LimitExceeded))
        } else {
            None
        }
    }

    /// Copy a selected, pinned local result into the managed directory. An
    /// existing export ID must have the identical manifest/index commitment.
    /// Raw files are complete; prefixes stay in staging until verified EOF.
    pub fn export(&self, id: OperationId, reference: &RetainedReference, source: &LocalResult) -> (r:
        Result<ExportPlan, StoreError>)
        requires
            self.well_formed(),
            reference.well_formed(),
        ensures
            match r {
                Ok(plan) => {
                    &&& self.export_fault(id, *reference, *source) is None
                    &&& plan.id@ == hex(id.0@)
                    &&& commits_to(plan.intent, *reference)
                    &&& plan.fresh == (row_at(self.rows(), hex(id.0@)) >= self.rows().len())
                },
                Err(e) => self.export_fault(id, *reference, *source) == Some(e.fault()),
            },
    {
        self.check()?;
        let name = key_octets(&id)?;
        let wanted = self.wanted(reference)?;
        if !source.authority.same(&self.authority) || !source.owner.same(&self.owner)
            || source.descriptor.length.0 != wanted.length || !source.descriptor.sha256.same(
            &wanted.sha256,
        ) {
            return Err(
                protocol(ErrorCode::IntegrityError, "export source differs from selection"),
            );
        }
        match self.find(name.as_slice()) {
            Some(i) => {
                let held = &self.intents[i].intent;
                assert(self.rows()[i as int].1 == *held);
                if held.length != wanted.length || !held.sha256.same(&wanted.sha256)
                    || !held.selection.same(&wanted.selection) {
                    return Err(
                        protocol(
                            ErrorCode::Conflict,
                            "export identity cannot change commitment",
                        ),
                    );
                }
                Ok(ExportPlan { id: name, intent: wanted, fresh: false })
            },
            None => {
                let charged = charge(&self.intents, self.policy)?;
                let room = match charged.checked_add(wanted.length) {
                    Some(n) => match n.checked_add(RECORD as u64) {
                        Some(n) => n <= self.policy.bytes,
                        None => false,
                    },
                    None => false,
                };
                if self.intents.len() as u64 >= self.policy.objects || !room {
                    return Err(protocol(ErrorCode::LimitExceeded, "export quota exhausted"));
                }
                Ok(ExportPlan { id: name, intent: wanted, fresh: true })
            },
        }
    }

    fn find(&self, id: &[u8]) -> (r: Option<usize>)
        ensures
            match r {
                Some(i) => i == row_at(self.rows(), id@) && i < self.rows().len(),
                None => row_at(self.rows(), id@) == self.rows().len(),
            },
    {
        let found = find_row(&self.intents, id);
        proof {
            let i = match found {
                Some(i) => i as int,
                None => self.rows().len() as int,
            };
            assert forall|j: int| 0 <= j < i implies (#[trigger] self.rows()[j]).0 != id@ by {
                assert(self.intents@[j].id@ != id@);
            }
            lemma_row_at(self.rows(), id@, i);
        }
        found
    }

    /// What a planned intent leads to: it stands once its record is durable. Where it is not known
    /// whether the record was written, the directory must be opened again.
    pub fn commit(&mut self, plan: &ExportPlan, durable: bool)
        requires
            old(self).well_formed(),
            plan.fresh,
            row_at(old(self).rows(), plan.id@) == old(self).rows().len(),
            old(self).rows().len() < old(self).policy.objects,
            charge_of(old(self).rows()) + plan.intent.length + RECORD <= old(self).policy.bytes,
        ensures
            final(self).well_formed(),
            final(self).authority == old(self).authority,
            final(self).owner == old(self).owner,
            final(self).policy == old(self).policy,
            final(self).recovered == old(self).recovered,
            if durable {
                &&& final(self).rows() == old(self).rows().push((plan.id@, plan.intent))
                &&& final(self).uncertain == old(self).uncertain
            } else {
                &&& final(self).rows() == old(self).rows()
                &&& final(self).uncertain
            },
    {
        let ghost before = self.rows();
        if !durable {
            self.uncertain = true;
            return;
        }
        let row = ExportRow { id: copy_octets(&plan.id), intent: plan.intent };
        self.intents.push(row);
        proof {
            let after = self.rows();
            assert(after =~= before.push((plan.id@, plan.intent)));
            assert(after.drop_last() =~= before);
            lemma_absent(before, plan.id@);
            assert forall|i: int, j: int| 0 <= i < j < after.len() implies (
            #[trigger] after[i]).0 != (#[trigger] after[j]).0 by {
                assert(before[i] == after[i]);
                if j < before.len() {
                    assert(before[j] == after[j]);
                }
            }
        }
    }

    /// Whether what was copied is what was committed to.
    fn verify_body(wanted: &ExportIntent, length: u64, count: u64, sha256: Digest) -> (r: Result<
        (),
        StoreError,
    >)
        ensures
            ({
                let whole = length == wanted.length && count == wanted.length && sha256.0@
                    == wanted.sha256.0@;
                match r {
                    Ok(_) => whole,
                    Err(e) => !whole && e.fault() == Fault::Refused(ErrorCode::IntegrityError),
                }
            }),
    {
        if length != wanted.length {
            return Err(protocol(ErrorCode::IntegrityError, "export length changed"));
        }
        if count != wanted.length || !sha256.same(&wanted.sha256) {
            return Err(protocol(ErrorCode::IntegrityError, "export bytes changed"));
        }
        Ok(())
    }

    /// What a copy leads to: after one that failed the directory must be opened again.
    pub fn settle(&mut self, copied: bool)
        requires
            old(self).well_formed(),
        ensures
            final(self).well_formed(),
            *final(self) == (ExportStore {
                uncertain: old(self).uncertain || !copied,
                ..*old(self)
            }),
    {
        if !copied {
            self.uncertain = true;
        }
    }

    /// Remove only this named local export and intent. Never removes source
    /// copies, journal evidence or server results. Gives the name where there is something to remove.
    pub fn remove(&self, id: OperationId) -> (r: Result<Option<Vec<u8>>, StoreError>)
        requires
            self.well_formed(),
        ensures
            match r {
                Ok(name) => {
                    &&& !self.uncertain && !all_zero(id.0@)
                    &&& name is Some == (row_at(self.rows(), hex(id.0@)) < self.rows().len())
                    &&& name matches Some(n) ==> n@ == hex(id.0@)
                },
                Err(e) => if self.uncertain {
                    e.fault() == Fault::Corrupt
                } else {
                    all_zero(id.0@) && e.fault() == Fault::Refused(ErrorCode::Conflict)
                },
            },
    {
        self.check()?;
        let name = key_octets(&id)?;
        if self.find(name.as_slice()).is_none() {
            return Ok(None);
        }
        Ok(Some(name))
    }

    /// What a removal leads to: the intent is gone once its record is. Interrupted removal is
    /// retryable after the directory was opened again.
    pub fn removed(&mut self, name: &Vec<u8>, durable: bool)
        requires
            old(self).well_formed(),
            row_at(old(self).rows(), name@) < old(self).rows().len(),
        ensures
            final(self).well_formed(),
            final(self).policy == old(self).policy,
            final(self).authority == old(self).authority,
            final(self).owner == old(self).owner,
            final(self).recovered == old(self).recovered,
            if durable {
                &&& final(self).rows() == old(self).rows().remove(
                    row_at(old(self).rows(), name@),
                )
                &&& final(self).uncertain == old(self).uncertain
            } else {
                &&& final(self).rows() == old(self).rows()
                &&& final(self).uncertain
            },
    {
        if !durable {
            self.uncertain = true;
            return;
        }
        let ghost before = self.rows();
        match self.find(name.as_slice()) {
            Some(i) => {
                self.intents.remove(i);
                proof {
                    let after = self.rows();
                    assert(after =~= before.remove(i as int));
                    lemma_charge_removed(before, i as int);
                    assert forall|j: int, k: int| 0 <= j < k < after.len() implies (
                    #[trigger] after[j]).0 != (#[trigger] after[k]).0 by {
                        let a = if j < i {
                            j
                        } else {
                            j + 1
                        };
                        let b = if k < i {
                            k
                        } else {
                            k + 1
                        };
                        assert(after[j] == before[a]);
                        assert(after[k] == before[b]);
                    }
                }
            },
            None => {},
        }
    }
}

/// A body that is read back chunk by chunk, to be held against what was committed to.
pub struct CopiedBody {
    hasher: Hasher,
    count: u64,
}

impl View for CopiedBody {
    type V = Seq<u8>;

    closed spec fn view(&self) -> Seq<u8> {
        hashing::absorbed(self.hasher)
    }
}

impl CopiedBody {
    pub closed spec fn well_formed(self) -> bool {
        self.count == self@.len()
    }

    pub fn new() -> (r: Self)
        ensures
            r.well_formed(),
            r@ == Seq::<u8>::empty(),
    {
        CopiedBody { hasher: hash_start(), count: 0 }
    }

    /// Takes in the next chunk.
    pub fn receive(&mut self, bytes: &[u8])
        requires
            old(self).well_formed(),
            old(self)@.len() + bytes@.len() <= u64::MAX,
        ensures
            final(self).well_formed(),
            final(self)@ == old(self)@ + bytes@,
    {
        hash_update(&mut self.hasher, bytes);
        self.count = self.count + bytes.len() as u64;
    }

    /// Whether the file of the given length, whose content was taken in, is the committed body.
    pub fn verify(&self, wanted: &ExportIntent, length: u64) -> (r: Result<(), StoreError>)
        requires
            self.well_formed(),
        ensures
            ({
                let whole = length == wanted.length && self@.len() == wanted.length
                    && hashing::sha256(self@) == wanted.sha256.0@;
                match r {
                    Ok(_) => whole,
                    Err(e) => !whole && e.fault() == Fault::Refused(ErrorCode::IntegrityError),
                }
            }),
    {
        ExportStore::verify_body(wanted, length, self.count, Digest(hash_finish(&self.hasher)))
    }
}

proof fn lemma_absent(rows: Seq<(Seq<u8>, ExportIntent)>, id: Seq<u8>)
    requires
        row_at(rows, id) == rows.len(),
    ensures
        forall|i: int| 0 <= i < rows.len() ==> (#[trigger] rows[i]).0 != id,
    decreases rows.len(),
{
    if rows.len() > 0 {
        lemma_absent(rows.drop_last(), id);
        assert forall|i: int| 0 <= i < rows.len() implies (#[trigger] rows[i]).0 != id by {
            if i < rows.len() - 1 {
                assert(rows.drop_last()[i] == rows[i]);
            }
        }
    }
}

proof fn lemma_charge_removed(rows: Seq<(Seq<u8>, ExportIntent)>, i: int)
    requires
        0 <= i < rows.len(),
    ensures
        charge_of(rows.remove(i)) + rows[i].1.length + RECORD == charge_of(rows),
    decreases rows.len(),
{
    if i == rows.len() - 1 {
        assert(rows.remove(i) =~= rows.drop_last());
    } else {
        lemma_charge_removed(rows.drop_last(), i);
        assert(rows.remove(i).drop_last() =~= rows.drop_last().remove(i));
        assert(rows.remove(i).last() == rows.last());
    }
}

/// Removing an export gives back exactly what committing it took.
pub proof fn law_removal_returns_the_charge(
    rows: Seq<(Seq<u8>, ExportIntent)>,
    id: Seq<u8>,
    intent: ExportIntent,
)
    requires
        row_at(rows, id) == rows.len(),
    ensures
        ({
            let held = rows.push((id, intent));
            &&& row_at(held, id) == rows.len()
            &&& held.remove(row_at(held, id)) == rows
            &&& charge_of(held) == charge_of(rows) + intent.length + RECORD
        }),
{
    let held = rows.push((id, intent));
    assert(held.drop_last() =~= rows);
    assert(held.remove(rows.len() as int) =~= rows);
}

/// Bodies are no more than the entries that were listed.
proof fn lemma_bodies_bounded(entries: Seq<FoundEntry>, policy: ExportPolicy)
    requires
        scanned(entries, policy) is Some,
    ensures
        scanned(entries, policy)->0.bodies.len() + scanned(entries, policy)->0.unfinished.len()
            <= entries.len(),
    decreases entries.len(),
{
    if entries.len() > 0 {
        lemma_bodies_bounded(entries.drop_last(), policy);
    }
}

} // verus!
