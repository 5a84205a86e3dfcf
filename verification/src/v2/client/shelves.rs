//! What an export directory holds: names tell what an entry is and whose, bodies go with committed
//! intents, and everything is within the policy that the directory is bound to.

use super::super::authority::store::Fault;
use super::super::error::ErrorCode;
use super::super::labels::{IdentityLabel, OperationId};
use super::custody;
use super::exports::{self, EntryKind, ExportIntent, ExportPolicy, FoundEntry, Inventory};
use crate::cbor;
use crate::spelling;
use crate::text;
use vstd::prelude::*;
use vstd::utf8::*;

verus! {

/// The name of an entry: what it is, and the digits of the export that it belongs to.
pub open spec fn entry_name(word: Seq<char>, id: OperationId) -> Seq<u8> {
    encode_utf8(word) + seq![0x2du8] + exports::hex(id.0@)
}

proof fn lemma_entry_words()
    ensures
        spelling::free_of(encode_utf8("record"@), 0x2d),
        spelling::free_of(encode_utf8("file"@), 0x2d),
        spelling::free_of(encode_utf8("stage"@), 0x2d),
        spelling::free_of(encode_utf8("intent"@), 0x2d),
        encode_utf8("record"@) != encode_utf8("file"@),
        encode_utf8("record"@) != encode_utf8("stage"@),
        encode_utf8("record"@) != encode_utf8("intent"@),
        encode_utf8("file"@) != encode_utf8("stage"@),
        encode_utf8("file"@) != encode_utf8("intent"@),
        encode_utf8("stage"@) != encode_utf8("intent"@),
{
    reveal_strlit("record");
    reveal_strlit("file");
    reveal_strlit("stage");
    reveal_strlit("intent");
    is_ascii_chars_encode_utf8("record"@);
    is_ascii_chars_encode_utf8("file"@);
    is_ascii_chars_encode_utf8("stage"@);
    is_ascii_chars_encode_utf8("intent"@);
    assert(encode_utf8("record"@)[0] == 'r' as u8);
    assert(encode_utf8("intent"@)[0] == 'i' as u8);
}

proof fn lemma_entry_name(word: Seq<char>, id: OperationId)
    requires
        id.0@.len() == 16,
        !exports::all_zero(id.0@),
        spelling::free_of(encode_utf8(word), 0x2d),
    ensures
        ({
            let name = entry_name(word, id);
            let at = text::first_index(name, 0x2d) as int;
            &&& at < name.len()
            &&& name.take(at) == encode_utf8(word)
            &&& name.skip(at + 1) == exports::hex(id.0@)
            &&& exports::is_key(exports::hex(id.0@))
        }),
{
    let front = encode_utf8(word);
    let name = entry_name(word, id);
    exports::law_key_names_one_export(id.0@, id.0@);
    assert(name[front.len() as int] == 0x2d);
    assert forall|j: int| 0 <= j < front.len() implies name[j] != 0x2d by {
        assert(name[j] == front[j]);
    }
    text::lemma_first_index_unique(name, 0x2d, front.len());
    assert(name.take(front.len() as int) =~= front);
    assert(name.skip(front.len() as int + 1) =~= exports::hex(id.0@));
}

/// The name of an entry tells what it is and which export it belongs to.
pub proof fn law_entry_names_are_read_back(id: OperationId)
    requires
        exists|k: int| 0 <= k < id.0@.len() && #[trigger] id.0@[k] != 0,
    ensures
        exports::named(entry_name("record"@, id)) == Some((EntryKind::Record, exports::hex(id.0@))),
        exports::named(entry_name("file"@, id)) == Some((EntryKind::File, exports::hex(id.0@))),
        exports::named(entry_name("stage"@, id)) == Some((EntryKind::Stage, exports::hex(id.0@))),
        exports::named(entry_name("intent"@, id)) == Some(
            (EntryKind::Unfinished, exports::hex(id.0@)),
        ),
{
    assert(id.0@.len() == 16);
    lemma_entry_words();
    lemma_entry_name("record"@, id);
    lemma_entry_name("file"@, id);
    lemma_entry_name("stage"@, id);
    lemma_entry_name("intent"@, id);
}

/// The octets that the intents take up: their bodies, and a record of one hundred and twelve for each.
pub proof fn law_charge_is_bodies_and_records(rows: Seq<(Seq<u8>, ExportIntent)>, policy: ExportPolicy)
    requires
        custody::bulk(rows) + 112 * rows.len() <= u64::MAX,
    ensures
        exports::charge_of(rows) == custody::bulk(rows) + 112 * rows.len(),
        exports::charge_fault(rows, policy) is None <==> rows.len() <= policy.objects
            && custody::bulk(rows) + 112 * rows.len() <= policy.bytes,
        exports::charge_fault(rows, policy) is Some ==> exports::charge_fault(rows, policy) == Some(
            Fault::Refused(ErrorCode::LimitExceeded),
        ),
{
    custody::lemma_bulk(rows);
}

/// A body goes with the intent of its name: a complete one has exactly the length that was intended, a
/// stage no more than that.
pub proof fn law_bodies_go_with_intents(
    records: Seq<(Seq<u8>, ExportIntent)>,
    i: int,
    stage: bool,
    length: u64,
    other: Seq<u8>,
)
    requires
        exports::distinct(records),
        0 <= i < records.len(),
        forall|j: int| 0 <= j < records.len() ==> (#[trigger] records[j]).0 != other,
    ensures
        exports::body_fits(records, (records[i].0, stage, length)) <==> if stage {
            length <= records[i].1.length
        } else {
            length == records[i].1.length
        },
        !exports::body_fits(records, (other, stage, length)),
{
    let body = (records[i].0, stage, length);
    if exports::body_fits(records, body) {
        let k = choose|k: int|
            0 <= k < records.len() && (#[trigger] records[k]).0 == body.0 && body.2
                <= records[k].1.length && (body.1 || body.2 == records[k].1.length);
        assert(k == i);
    }
    if if stage {
        length <= records[i].1.length
    } else {
        length == records[i].1.length
    } {
        assert(records[i].0 == body.0);
    }
}

/// A directory is opened exactly where what it holds is within its policy: records and intents that were
/// being written count against it alike, every body goes with a record, and an intent that was being
/// written has neither a record nor a body.
pub proof fn law_opened_directory_is_within_its_policy(
    entries: Seq<FoundEntry>,
    policy: ExportPolicy,
    inv: Inventory,
)
    requires
        exports::scanned(entries, policy) == Some(inv),
    ensures
        exports::inventory_fault(entries, policy) is None <==> {
            let begun = inv.unfinished;
            &&& inv.records.len() + begun.len() <= policy.objects
            &&& custody::bulk(inv.records) + 112 * (inv.records.len() + begun.len()) <= policy.bytes
            &&& forall|b: int|
                0 <= b < inv.bodies.len() ==> exports::body_fits(
                    inv.records,
                    #[trigger] inv.bodies[b],
                )
            &&& forall|u: int, k: int|
                0 <= u < begun.len() && 0 <= k < inv.records.len() ==> #[trigger] begun[u] != (
                #[trigger] inv.records[k]).0
            &&& forall|u: int, b: int|
                0 <= u < begun.len() && 0 <= b < inv.bodies.len() ==> #[trigger] begun[u] != (
                #[trigger] inv.bodies[b]).0
        },
{
    let begun = inv.unfinished;
    custody::lemma_bulk(inv.records);
    if exports::coherent(inv, policy) {
        assert forall|u: int, k: int|
            0 <= u < begun.len() && 0 <= k < inv.records.len() implies #[trigger] begun[u] != (
        #[trigger] inv.records[k]).0 by {
            assert(!exports::record_named(inv.records, begun[u]));
        }
        assert forall|u: int, b: int|
            0 <= u < begun.len() && 0 <= b < inv.bodies.len() implies #[trigger] begun[u] != (
        #[trigger] inv.bodies[b]).0 by {
            assert(!exports::body_named(inv.bodies, begun[u]));
        }
    }
    if forall|u: int, k: int|
        0 <= u < begun.len() && 0 <= k < inv.records.len() ==> #[trigger] begun[u] != (
        #[trigger] inv.records[k]).0 {
        assert forall|u: int| 0 <= u < begun.len() implies !exports::record_named(
            inv.records,
            #[trigger] begun[u],
        ) by {}
    }
    if forall|u: int, b: int|
        0 <= u < begun.len() && 0 <= b < inv.bodies.len() ==> #[trigger] begun[u] != (
        #[trigger] inv.bodies[b]).0 {
        assert forall|u: int| 0 <= u < begun.len() implies !exports::body_named(
            inv.bodies,
            #[trigger] begun[u],
        ) by {}
    }
}

/// A directory is bound to its policy: where two policies are bound by the same octets, they are the
/// same.
pub proof fn law_directory_is_bound_to_its_policy(
    authority: IdentityLabel,
    owner: IdentityLabel,
    a: ExportPolicy,
    b: ExportPolicy,
)
    requires
        exports::root_front(authority, owner, a) == exports::root_front(authority, owner, b),
    ensures
        a.objects == b.objects,
        a.bytes == b.bytes,
{
    cbor::lemma_octet_ranges();
    cbor::lemma_be_bytes(a.objects as nat, 8);
    cbor::lemma_be_bytes(a.bytes as nat, 8);
    cbor::lemma_be_bytes(b.objects as nat, 8);
    cbor::lemma_be_bytes(b.bytes as nat, 8);
    let x = exports::root_front(authority, owner, a);
    let y = exports::root_front(authority, owner, b);
    let n = x.len() as int;
    assert(x.subrange(n - 8, n) =~= cbor::be_bytes(a.bytes as nat, 8));
    assert(y.subrange(n - 8, n) =~= cbor::be_bytes(b.bytes as nat, 8));
    assert(x.subrange(n - 16, n - 8) =~= cbor::be_bytes(a.objects as nat, 8));
    assert(y.subrange(n - 16, n - 8) =~= cbor::be_bytes(b.objects as nat, 8));
}

} // verus!
