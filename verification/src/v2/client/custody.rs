//! What becomes of a selected output: it is asked for, delivered, kept, and exported under a name.

use super::super::authority::exchange;
use super::super::authority::store::{ClockReading, Fault, Grants, Tables};
use super::super::commitments::SessionIdentity;
use super::super::correlation::Book;
use super::super::error::ErrorCode;
use super::super::labels::OperationId;
use super::super::messages::{Control, ResultMessage, Session};
use super::super::negotiation::Capabilities;
use super::super::numbers::Id;
use super::super::records::ResultHeader;
use super::super::wire::Wire;
use super::exports::{self, EntryKind, ExportIntent, ExportPolicy, ExportStore, FoundEntry, Inventory};
use super::references::RetainedReference;
use super::results::{self, LocalResult};
use vstd::prelude::*;
use vstd::utf8::*;

verus! {

/// The request that reads a selected output names the work and the attempt of its manifest, the selected
/// index and the digest that the manifest commits to there. Its book expects the delivery of that very
/// output, and such a delivery is the selected one.
pub proof fn law_selected_output_is_asked_for(reference: RetainedReference, number: Id, book: Book)
    requires
        reference.well_formed(),
        reference.kept_manifest().valid(),
        reference.kept_manifest().outputs@[reference.kept_index().0 as int].length.0
            <= book.selected.object_limit.0,
    ensures
        ({
            let m = reference.kept_manifest();
            let index = reference.kept_index();
            let output = m.outputs@[index.0 as int];
            let asked = reference.reading(number);
            &&& asked matches Control::Result(
                ResultMessage::Read { request, work, attempt, index: i, expected_sha256 },
            ) && request == number && work == m.work && attempt == m.attempt && i == index
                && expected_sha256 == output.sha256
            &&& book.read_header(asked->Result_0, Some(m)) matches Ok(header) && {
                &&& header.length == output.length
                &&& header.sha256 == output.sha256
                &&& header.index == index
                &&& header.request == number
                &&& results::delivers(header, reference)
            }
        }),
{
}

/// Whoever reads a selected output attaches to the session that issued its manifest.
pub proof fn law_reader_attaches_to_the_issuer(reference: RetainedReference, number: Id)
    ensures
        reference.attaching(number) matches Control::Session(
            Session::Attach { request, authority, owner, generation },
        ) && request == number && authority == reference.kept_manifest().authority && owner
            == reference.kept_manifest().owner && generation
            == reference.kept_manifest().generation,
{
}

/// A read of a selected output that the authority grants delivers that output.
pub proof fn law_granted_read_delivers_the_selection(
    t: Tables,
    j: int,
    identity: SessionIdentity,
    reference: RetainedReference,
    number: Id,
    caps: Capabilities,
    grants: Grants,
    clock: ClockReading,
    book: Book,
)
    requires
        t.arranged(),
        reference.well_formed(),
        exchange::keyed(t, j, identity.generation, reference.kept_manifest().work),
        t.work[j].view.manifest == Some(reference.kept_manifest()),
        book.selected == caps,
        t.read_fault(identity, reference.reading(number)->Result_0, caps, grants, clock) is None,
        identity.generation == reference.kept_manifest().generation,
    ensures
        results::delivers(
            t.read_header(identity, reference.reading(number)->Result_0),
            reference,
        ),
{
    let m = reference.kept_manifest();
    let output = m.outputs@[reference.kept_index().0 as int];
    exchange::law_granted_read_is_announced(
        t,
        j,
        identity,
        number,
        m.work,
        m.attempt,
        reference.kept_index(),
        output.sha256,
        caps,
        grants,
        clock,
        book,
    );
}

/// A delivery is that of a selection exactly where it names its work, attempt and index, and has the
/// length and the digest of that output.
pub proof fn law_delivery_is_of_its_selection(header: ResultHeader, reference: RetainedReference)
    ensures
        ({
            let m = reference.kept_manifest();
            let output = m.outputs@[reference.kept_index().0 as int];
            results::delivers(header, reference) <==> {
                &&& header.work == m.work
                &&& header.attempt == m.attempt
                &&& header.generation == m.generation
                &&& header.index == reference.kept_index()
                &&& header.length == output.length
                &&& header.sha256.0@ == output.sha256.0@
            }
        }),
{
}

/// The octets of the bodies of all exports.
pub open spec fn bulk(rows: Seq<(Seq<u8>, ExportIntent)>) -> nat
    decreases rows.len(),
{
    if rows.len() == 0 {
        0
    } else {
        bulk(rows.drop_last()) + rows.last().1.length as nat
    }
}

pub proof fn lemma_bulk(rows: Seq<(Seq<u8>, ExportIntent)>)
    ensures
        exports::charge_of(rows) == bulk(rows) + 112 * rows.len(),
    decreases rows.len(),
{
    if rows.len() > 0 {
        lemma_bulk(rows.drop_last());
    }
}

/// The row has the name.
pub open spec fn row_named(rows: Seq<(Seq<u8>, ExportIntent)>, i: int, id: Seq<u8>) -> bool {
    &&& 0 <= i < rows.len()
    &&& rows[i].0 == exports::hex(id)
    &&& forall|j: int| 0 <= j < i ==> (#[trigger] rows[j]).0 != exports::hex(id)
}

/// There is room for one more export: each takes up its body and a record.
pub open spec fn room(store: ExportStore, length: u64) -> bool {
    &&& store.rows().len() + 1 <= store.policy.objects
    &&& bulk(store.rows()) + length + 112 * (store.rows().len() + 1) <= store.policy.bytes
}

/// An export begins where the copy is the selected output, held for the owner it was issued to, and
/// either its name holds this very selection or it is new and there is room for it. A name that holds
/// another selection is a conflict; without room nothing is begun.
pub proof fn law_export_begins_where_it_fits(
    store: ExportStore,
    id: OperationId,
    reference: RetainedReference,
    source: LocalResult,
    i: int,
)
    requires
        reference.well_formed(),
        !store.uncertain,
        exists|k: int| 0 <= k < id.0@.len() && #[trigger] id.0@[k] != 0,
        reference.kept_manifest().valid(),
        reference.kept_manifest().wire().len() <= super::super::error::MAX_CONTROL_LIMIT,
        reference.kept_manifest().authority.0@ == store.authority.0@,
        reference.kept_manifest().owner.0@ == store.owner.0@,
        source.authority.0@ == store.authority.0@,
        source.owner.0@ == store.owner.0@,
        row_named(store.rows(), i, id.0@) || (forall|j: int|
            0 <= j < store.rows().len() ==> (#[trigger] store.rows()[j]).0 != exports::hex(id.0@)),
    ensures
        ({
            let output = reference.kept_manifest().outputs@[reference.kept_index().0 as int];
            let fault = store.export_fault(id, reference, source);
            let copied = source.descriptor.length == output.length && source.descriptor.sha256.0@
                == output.sha256.0@;
            let held = store.rows()[i].1;
            if !copied {
                fault == Some(Fault::Refused(ErrorCode::IntegrityError))
            } else if row_named(store.rows(), i, id.0@) {
                let same = held.length == output.length.0 && held.sha256.0@ == output.sha256.0@
                    && held.selection.0@ == exports::selection_digest(
                    reference.kept_manifest(),
                    reference.kept_index(),
                );
                if same {
                    fault is None
                } else {
                    fault == Some(Fault::Refused(ErrorCode::Conflict))
                }
            } else if room(store, output.length.0) {
                fault is None
            } else {
                fault == Some(Fault::Refused(ErrorCode::LimitExceeded))
            }
        }),
{
    let k = choose|k: int| 0 <= k < id.0@.len() && #[trigger] id.0@[k] != 0;
    assert(!exports::all_zero(id.0@));
    lemma_bulk(store.rows());
    if row_named(store.rows(), i, id.0@) {
        exports::lemma_row_at(store.rows(), exports::hex(id.0@), i);
    } else {
        exports::lemma_row_at(store.rows(), exports::hex(id.0@), store.rows().len() as int);
    }
}

/// An export belongs to the owner that its selection was issued to.
pub proof fn law_export_is_the_owners(
    store: ExportStore,
    id: OperationId,
    reference: RetainedReference,
    source: LocalResult,
)
    requires
        store.export_fault(id, reference, source) is None,
    ensures
        !store.uncertain,
        reference.kept_manifest().authority.0@ == store.authority.0@,
        reference.kept_manifest().owner.0@ == store.owner.0@,
        source.authority.0@ == store.authority.0@,
        source.owner.0@ == store.owner.0@,
        exists|k: int| 0 <= k < id.0@.len() && #[trigger] id.0@[k] != 0,
{
    assert(!exports::all_zero(id.0@));
}

/// What committing an export leaves: asked for again it is there, and asked for with another selection
/// it is a conflict.
pub proof fn law_committed_export_is_found(
    rows: Seq<(Seq<u8>, ExportIntent)>,
    id: OperationId,
    intent: ExportIntent,
)
    requires
        forall|j: int| 0 <= j < rows.len() ==> (#[trigger] rows[j]).0 != exports::hex(id.0@),
    ensures
        row_named(rows.push((exports::hex(id.0@), intent)), rows.len() as int, id.0@),
        exports::row_at(rows.push((exports::hex(id.0@), intent)), exports::hex(id.0@)) == rows.len(),
        bulk(rows.push((exports::hex(id.0@), intent))) == bulk(rows) + intent.length,
{
    let after = rows.push((exports::hex(id.0@), intent));
    assert forall|j: int| 0 <= j < rows.len() implies (#[trigger] after[j]).0 != exports::hex(
        id.0@,
    ) by {
        assert(after[j] == rows[j]);
    }
    exports::lemma_row_at(after, exports::hex(id.0@), rows.len() as int);
    assert(after.drop_last() =~= rows);
}

/// What an entry of the directory adds to what is found there. A record, as long as records are, adds
/// the intent it holds, once for each name; a complete file or a stage adds a body, one for each name;
/// an intent that was being written adds its name alone. The directory's own files add nothing, and
/// anything else is damage.
pub proof fn law_entries_are_noted(
    inv: Inventory,
    e: FoundEntry,
    policy: ExportPolicy,
    kind: EntryKind,
    id: Seq<u8>,
)
    requires
        !exports::is_reserved(e.name@),
        inv.count + 1 <= policy.objects * 3,
        exports::named(encode_utf8(e.name@)) == Some((kind, id)),
    ensures
        ({
            let after = exports::noted(inv, e, policy);
            let known = exists|i: int| 0 <= i < inv.records.len() && (#[trigger] inv.records[i]).0 == id;
            let present = exists|i: int| 0 <= i < inv.bodies.len() && (#[trigger] inv.bodies[i]).0 == id;
            match kind {
                EntryKind::Record => if e.length == 112 && !known && exports::recorded(
                    e.content@,
                ) is Some {
                    after matches Some(a) && a.records == inv.records.push(
                        (id, exports::recorded(e.content@)->0),
                    ) && a.bodies == inv.bodies && a.unfinished == inv.unfinished && a.count
                        == inv.count + 1
                } else {
                    after is None
                },
                EntryKind::Unfinished => if e.length <= 112 {
                    after matches Some(a) && a.unfinished == inv.unfinished.push(id) && a.records
                        == inv.records && a.bodies == inv.bodies && a.count == inv.count + 1
                } else {
                    after is None
                },
                _ => if !present {
                    after matches Some(a) && a.bodies == inv.bodies.push(
                        (id, kind == EntryKind::Stage, e.length),
                    ) && a.records == inv.records && a.unfinished == inv.unfinished && a.count
                        == inv.count + 1
                } else {
                    after is None
                },
            }
        }),
{
}

} // verus!
