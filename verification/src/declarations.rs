//! How declarations of work follow one another, and what they lead to.

use crate::hashing;
use crate::work_set::{
    self, DeclaredScope, EntityKey, ProtocolCode, ProtocolError, Session, WorkSetFrame,
};
use vstd::prelude::*;

verus! {

/// The scope stands in the session at the index, and nowhere before it.
pub open spec fn stands(s: Session, k: int, scope_id: u32) -> bool {
    &&& 0 <= k < s.scopes().len()
    &&& s.scopes()[k].scope_id == scope_id
    &&& forall|j: int| 0 <= j < k ==> (#[trigger] s.scopes()[j]).scope_id != scope_id
}

/// The scope was not declared yet.
pub open spec fn undeclared(s: Session, scope_id: u32) -> bool {
    forall|j: int| 0 <= j < s.scopes().len() ==> (#[trigger] s.scopes()[j]).scope_id != scope_id
}

/// How many identifiers were declared in all scopes.
pub open spec fn total(scopes: Seq<DeclaredScope>) -> nat
    decreases scopes.len(),
{
    if scopes.len() == 0 {
        0
    } else {
        total(scopes.drop_last()) + scopes.last().ids@.len()
    }
}

proof fn lemma_total(scopes: Seq<DeclaredScope>)
    ensures
        total(scopes) == work_set::declared_total(scopes),
    decreases scopes.len(),
{
    if scopes.len() > 0 {
        lemma_total(scopes.drop_last());
    }
}

/// A frame is well formed exactly where it names a producer, carries a seal where it says so, lists at
/// most two hundred and fifty-six identifiers in increasing order within the range, and none only
/// where it seals, and names a parent exactly where its scope is not the root.
pub proof fn law_frame_fields_fit(frame: WorkSetFrame, highest: u32)
    ensures
        frame.fault(highest, None) is None <==> {
            &&& exists|i: int| 0 <= i < frame.producer_id@.len() && #[trigger] frame.producer_id@[i] != 0
            &&& frame.flags < 4
            &&& (frame.flags == 2 || frame.flags == 3) == (frame.seal_digest is Some)
            &&& frame.entity_ids@.len() <= 256
            &&& frame.entity_ids@.len() == 0 ==> frame.seal_digest is Some
            &&& forall|i: int|
                0 <= i < frame.entity_ids@.len() ==> 1 <= #[trigger] frame.entity_ids@[i] <= highest
            &&& forall|i: int, j: int|
                0 <= i < j < frame.entity_ids@.len() ==> #[trigger] frame.entity_ids@[i]
                    < #[trigger] frame.entity_ids@[j]
            &&& frame.scope_id == 0 <==> frame.parent is None
            &&& frame.parent matches Some(p) ==> 1 <= p.entity_id <= highest
        },
        frame.fault(highest, None) is Some ==> frame.fault(highest, None) == Some(
            ProtocolCode::Frame,
        ),
{
}

/// A request is acknowledged by itself, marked as an acknowledgement. An acknowledgement is no request.
pub proof fn law_request_is_acknowledged(ack: WorkSetFrame, frame: WorkSetFrame, s: Session)
    requires
        work_set::acknowledges(ack, frame),
        frame.flags == 0 || frame.flags == 2,
    ensures
        ack.flags == frame.flags + 1,
        ack.session_id@ == frame.session_id@,
        ack.producer_id@ == frame.producer_id@,
        ack.scope_id == frame.scope_id,
        ack.parent == frame.parent,
        ack.sequence == frame.sequence,
        ack.entity_ids@ == frame.entity_ids@,
        ack.seal_digest is Some == frame.seal_digest is Some,
        !s.addressed(ack),
{
}

/// The request is a frame of the producer of the session.
pub open spec fn from_producer(s: Session, frame: WorkSetFrame) -> bool {
    &&& s.work_sets is Some
    &&& frame.fault(s.max_entity_id, None) is None
    &&& frame.flags == 0 || frame.flags == 2
    &&& frame.session_id@ == s.session_id@
    &&& frame.producer_id@ == s.work_sets->0.producer_id@
    &&& frame.body().len() <= u32::MAX
}

/// The seal is over all identifiers of the scope.
pub open spec fn sealed_over(s: Session, frame: WorkSetFrame, ids: Seq<u32>) -> bool {
    frame.seal_digest matches Some(d) ==> d@ == hashing::sha256(
        work_set::seal_preimage(
            s.session_id@,
            s.work_sets->0.producer_id@,
            frame.scope_id,
            frame.parent,
            ids,
        ),
    )
}

/// The next request for a scope that was declared is accepted while the scope is open: under its own
/// sequence number and parent, with identifiers above those before them, within the limits of the scope
/// and of the session, and sealed, where it is sealed, over all of them.
pub proof fn law_next_request_is_accepted(s: Session, k: int, frame: WorkSetFrame)
    requires
        stands(s, k, frame.scope_id),
        from_producer(s, frame),
        frame.sequence >= s.scopes()[k].requests@.len(),
    ensures
        ({
            let scope = s.scopes()[k];
            let ids = scope.ids@ + frame.entity_ids@;
            let fault = s.declare_fault(frame, None, None);
            let next = {
                &&& frame.sequence == scope.requests@.len()
                &&& scope.seal_digest is None
                &&& scope.parent == frame.parent
                &&& scope.ids@.len() > 0 && frame.entity_ids@.len() > 0 ==> scope.ids@.last()
                    < frame.entity_ids@[0]
            };
            let fits = {
                &&& total(s.scopes()) + frame.entity_ids@.len() <= 1_000_000
                &&& 1 <= ids.len() <= s.max_entities_per_scope
            };
            if !next {
                fault == Some(ProtocolCode::Entity)
            } else if !fits {
                fault == Some(ProtocolCode::Limit)
            } else if !sealed_over(s, frame, ids) {
                fault == Some(ProtocolCode::Integrity)
            } else {
                fault is None
            }
        }),
{
    work_set::lemma_scope_at(s.scopes(), frame.scope_id, k);
    lemma_total(s.scopes());
}

/// The first request for a scope is accepted under the first sequence number, within the limits, where
/// the scope can be opened below its parent.
pub proof fn law_first_request_opens_the_scope(
    s: Session,
    frame: WorkSetFrame,
    refused: Option<ProtocolCode>,
)
    requires
        undeclared(s, frame.scope_id),
        from_producer(s, frame),
    ensures
        ({
            let fault = s.declare_fault(frame, None, refused);
            let count = frame.entity_ids@.len();
            if frame.sequence != 0 {
                fault == Some(ProtocolCode::Entity)
            } else if !(total(s.scopes()) + count <= 1_000_000 && 1 <= count
                <= s.max_entities_per_scope) {
                fault == Some(ProtocolCode::Limit)
            } else if !sealed_over(s, frame, frame.entity_ids@) {
                fault == Some(ProtocolCode::Integrity)
            } else if frame.parent is Some {
                fault == refused
            } else {
                fault is None
            }
        }),
{
    work_set::lemma_scope_at(s.scopes(), frame.scope_id, s.scopes().len() as int);
    lemma_total(s.scopes());
    assert(Seq::<u32>::empty() + frame.entity_ids@ =~= frame.entity_ids@);
}

/// A frame that is no request of the producer of the session is refused.
pub proof fn law_foreign_request_is_refused(
    s: Session,
    frame: WorkSetFrame,
    unnamed: Option<ProtocolCode>,
    refused: Option<ProtocolCode>,
)
    requires
        ({
            ||| s.work_sets is None
            ||| frame.flags == 1 || frame.flags == 3
            ||| frame.session_id@ != s.session_id@
            ||| frame.producer_id@ != s.work_sets->0.producer_id@
        }),
    ensures
        s.declare_fault(frame, unnamed, refused) is Some,
        frame.fault(s.max_entity_id, unnamed) is None ==> s.declare_fault(frame, unnamed, refused)
            == Some(ProtocolCode::Entity),
{
}

/// What is declared may arrive, below the parent that it was declared under, and nothing else in that
/// scope.
pub proof fn law_declared_work_may_arrive(
    s: Session,
    frame: WorkSetFrame,
    next: Session,
    key: EntityKey,
    parent: Option<EntityKey>,
)
    requires
        s.declares(frame, next),
        key.scope_id == frame.scope_id,
    ensures
        next.admits(key, parent) <==> parent == frame.parent && (s.declared(frame.scope_id).contains(
            key.entity_id,
        ) || frame.entity_ids@.contains(key.entity_id)),
{
    work_set::law_declared_identifiers_stay(s, frame, next);
    work_set::lemma_scope_found(next.scopes(), frame.scope_id);
    work_set::lemma_scope_found(s.scopes(), frame.scope_id);
    let k = work_set::scope_at(s.scopes(), frame.scope_id);
    let m = if k < s.scopes().len() {
        k
    } else {
        s.scopes().len() as int
    };
    assert forall|j: int| 0 <= j < m implies (#[trigger] next.scopes()[j]).scope_id
        != frame.scope_id by {
        assert(s.scopes()[j].scope_id != frame.scope_id);
    }
    work_set::lemma_scope_at(next.scopes(), frame.scope_id, m);
    let before = s.declared(frame.scope_id);
    let after = next.declared(frame.scope_id);
    assert(after == before + frame.entity_ids@);
    if after.contains(key.entity_id) {
        let i = choose|i: int| 0 <= i < after.len() && after[i] == key.entity_id;
        if i < before.len() {
            assert(before[i] == key.entity_id);
        } else {
            assert(frame.entity_ids@[i - before.len()] == key.entity_id);
        }
    }
    if before.contains(key.entity_id) {
        let i = choose|i: int| 0 <= i < before.len() && before[i] == key.entity_id;
        assert(after[i] == key.entity_id);
    }
}

/// A session without declarations takes any work; one with declarations takes none in a scope that was
/// not declared.
pub proof fn law_undeclared_work_is_refused(s: Session, key: EntityKey, parent: Option<EntityKey>)
    ensures
        s.work_sets is None ==> s.admits(key, parent),
        s.work_sets is Some && undeclared(s, key.scope_id) ==> !s.admits(key, parent),
{
    if undeclared(s, key.scope_id) {
        work_set::lemma_scope_at(s.scopes(), key.scope_id, s.scopes().len() as int);
    }
}

/// A scope is ready exactly where it is sealed and all that was declared in it is resolved; what is
/// resolved besides does not matter.
pub proof fn law_sealed_and_resolved_scope_is_ready(
    s: Session,
    k: int,
    scope_id: u32,
    resolved: Seq<u32>,
    more: Seq<u32>,
)
    requires
        s.work_sets is Some,
        stands(s, k, scope_id),
    ensures
        s.ready(scope_id, resolved) <==> s.scopes()[k].seal_digest is Some && forall|id: u32|
            #[trigger] s.scopes()[k].ids@.contains(id) ==> resolved.contains(id),
        s.ready(scope_id, resolved) ==> s.ready(scope_id, resolved + more),
{
    work_set::lemma_scope_at(s.scopes(), scope_id, k);
    let ids = s.scopes()[k].ids@;
    if s.ready(scope_id, resolved) {
        assert forall|id: u32| #[trigger] ids.contains(id) implies resolved.contains(id) by {
            let i = choose|i: int| 0 <= i < ids.len() && ids[i] == id;
            assert(resolved.contains(ids[i]));
        }
        assert forall|i: int| 0 <= i < ids.len() implies (resolved + more).contains(
            #[trigger] ids[i],
        ) by {
            let n = choose|n: int| 0 <= n < resolved.len() && resolved[n] == ids[i];
            assert((resolved + more)[n] == ids[i]);
        }
    }
    if s.scopes()[k].seal_digest is Some && forall|id: u32|
        #[trigger] ids.contains(id) ==> resolved.contains(id) {
        assert forall|i: int| 0 <= i < ids.len() implies resolved.contains(#[trigger] ids[i]) by {
            assert(ids.contains(ids[i]));
        }
    }
}

/// A declaration that is refused changes nothing. One that is taken is acknowledged, and where the scope
/// has taken as many requests already, the acknowledgement is all that comes of it.
pub proof fn law_repeated_request_changes_nothing(
    s: Session,
    k: int,
    frame: WorkSetFrame,
    unnamed: Option<ProtocolCode>,
    refused: Option<ProtocolCode>,
    r: Result<WorkSetFrame, ProtocolError>,
    next: Session,
)
    requires
        s.takes(frame, unnamed, refused, r, next),
    ensures
        r is Err ==> next == s,
        r is Ok <==> s.declare_fault(frame, unnamed, refused) is None,
        r matches Ok(ack) ==> work_set::acknowledges(ack, frame),
        stands(s, k, frame.scope_id) && frame.sequence < s.scopes()[k].requests@.len() ==> next == s,
        r is Ok && undeclared(s, frame.scope_id) ==> next.declared(frame.scope_id)
            == frame.entity_ids@,
{
    if stands(s, k, frame.scope_id) {
        work_set::lemma_scope_at(s.scopes(), frame.scope_id, k);
    }
    if r is Ok && undeclared(s, frame.scope_id) {
        let n = s.scopes().len() as int;
        work_set::lemma_scope_at(s.scopes(), frame.scope_id, n);
        assert(next.scopes().drop_last() =~= s.scopes());
        assert forall|j: int| 0 <= j < n implies (#[trigger] next.scopes()[j]).scope_id
            != frame.scope_id by {
            assert(next.scopes()[j] == s.scopes()[j]);
        }
        work_set::lemma_scope_at(next.scopes(), frame.scope_id, n);
        assert(Seq::<u32>::empty() + frame.entity_ids@ =~= frame.entity_ids@);
    }
}

} // verus!
