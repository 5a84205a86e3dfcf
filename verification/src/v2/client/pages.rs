//! Membership pages of scopes. Pages may arrive out of order; unsealed snapshots never establish
//! completeness.

use super::super::authority::scopes;
use super::super::authority::store::Fault;
use super::super::authority::table;
use super::super::error::{ErrorCode, MAX_CONTROL_LIMIT};
use super::super::labels::{self, Digest};
use super::super::messages::{self, Control, Scope};
use super::super::numbers::{Id, Number, PageLimit, Producer};
use super::super::records::{ScopeEntry, WorkKey};
use super::super::wire::Wire;
use super::durability;
use super::journal::{Journal, Notes};
use super::known::{self, merge};
use super::observations::protocol;
use super::receipts::{check, integrity, unless};
use super::records::{ScopeMember, ScopeObservation};
use super::storage::{refuse, JournalError};
use super::upkeep;
use vstd::prelude::*;

verus! {

/// What a page says, and behind which entity it was asked for.
pub struct PageFacts {
    pub scope: Number,
    pub producer: Producer,
    pub parent: Option<WorkKey>,
    pub declared: Number,
    pub seal: Option<Digest>,
    pub more: bool,
    pub after: Number,
    pub entries: Seq<ScopeEntry>,
}

/// The facts of a page that answers its request.
pub open spec fn page_facts(request: Control, response: Control) -> Option<PageFacts> {
    match (request, response) {
        (
            Control::Scope(Scope::Page { after_entity, .. }),
            Control::Scope(
                Scope::PageResponse { scope, producer, parent, seal, declared, entries, more, .. },
            ),
        ) => Some(
            PageFacts {
                scope,
                producer,
                parent,
                declared,
                seal,
                more,
                after: after_entity,
                entries: entries@,
            },
        ),
        _ => None,
    }
}

/// The facts of a page about the scope.
pub open spec fn facts_of(
    incoming: ScopeObservation,
    after: Number,
    more: bool,
    entries: Seq<ScopeEntry>,
) -> PageFacts {
    PageFacts {
        scope: incoming.scope,
        producer: incoming.producer,
        parent: incoming.parent,
        declared: incoming.declared,
        seal: incoming.seal,
        more,
        after,
        entries,
    }
}

/// The response is the page that was asked for.
pub open spec fn page_correlates(request: Control, response: Control) -> bool {
    match (request, response) {
        (
            Control::Scope(Scope::Page { request: id, scope: requested, after_entity, limit }),
            Control::Scope(
                Scope::PageResponse { request: actual, scope, declared, entries, more, .. },
            ),
        ) => {
            &&& id == actual
            &&& requested == scope
            &&& entries@.len() <= limit.0
            &&& forall|i: int|
                0 <= i < entries@.len() ==> (#[trigger] entries@[i]).entity.0 > after_entity.0
            &&& after_entity.0 != 0 || more || entries@.len() == declared.0
        },
        _ => false,
    }
}

/// One of the entries is that of the entity.
pub open spec fn listed(entries: Seq<ScopeEntry>, entity: Id) -> bool {
    exists|k: int| 0 <= k < entries.len() && (#[trigger] entries[k]).entity == entity
}

impl PageFacts {
    pub open spec fn incoming(self) -> ScopeObservation {
        ScopeObservation {
            scope: self.scope,
            producer: self.producer,
            parent: self.parent,
            declared: self.declared,
            seal: self.seal,
            membership_verified: false,
        }
    }

    /// The entity with which the page ends.
    pub open spec fn end(self) -> u64 {
        if self.entries.len() == 0 {
            self.after.0
        } else {
            self.entries.last().entity.0
        }
    }

    pub open spec fn member(self, i: int) -> ScopeMember {
        let entry = self.entries[i];
        ScopeMember {
            work: WorkKey { scope: self.scope, producer: self.producer, entity: entry.entity },
            terminal: if entry.state.terminal() {
                Some(entry.state)
            } else {
                None
            },
        }
    }
}

/// Members that do not stand before the work.
pub open spec fn not_before(work: WorkKey) -> spec_fn(ScopeMember) -> bool {
    |m: ScopeMember| !known::before(m.work, work)
}

/// Scopes that are not older than the given one.
pub open spec fn not_below(scope: Number) -> spec_fn(ScopeObservation) -> bool {
    |s: ScopeObservation| s.scope.0 >= scope.0
}

/// Members of the scope up to an entity.
pub open spec fn within(scope: Number, last: u64) -> spec_fn(ScopeMember) -> bool {
    |m: ScopeMember| m.work.scope == scope && m.work.entity.0 <= last
}

/// Members of the scope behind an entity.
pub open spec fn behind(scope: Number, after: Number) -> spec_fn(ScopeMember) -> bool {
    |m: ScopeMember| m.work.scope == scope && m.work.entity.0 > after.0
}

impl Notes {
    /// What is known of the scope together with what the page says.
    pub open spec fn retained(self, p: PageFacts) -> Option<ScopeObservation> {
        let s = self.scope_at(p.scope);
        if s < self.scopes.len() {
            known::merged(self.scopes[s], p.incoming())
        } else {
            Some(p.incoming())
        }
    }

    /// Every known member between where the page begins and where it ends stands in it: an append-only
    /// declaration cannot insert an omitted entity between two others.
    pub open spec fn page_covers(self, p: PageFacts) -> bool {
        p.entries.len() > 0 ==> forall|i: int|
            0 <= i < self.members.len() && (#[trigger] self.members[i]).work.scope == p.scope && p.after.0
                < self.members[i].work.entity.0 <= p.end() ==> listed(
                p.entries,
                self.members[i].work.entity,
            )
    }

    /// A last page that is no older than what is known ends behind every known member.
    pub open spec fn page_ends(self, p: PageFacts) -> bool {
        let s = self.scope_at(p.scope);
        !p.more && (s < self.scopes.len() ==> p.declared.0 >= self.scopes[s].declared.0)
            ==> forall|i: int|
            0 <= i < self.members.len() && (#[trigger] self.members[i]).work.scope == p.scope
                ==> self.members[i].work.entity.0 <= p.end()
    }

    /// Why a page is not looked into, if it is not.
    pub open spec fn opening_fault(self, p: PageFacts) -> Option<Fault> {
        let retained = self.retained(p);
        if retained is None {
            Some(integrity())
        } else if retained->0.declared.0 > self.limits.observations.0 {
            Some(Fault::Refused(ErrorCode::LimitExceeded))
        } else if self.place_fault(retained->0) is Some {
            self.place_fault(retained->0)
        } else if !self.page_covers(p) || !self.page_ends(p) {
            Some(integrity())
        } else if self.bound is None {
            Some(Fault::Refused(ErrorCode::NotReady))
        } else {
            None
        }
    }

    /// The notes with a member in its place. An end that was reported stays.
    pub open spec fn member_saved(self, v: ScopeMember) -> Result<Notes, Fault> {
        let fault = self.member_fault(v);
        if !v.valid() {
            Err(Fault::Refused(ErrorCode::FrameError))
        } else if fault is Some {
            Err(fault->0)
        } else {
            match self.member_of(v.work) {
                Err(f) => Err(f),
                Ok(Some(i)) => {
                    let known = self.members[i].terminal;
                    if known is Some && v.terminal is Some && known != v.terminal {
                        Err(integrity())
                    } else {
                        let kept = ScopeMember {
                            work: v.work,
                            terminal: if known is Some {
                                known
                            } else {
                                v.terminal
                            },
                        };
                        Ok(Notes { members: self.members.update(i, kept), ..self })
                    }
                },
                Ok(None) => if self.members.len() + 1 > self.limits.observations.0 {
                    Err(Fault::Refused(ErrorCode::LimitExceeded))
                } else {
                    Ok(
                        Notes {
                            members: self.members.insert(
                                table::index_where(self.members, not_before(v.work)),
                                v,
                            ),
                            ..self
                        },
                    )
                },
            }
        }
    }

    /// The notes with the first `n` entries of the page taken in.
    pub open spec fn page_saved(self, p: PageFacts, n: int) -> Result<Notes, Fault>
        decreases n,
    {
        if n <= 0 {
            Ok(self)
        } else {
            match self.page_saved(p, n - 1) {
                Err(f) => Err(f),
                Ok(t) => t.member_saved(p.member(n - 1)),
            }
        }
    }

    /// The members up to where the page ends are no more than it declares.
    pub open spec fn page_counts(self, p: PageFacts) -> bool {
        p.entries.len() > 0 ==> table::rows_where(self.members, within(p.scope, p.end())).len()
            <= p.declared.0
    }

    /// The notes with a scope in its place.
    pub open spec fn scope_stored(self, s: ScopeObservation) -> Result<Notes, Fault> {
        let at = self.scope_at(s.scope);
        if !s.valid() {
            Err(Fault::Refused(ErrorCode::FrameError))
        } else if at < self.scopes.len() {
            Ok(Notes { scopes: self.scopes.update(at, s), ..self })
        } else if self.scopes.len() + 1 > self.limits.observations.0 {
            Err(Fault::Refused(ErrorCode::LimitExceeded))
        } else {
            Ok(
                Notes {
                    scopes: self.scopes.insert(
                        table::index_where(self.scopes, not_below(s.scope)),
                        s,
                    ),
                    ..self
                },
            )
        }
    }

    /// The notes with a page taken in, and what is then known of its scope.
    #[verifier::opaque]
    pub open spec fn page_taken(self, p: PageFacts) -> Result<(Notes, ScopeObservation), Fault> {
        let opening = self.opening_fault(p);
        let saved = self.page_saved(p, p.entries.len() as int);
        let refreshed = saved->Ok_0.refreshed(self.retained(p)->0);
        let stored = saved->Ok_0.scope_stored(refreshed->Ok_0);
        if opening is Some {
            Err(opening->0)
        } else if saved is Err {
            Err(saved->Err_0)
        } else if !saved->Ok_0.page_counts(p) {
            Err(integrity())
        } else if refreshed is Err {
            Err(refreshed->Err_0)
        } else if stored is Err {
            Err(stored->Err_0)
        } else if stored->Ok_0.relations_fault() is Some {
            Err(stored->Ok_0.relations_fault()->0)
        } else {
            Ok((stored->Ok_0, refreshed->Ok_0))
        }
    }

    /// Why a retained scope is not what the evidence gives, if it is not.
    pub open spec fn scope_fault(self, s: ScopeObservation) -> Option<Fault> {
        if self.place_fault(s) is Some {
            self.place_fault(s)
        } else {
            match self.refreshed(s) {
                Err(f) => Some(f),
                Ok(actual) => unless(actual == s),
            }
        }
    }

    /// The members of a scope behind an entity, up to a limit.
    pub open spec fn inventory(self, scope: Number, after: Number, limit: PageLimit) -> Seq<
        ScopeMember,
    > {
        let rows = table::rows_where(self.members, behind(scope, after));
        rows.take(scopes::least_len(rows.len(), limit.0 as nat) as int)
    }

    /// Why the members of a scope are not listed, if they are not.
    pub open spec fn inventory_fault(self, scope: Number, after: Number, limit: PageLimit) -> Option<
        Fault,
    > {
        let s = self.scope_at(scope);
        if !(scope.valid() && after.valid() && limit.valid()) {
            Some(Fault::Refused(ErrorCode::FrameError))
        } else if s >= self.scopes.len() {
            Some(Fault::Refused(ErrorCode::NotReady))
        } else {
            table::first_fault(
                self.inventory(scope, after, limit),
                Notes::producer_check(self.scopes[s]),
            )
        }
    }

    /// What a page leads to, whatever was sent.
    pub open spec fn page_outcome(self, request: Control, response: Control) -> Result<
        (Notes, ScopeObservation),
        Fault,
    > {
        if !request.sendable(MAX_CONTROL_LIMIT) {
            Err(Fault::Refused(request.encode_refusal(MAX_CONTROL_LIMIT)))
        } else if !response.sendable(MAX_CONTROL_LIMIT) {
            Err(Fault::Refused(response.encode_refusal(MAX_CONTROL_LIMIT)))
        } else if page_facts(request, response) is None {
            Err(Fault::Refused(ErrorCode::FrameError))
        } else if !page_correlates(request, response) {
            Err(integrity())
        } else {
            self.page_taken(page_facts(request, response)->0)
        }
    }
}

proof fn lemma_saved_error(t: Notes, p: PageFacts, n: int, m: int)
    requires
        n <= m,
        t.page_saved(p, n) is Err,
    ensures
        t.page_saved(p, m) == t.page_saved(p, n),
    decreases m - n,
{
    if n < m {
        lemma_saved_error(t, p, n, m - 1);
    }
}

/// Keeping members in order.
proof fn lemma_member_placed(members: Seq<ScopeMember>, v: ScopeMember)
    requires
        v.valid(),
        forall|i: int, j: int|
            0 <= i < j < members.len() ==> known::before((#[trigger] members[i]).work, (
            #[trigger] members[j]).work),
        forall|i: int| 0 <= i < members.len() ==> (#[trigger] members[i]).valid(),
        forall|i: int|
            0 <= i < members.len() ==> !((#[trigger] members[i]).work.scope == v.work.scope
                && members[i].work.entity == v.work.entity),
    ensures
        ({
            let k = table::index_where(members, not_before(v.work));
            let next = members.insert(k, v);
            &&& 0 <= k <= members.len()
            &&& forall|i: int, j: int|
                0 <= i < j < next.len() ==> known::before((#[trigger] next[i]).work, (
                #[trigger] next[j]).work)
            &&& forall|i: int| 0 <= i < next.len() ==> (#[trigger] next[i]).valid()
        }),
{
    let q = not_before(v.work);
    let k = table::index_where(members, q);
    table::lemma_index_where(members, q);
    let next = members.insert(k, v);
    assert forall|i: int| k <= i < members.len() implies known::before(
        v.work,
        (#[trigger] members[i]).work,
    ) by {
        assert(!known::before(members[k].work, v.work));
        if i > k {
            assert(known::before(members[k].work, members[i].work));
        }
    }
    assert forall|i: int| 0 <= i < k implies known::before((#[trigger] members[i]).work, v.work) by {
        assert(!q(members[i]));
    }
    assert forall|i: int, j: int| 0 <= i < j < next.len() implies known::before(
        (#[trigger] next[i]).work,
        (#[trigger] next[j]).work,
    ) by {
        let a = if i < k {
            i
        } else {
            i - 1
        };
        let b = if j < k {
            j
        } else {
            j - 1
        };
        assert(i != k ==> next[i] == members[a]);
        assert(j != k ==> next[j] == members[b]);
        if i != k && j != k {
            assert(known::before(members[a].work, members[b].work));
        }
    }
    assert forall|i: int| 0 <= i < next.len() implies (#[trigger] next[i]).valid() by {
        assert(i < k ==> next[i] == members[i]);
        assert(i > k ==> next[i] == members[i - 1]);
    }
}

/// Keeping scopes in order.
proof fn lemma_scope_placed(rows: Seq<ScopeObservation>, v: ScopeObservation)
    requires
        v.valid(),
        forall|i: int, j: int|
            0 <= i < j < rows.len() ==> (#[trigger] rows[i]).scope.0 < (#[trigger] rows[j]).scope.0,
        forall|i: int| 0 <= i < rows.len() ==> (#[trigger] rows[i]).valid(),
        forall|i: int| 0 <= i < rows.len() ==> (#[trigger] rows[i]).scope != v.scope,
    ensures
        ({
            let k = table::index_where(rows, not_below(v.scope));
            let next = rows.insert(k, v);
            &&& 0 <= k <= rows.len()
            &&& forall|i: int, j: int|
                0 <= i < j < next.len() ==> (#[trigger] next[i]).scope.0 < (
                #[trigger] next[j]).scope.0
            &&& forall|i: int| 0 <= i < next.len() ==> (#[trigger] next[i]).valid()
        }),
{
    let q = not_below(v.scope);
    let k = table::index_where(rows, q);
    table::lemma_index_where(rows, q);
    let next = rows.insert(k, v);
    assert forall|i: int| k <= i < rows.len() implies v.scope.0 < (#[trigger] rows[i]).scope.0 by {
        assert(rows[k].scope != v.scope);
        if i > k {
            assert(rows[k].scope.0 < rows[i].scope.0);
        }
    }
    assert forall|i: int| 0 <= i < k implies (#[trigger] rows[i]).scope.0 < v.scope.0 by {
        assert(!q(rows[i]));
    }
    assert forall|i: int, j: int| 0 <= i < j < next.len() implies (#[trigger] next[i]).scope.0 < (
    #[trigger] next[j]).scope.0 by {
        let a = if i < k {
            i
        } else {
            i - 1
        };
        let b = if j < k {
            j
        } else {
            j - 1
        };
        assert(i != k ==> next[i] == rows[a]);
        assert(j != k ==> next[j] == rows[b]);
        if i != k && j != k {
            assert(rows[a].scope.0 < rows[b].scope.0);
        }
    }
    assert forall|i: int| 0 <= i < next.len() implies (#[trigger] next[i]).valid() by {
        assert(i < k ==> next[i] == rows[i]);
        assert(i > k ==> next[i] == rows[i - 1]);
    }
}

impl Journal {
    /// The first place that does not stand before the work.
    fn member_slot(&self, work: &WorkKey) -> (r: usize)
        ensures
            r == table::index_where(self@.members, not_before(*work)),
            r <= self@.members.len(),
    {
        let ghost q = not_before(*work);
        let mut i: usize = 0;
        while i < self.members.len()
            invariant
                i <= self.members@.len(),
                q == not_before(*work),
                forall|j: int| 0 <= j < i ==> !q(#[trigger] self.members@[j]),
            decreases self.members@.len() - i,
        {
            let m = self.members[i].work;
            if !(m.scope.0 < work.scope.0 || (m.scope.0 == work.scope.0 && m.entity.0
                < work.entity.0)) {
                proof {
                    table::lemma_index_unique(self.members@, q, i as int);
                }
                return i;
            }
            i += 1;
        }
        proof {
            table::lemma_index_unique(self.members@, q, i as int);
        }
        i
    }

    /// The first place that no older scope stands in.
    fn scope_slot(&self, scope: Number) -> (r: usize)
        ensures
            r == table::index_where(self@.scopes, not_below(scope)),
            r <= self@.scopes.len(),
    {
        let ghost q = not_below(scope);
        let mut i: usize = 0;
        while i < self.scopes.len()
            invariant
                i <= self.scopes@.len(),
                q == not_below(scope),
                forall|j: int| 0 <= j < i ==> !q(#[trigger] self.scopes@[j]),
            decreases self.scopes@.len() - i,
        {
            if self.scopes[i].scope.0 >= scope.0 {
                proof {
                    table::lemma_index_unique(self.scopes@, q, i as int);
                }
                return i;
            }
            i += 1;
        }
        proof {
            table::lemma_index_unique(self.scopes@, q, i as int);
        }
        i
    }

    pub fn save_member(&mut self, value: &ScopeMember) -> (r: Result<(), JournalError>)
        requires
            old(self)@.arranged(),
            old(self)@.bound is Some,
        ensures
            final(self)@.arranged(),
            match r {
                Ok(_) => old(self)@.member_saved(*value) == Ok::<Notes, Fault>(final(self)@),
                Err(e) => old(self)@.member_saved(*value) == Err::<Notes, Fault>(e.fault())
                    && final(self)@ == old(self)@,
            },
    {
        protocol(value.check())?;
        self.validate_member(value)?;
        let ghost t = self@;
        match self.read_member(&value.work)? {
            Some(i) => {
                let known = self.members[i].terminal;
                match (known, value.terminal) {
                    (Some(a), Some(b)) => {
                        check(a == b, "page terminal outcome changed")?;
                    },
                    _ => {},
                }
                let terminal = match known {
                    Some(a) => Some(a),
                    None => value.terminal,
                };
                let kept = ScopeMember { work: value.work, terminal };
                self.members.set(i, kept);
                proof {
                    assert(t.members[i as int].valid());
                    assert forall|j: int, k: int| 0 <= j < k < self.members@.len() implies known::before(
                        (#[trigger] self.members@[j]).work,
                        (#[trigger] self.members@[k]).work,
                    ) by {
                        assert(known::before(t.members[j].work, t.members[k].work));
                    }
                }
            },
            None => {
                if self.members.len() as u64 >= self.limits.observations.0 {
                    return Err(refuse(ErrorCode::LimitExceeded, "client scope inventory ceiling"));
                }
                let slot = self.member_slot(&value.work);
                proof {
                    let q = super::journal::is_member(value.work.scope, value.work.entity);
                    table::lemma_index_where(t.members, q);
                    assert forall|i: int| 0 <= i < t.members.len() implies !((
                    #[trigger] t.members[i]).work.scope == value.work.scope
                        && t.members[i].work.entity == value.work.entity) by {
                        assert(!q(t.members[i]));
                    }
                    lemma_member_placed(t.members, *value);
                }
                self.members.insert(slot, *value);
            },
        }
        Ok(())
    }

    /// Whether every known member between where the page begins and where it ends stands in it.
    fn covers_known(&self, scope: Number, after: Number, entries: &Vec<ScopeEntry>) -> (r: bool)
        requires
            messages::entries_increasing(entries@),
        ensures
            r == (entries@.len() > 0 ==> forall|i: int|
                0 <= i < self@.members.len() && (#[trigger] self@.members[i]).work.scope == scope
                    && after.0 < self@.members[i].work.entity.0 <= entries@.last().entity.0 ==> listed(
                    entries@,
                    self@.members[i].work.entity,
                )),
    {
        if entries.len() == 0 {
            return true;
        }
        let last = entries[entries.len() - 1].entity.0;
        let mut i: usize = 0;
        while i < self.members.len()
            invariant
                i <= self.members@.len(),
                entries@.len() > 0,
                last == entries@.last().entity.0,
                forall|j: int|
                    0 <= j < i && (#[trigger] self.members@[j]).work.scope == scope && after.0
                        < self.members@[j].work.entity.0 <= last ==> listed(
                        entries@,
                        self.members@[j].work.entity,
                    ),
            decreases self.members@.len() - i,
        {
            let m = self.members[i].work;
            if m.scope == scope && after.0 < m.entity.0 && m.entity.0 <= last {
                let mut k: usize = 0;
                let mut found = false;
                while k < entries.len()
                    invariant
                        k <= entries@.len(),
                        found ==> listed(entries@, m.entity),
                        !found ==> forall|j: int|
                            0 <= j < k ==> (#[trigger] entries@[j]).entity != m.entity,
                    decreases entries@.len() - k,
                {
                    if entries[k].entity == m.entity {
                        found = true;
                    }
                    k += 1;
                }
                if !found {
                    assert(self@.members[i as int].work.scope == scope);
                    return false;
                }
            }
            i += 1;
        }
        true
    }

    /// Whether no member of the scope is known behind the entity.
    fn ends_known(&self, scope: Number, end: u64) -> (r: bool)
        ensures
            r == forall|i: int|
                0 <= i < self@.members.len() && (#[trigger] self@.members[i]).work.scope == scope
                    ==> self@.members[i].work.entity.0 <= end,
    {
        let mut i: usize = 0;
        while i < self.members.len()
            invariant
                i <= self.members@.len(),
                forall|j: int|
                    0 <= j < i && (#[trigger] self.members@[j]).work.scope == scope
                        ==> self.members@[j].work.entity.0 <= end,
            decreases self.members@.len() - i,
        {
            if self.members[i].work.scope == scope && self.members[i].work.entity.0 > end {
                assert(self@.members[i as int].work.scope == scope);
                return false;
            }
            i += 1;
        }
        true
    }

    /// How many members of the scope are known up to the entity.
    fn count_within(&self, scope: Number, last: u64) -> (r: u64)
        ensures
            r == table::rows_where(self@.members, within(scope, last)).len(),
    {
        let ghost q = within(scope, last);
        let mut n: u64 = 0;
        let mut i: usize = 0;
        assert(self.members@.take(0) =~= Seq::empty());
        while i < self.members.len()
            invariant
                i <= self.members@.len(),
                n <= i,
                q == within(scope, last),
                n == table::rows_where(self.members@.take(i as int), q).len(),
            decreases self.members@.len() - i,
        {
            proof {
                assert(self.members@.take(i + 1) =~= self.members@.take(i as int).push(
                    self.members@[i as int],
                ));
                table::lemma_rows_where_push(
                    self.members@.take(i as int),
                    q,
                    self.members@[i as int],
                );
            }
            if self.members[i].work.scope == scope && self.members[i].work.entity.0 <= last {
                n += 1;
            }
            i += 1;
        }
        assert(self.members@.take(i as int) =~= self.members@);
        n
    }
}

impl Journal {
    /// What is then known of the page's scope, where the page can be looked into.
    fn open_page(
        &self,
        incoming: &ScopeObservation,
        after: Number,
        more: bool,
        entries: &Vec<ScopeEntry>,
    ) -> (r: Result<ScopeObservation, JournalError>)
        requires
            !incoming.membership_verified,
            messages::entries_increasing(entries@),
        ensures
            ({
                let p = facts_of(*incoming, after, more, entries@);
                match r {
                    Ok(s) => self@.opening_fault(p) is None && self@.retained(p) == Some(s)
                        && self@.bound is Some,
                    Err(e) => self@.opening_fault(p) == Some(e.fault()),
                }
            }),
    {
        let ghost p = facts_of(*incoming, after, more, entries@);
        assert(p.incoming() == *incoming);
        let previous = self.find_scope(incoming.scope);
        let retained = match previous {
            Some(s) => merge(&self.scopes[s], incoming)?,
            None => *incoming,
        };
        if retained.declared.0 > self.limits.observations.0 {
            return Err(refuse(ErrorCode::LimitExceeded, "client scope inventory ceiling"));
        }
        self.validate_scope_identity(&retained)?;
        check(
            self.covers_known(incoming.scope, after, entries),
            "page omits known immutable member",
        )?;
        let newest = match previous {
            Some(s) => incoming.declared.0 >= self.scopes[s].declared.0,
            None => true,
        };
        if !more && newest {
            let end = if entries.len() == 0 {
                after.0
            } else {
                entries[entries.len() - 1].entity.0
            };
            check(
                self.ends_known(incoming.scope, end),
                "page falsely ends before known membership",
            )?;
        }
        self.known_identity()?;
        Ok(retained)
    }

    /// Takes in the entries of a page, one after the other.
    fn save_entries(
        &mut self,
        incoming: &ScopeObservation,
        after: Number,
        more: bool,
        entries: &Vec<ScopeEntry>,
    ) -> (r: Result<(), JournalError>)
        requires
            old(self)@.arranged(),
            old(self)@.bound is Some,
        ensures
            final(self)@.arranged(),
            final(self)@ == (Notes { members: final(self)@.members, ..old(self)@ }),
            ({
                let p = facts_of(*incoming, after, more, entries@);
                let saved = old(self)@.page_saved(p, entries@.len() as int);
                match r {
                    Ok(_) => saved == Ok::<Notes, Fault>(final(self)@),
                    Err(e) => saved == Err::<Notes, Fault>(e.fault()),
                }
            }),
    {
        let ghost p = facts_of(*incoming, after, more, entries@);
        let ghost t = self@;
        let mut i: usize = 0;
        while i < entries.len()
            invariant
                i <= entries@.len(),
                p == facts_of(*incoming, after, more, entries@),
                t == old(self)@,
                self@.arranged(),
                self@.bound is Some,
                self@ == (Notes { members: self@.members, ..t }),
                t.page_saved(p, i as int) == Ok::<Notes, Fault>(self@),
            decreases entries@.len() - i,
        {
            let entry = &entries[i];
            let terminal = if entry.state.is_terminal() {
                Some(entry.state)
            } else {
                None
            };
            let work = WorkKey {
                scope: incoming.scope,
                producer: incoming.producer,
                entity: entry.entity,
            };
            let value = ScopeMember { work, terminal };
            assert(value == p.member(i as int));
            match self.save_member(&value) {
                Ok(_) => {},
                Err(e) => {
                    proof {
                        lemma_saved_error(t, p, i + 1, entries@.len() as int);
                    }
                    return Err(e);
                },
            }
            i += 1;
        }
        Ok(())
    }

    pub fn write_scope(&mut self, value: &ScopeObservation) -> (r: Result<(), JournalError>)
        requires
            old(self)@.arranged(),
            old(self)@.bound is Some,
        ensures
            final(self)@.arranged(),
            match r {
                Ok(_) => old(self)@.scope_stored(*value) == Ok::<Notes, Fault>(final(self)@),
                Err(e) => old(self)@.scope_stored(*value) == Err::<Notes, Fault>(e.fault())
                    && final(self)@ == old(self)@,
            },
    {
        protocol(value.check())?;
        let ghost t = self@;
        match self.find_scope(value.scope) {
            Some(s) => {
                self.scopes.set(s, *value);
                proof {
                    assert forall|i: int, j: int| 0 <= i < j < self.scopes@.len() implies (
                    #[trigger] self.scopes@[i]).scope.0 < (#[trigger] self.scopes@[j]).scope.0 by {
                        assert(t.scopes[i].scope.0 < t.scopes[j].scope.0);
                    }
                }
            },
            None => {
                if self.scopes.len() as u64 >= self.limits.observations.0 {
                    return Err(refuse(ErrorCode::LimitExceeded, "client scope inventory ceiling"));
                }
                let slot = self.scope_slot(value.scope);
                proof {
                    let q = super::journal::is_scope(value.scope);
                    table::lemma_index_where(t.scopes, q);
                    assert forall|i: int| 0 <= i < t.scopes.len() implies (
                    #[trigger] t.scopes[i]).scope != value.scope by {
                        assert(!q(t.scopes[i]));
                    }
                    lemma_scope_placed(t.scopes, *value);
                }
                self.scopes.insert(slot, *value);
            },
        }
        Ok(())
    }

    /// Takes in a page. What was changed before a failure is left for the caller to undo.
    fn take_page(
        &mut self,
        incoming: &ScopeObservation,
        after: Number,
        more: bool,
        entries: &Vec<ScopeEntry>,
    ) -> (r: Result<ScopeObservation, JournalError>)
        requires
            old(self)@.arranged(),
            !incoming.membership_verified,
            messages::entries_increasing(entries@),
        ensures
            final(self)@ == (Notes {
                members: final(self)@.members,
                scopes: final(self)@.scopes,
                ..old(self)@
            }),
            ({
                let taken = old(self)@.page_taken(facts_of(*incoming, after, more, entries@));
                match r {
                    Ok(s) => final(self)@.arranged() && taken == Ok::<
                        (Notes, ScopeObservation),
                        Fault,
                    >((final(self)@, s)),
                    Err(e) => taken == Err::<(Notes, ScopeObservation), Fault>(e.fault()),
                }
            }),
    {
        proof {
            reveal(Notes::page_taken);
        }
        let retained = self.open_page(incoming, after, more, entries)?;
        self.save_entries(incoming, after, more, entries)?;
        if entries.len() > 0 {
            let prefix = self.count_within(
                incoming.scope,
                entries[entries.len() - 1].entity.0,
            );
            check(
                prefix <= incoming.declared.0,
                "page membership exceeds its declared snapshot",
            )?;
        }
        let refreshed = self.refresh_scope(&retained)?;
        self.write_scope(&refreshed)?;
        self.validate_scope_relations()?;
        Ok(refreshed)
    }

    /// Supply the actual correlated request and authenticated response. Pages
    /// may arrive out of order; unsealed snapshots never establish completeness.
    pub fn observe_scope_page(&mut self, request: &Control, response: &Control) -> (r: Result<
        ScopeObservation,
        JournalError,
    >)
        requires
            old(self)@.well_formed(),
        ensures
            final(self)@.well_formed(),
            match r {
                Ok(s) => old(self)@.page_outcome(*request, *response) == Ok::<
                    (Notes, ScopeObservation),
                    Fault,
                >((final(self)@, s)),
                Err(e) => old(self)@.page_outcome(*request, *response) == Err::<
                    (Notes, ScopeObservation),
                    Fault,
                >(e.fault()) && final(self)@ == old(self)@,
            },
    {
        protocol(request.encode(MAX_CONTROL_LIMIT))?;
        protocol(response.encode(MAX_CONTROL_LIMIT))?;
        match request {
            Control::Scope(Scope::Page { request: id, scope: requested, after_entity, limit }) =>
            match response {
                Control::Scope(
                    Scope::PageResponse {
                        request: actual,
                        scope,
                        producer,
                        parent,
                        seal,
                        declared,
                        entries,
                        more,
                        ..
                    },
                ) => {
                    check(
                        *id == *actual && *requested == *scope && entries.len() as u64 <= limit.0
                            && entries_follow(entries, after_entity.0),
                        "scope page correlation mismatch",
                    )?;
                    check(
                        after_entity.0 != 0 || *more || entries.len() as u64 == declared.0,
                        "initial final page omits declared membership",
                    )?;
                    let incoming = ScopeObservation {
                        scope: *scope,
                        producer: *producer,
                        parent: *parent,
                        declared: *declared,
                        seal: *seal,
                        membership_verified: false,
                    };
                    let members = copy_members(&self.members);
                    let scopes = copy_scopes(&self.scopes);
                    let taken = self.take_page(&incoming, *after_entity, *more, entries);
                    match taken {
                        Ok(s) => {
                            proof {
                                upkeep::law_page_keeps_the_audit(
                                    old(self)@,
                                    page_facts(*request, *response)->0,
                                    self@,
                                    s,
                                );
                                durability::law_page_stays_compact(
                                    old(self)@,
                                    page_facts(*request, *response)->0,
                                    self@,
                                    s,
                                );
                            }
                            Ok(s)
                        },
                        Err(e) => {
                            self.members = members;
                            self.scopes = scopes;
                            Err(e)
                        },
                    }
                },
                _ => Err(refuse(ErrorCode::FrameError, "expected scope page response")),
            },
            _ => Err(refuse(ErrorCode::FrameError, "expected scope page request")),
        }
    }

    /// Holds a retained scope against all evidence.
    pub fn check_scope_record(&self, scope: &ScopeObservation) -> (r: Result<(), JournalError>)
        requires
            self@.ordered(),
        ensures
            match r {
                Ok(_) => self@.scope_fault(*scope) is None,
                Err(e) => self@.scope_fault(*scope) == Some(e.fault()),
            },
    {
        self.validate_scope_identity(scope)?;
        let actual = self.refresh_scope(scope)?;
        check(
            same_scope(&actual, scope),
            "retained scope observation disagrees with evidence",
        )
    }

    /// Bounded inventory of known identities. Terminal hints from membership
    /// pages are not WORK views and cannot supply missing attempts or manifests.
    pub fn scope_members(&self, scope: Number, after: Number, limit: PageLimit) -> (r: Result<
        Vec<ScopeMember>,
        JournalError,
    >)
        ensures
            match r {
                Ok(page) => self@.inventory_fault(scope, after, limit) is None && page@
                    == self@.inventory(scope, after, limit),
                Err(e) => self@.inventory_fault(scope, after, limit) == Some(e.fault()),
            },
    {
        protocol(scope.check())?;
        protocol(after.check())?;
        protocol(limit.check())?;
        let s = match self.find_scope(scope) {
            Some(s) => s,
            None => {
                return Err(refuse(ErrorCode::NotReady, "scope identity not observed"));
            },
        };
        let members = self.members_behind(scope, after, limit);
        let ghost f = Notes::producer_check(self@.scopes[s as int]);
        let mut i: usize = 0;
        proof {
            table::lemma_first_fault_whole(members@, f);
        }
        while i < members.len()
            invariant
                i <= members@.len(),
                s < self@.scopes.len(),
                f == Notes::producer_check(self@.scopes[s as int]),
                table::first_fault(members@.take(i as int), f) is None,
                self@.inventory_fault(scope, after, limit) == table::first_fault(members@, f),
            decreases members@.len() - i,
        {
            proof {
                table::lemma_first_fault_step(members@, f, i as int);
            }
            check(
                members[i].work.producer == self.scopes[s].producer,
                "member identity index changed",
            )?;
            i += 1;
        }
        proof {
            table::lemma_first_fault_whole(members@, f);
        }
        Ok(members)
    }

    fn members_behind(&self, scope: Number, after: Number, limit: PageLimit) -> (r: Vec<ScopeMember>)
        ensures
            r@ == self@.inventory(scope, after, limit),
    {
        let ghost q = behind(scope, after);
        let mut page: Vec<ScopeMember> = Vec::new();
        let mut i: usize = 0;
        proof {
            assert(self.members@.take(0) =~= Seq::empty());
        }
        while i < self.members.len()
            invariant
                i <= self.members@.len(),
                q == behind(scope, after),
                ({
                    let seen = table::rows_where(self.members@.take(i as int), q);
                    page@ == seen.take(scopes::least_len(seen.len(), limit.0 as nat) as int)
                }),
            decreases self.members@.len() - i,
        {
            let ghost seen = table::rows_where(self.members@.take(i as int), q);
            let ghost row = self.members@[i as int];
            let ghost shown = page@;
            proof {
                assert(self.members@.take(i + 1) =~= self.members@.take(i as int).push(row));
                table::lemma_rows_where_push(self.members@.take(i as int), q, row);
            }
            if self.members[i].work.scope == scope && self.members[i].work.entity.0 > after.0 {
                if (page.len() as u64) < limit.0 {
                    page.push(self.members[i]);
                    assert(page@ =~= seen.push(row).take(
                        scopes::least_len(seen.len() + 1, limit.0 as nat) as int,
                    ));
                } else {
                    assert(shown =~= seen.push(row).take(
                        scopes::least_len(seen.len() + 1, limit.0 as nat) as int,
                    ));
                }
            }
            i += 1;
        }
        assert(self.members@.take(i as int) =~= self.members@);
        page
    }

    pub fn scope_observation(&self, scope: Number) -> (r: Result<
        Option<ScopeObservation>,
        JournalError,
    >)
        requires
            self@.ordered(),
        ensures
            ({
                let at = self@.scope_at(scope);
                let fault = self@.scope_fault(self@.scopes[at]);
                match r {
                    Ok(Some(s)) => scope.valid() && at < self@.scopes.len() && fault is None && s
                        == self@.scopes[at],
                    Ok(None) => scope.valid() && at >= self@.scopes.len(),
                    Err(e) => if !scope.valid() {
                        e.fault() == Fault::Refused(ErrorCode::FrameError)
                    } else {
                        at < self@.scopes.len() && fault == Some(e.fault())
                    },
                }
            }),
    {
        protocol(scope.check())?;
        match self.find_scope(scope) {
            Some(s) => {
                self.check_scope_record(&self.scopes[s])?;
                Ok(Some(self.scopes[s]))
            },
            None => Ok(None),
        }
    }
}

fn entries_follow(entries: &Vec<ScopeEntry>, after: u64) -> (r: bool)
    ensures
        r == forall|i: int| 0 <= i < entries@.len() ==> (#[trigger] entries@[i]).entity.0 > after,
{
    let mut i: usize = 0;
    while i < entries.len()
        invariant
            i <= entries@.len(),
            forall|j: int| 0 <= j < i ==> (#[trigger] entries@[j]).entity.0 > after,
        decreases entries@.len() - i,
    {
        if entries[i].entity.0 <= after {
            return false;
        }
        i += 1;
    }
    true
}

pub fn same_scope(a: &ScopeObservation, b: &ScopeObservation) -> (r: bool)
    ensures
        r == (*a == *b),
{
    let seal = match (&a.seal, &b.seal) {
        (Some(x), Some(y)) => {
            proof {
                labels::lemma_digest_of(*x);
                labels::lemma_digest_of(*y);
            }
            x.same(y)
        },
        (None, None) => true,
        _ => false,
    };
    let parent = match (&a.parent, &b.parent) {
        (Some(x), Some(y)) => *x == *y,
        (None, None) => true,
        _ => false,
    };
    a.scope == b.scope && a.producer == b.producer && parent && a.declared == b.declared && seal
        && a.membership_verified == b.membership_verified
}

pub fn copy_members(rows: &Vec<ScopeMember>) -> (r: Vec<ScopeMember>)
    ensures
        r@ == rows@,
{
    let mut copy: Vec<ScopeMember> = Vec::new();
    let mut i: usize = 0;
    while i < rows.len()
        invariant
            i <= rows@.len(),
            copy@ == rows@.take(i as int),
        decreases rows@.len() - i,
    {
        copy.push(rows[i]);
        i += 1;
        assert(copy@ =~= rows@.take(i as int));
    }
    assert(rows@.take(i as int) =~= rows@);
    copy
}

pub fn copy_scopes(rows: &Vec<ScopeObservation>) -> (r: Vec<ScopeObservation>)
    ensures
        r@ == rows@,
{
    let mut copy: Vec<ScopeObservation> = Vec::new();
    let mut i: usize = 0;
    while i < rows.len()
        invariant
            i <= rows@.len(),
            copy@ == rows@.take(i as int),
        decreases rows@.len() - i,
    {
        copy.push(rows[i]);
        i += 1;
        assert(copy@ =~= rows@.take(i as int));
    }
    assert(rows@.take(i as int) =~= rows@);
    copy
}

} // verus!
