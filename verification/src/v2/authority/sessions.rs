//! Session creation and attachment.

use super::super::commitments::SessionIdentity;
use super::super::error::{ErrorCode, DURABLE_WORK, MAX_NUMBER, RESULT_DELIVERY};
use super::super::labels::IdentityLabel;
use super::super::messages::{self, Control, Session};
use super::super::negotiation::Capabilities;
use super::super::numbers::{Id, Number, Producer};
use super::super::records::Policy;
use super::super::wire::Wire;
use super::accounts;
use super::store::{
    self, authorize, increment, protocol, Access, AuthorityStore, Binding, ClockReading, Fault, Grants,
    OwnerRow, Permission, ScopeRow, SessionRow, StoreError, Tables,
};
use super::table;
use crate::cbor;
use vstd::prelude::*;
use vstd::utf8::*;

verus! {

/// Why a connection may not use durable sessions, if it may not.
pub open spec fn selection_fault(caps: Capabilities) -> Option<Fault> {
    if !caps.valid() {
        Some(Fault::Refused(caps.refusal()))
    } else if caps.response.0 != 1 {
        Some(Fault::Refused(ErrorCode::FrameError))
    } else if !caps.supports(DURABLE_WORK) {
        Some(Fault::Refused(ErrorCode::ExtensionUnsupported))
    } else {
        None
    }
}

/// The connection has selected durable work.
pub fn selected(caps: &Capabilities) -> (r: Result<(), StoreError>)
    ensures
        match r {
            Ok(_) => selection_fault(*caps) is None,
            Err(e) => selection_fault(*caps) == Some(e.fault()),
        },
{
    match caps.check() {
        Ok(_) => {},
        Err(e) => {
            return Err(StoreError::Protocol(e));
        },
    }
    if caps.response.0 != 1 {
        return Err(protocol(ErrorCode::FrameError, "capabilities are not a selection"));
    }
    if !caps.has(DURABLE_WORK) {
        return Err(protocol(ErrorCode::ExtensionUnsupported, "durable work not selected"));
    }
    Ok(())
}

/// Why a connection cannot serve a retained session, if it cannot: the profile combination must be
/// the one of its creation, and what was promised must still be representable.
pub open spec fn connection_fault(row: SessionRow, caps: Capabilities) -> Option<Fault> {
    if caps.supports(RESULT_DELIVERY) != row.binding.results {
        Some(Fault::Refused(ErrorCode::ExtensionUnsupported))
    } else if caps.control_limit.0 < row.required_control || caps.object_limit.0
        < row.required_object {
        Some(Fault::Refused(ErrorCode::LimitExceeded))
    } else {
        None
    }
}

pub fn check_connection(row: &SessionRow, caps: &Capabilities) -> (r: Result<(), StoreError>)
    ensures
        match r {
            Ok(_) => connection_fault(*row, *caps) is None,
            Err(e) => connection_fault(*row, *caps) == Some(e.fault()),
        },
{
    if caps.has(RESULT_DELIVERY) != row.binding.results {
        return Err(
            protocol(ErrorCode::ExtensionUnsupported, "session profile combination changed"),
        );
    }
    if caps.control_limit.0 < row.required_control || caps.object_limit.0 < row.required_object {
        return Err(
            protocol(
                ErrorCode::LimitExceeded,
                "connection cannot represent retained session promises",
            ),
        );
    }
    Ok(())
}

pub open spec fn owned_by(owner: Seq<char>) -> spec_fn(SessionRow) -> bool {
    |r: SessionRow| r.binding.identity.owner.0@ == owner
}

pub open spec fn created_as(owner: Seq<char>, sequence: Id) -> spec_fn(SessionRow) -> bool {
    |r: SessionRow|
        r.binding.identity.owner.0@ == owner && r.binding.creation_sequence == sequence
}

/// The root scope of a new session.
pub open spec fn root_row(row: u64, generation: Id) -> ScopeRow {
    ScopeRow {
        row,
        generation,
        scope: Number(0),
        producer: Producer(0),
        parent: None,
        last_entity: 0,
        declared: Number(0),
        seal: None,
        cancelled: false,
        revoked: false,
        summary: None,
    }
}

impl Tables {
    pub open spec fn last_scope_row(self) -> u64 {
        if self.scopes.len() > 0 {
            self.scopes.last().row
        } else {
            0
        }
    }

    pub open spec fn creation_at(self, owner: Seq<char>, sequence: Id) -> int {
        table::index_where(self.sessions, created_as(owner, sequence))
    }

    /// The retained session of a creation number that was used before, or why it cannot be given.
    pub open spec fn creation_replay(
        self,
        owner: Seq<char>,
        sequence: Id,
        policy: Policy,
        caps: Capabilities,
    ) -> Result<int, Fault> {
        let i = self.creation_at(owner, sequence);
        let row = self.sessions[i];
        if i >= self.sessions.len() {
            Err(Fault::Refused(ErrorCode::Expired))
        } else if self.revoked(row.binding.identity.generation) {
            Err(Fault::Refused(ErrorCode::Unauthorized))
        } else if row.retiring {
            Err(Fault::Refused(ErrorCode::Expired))
        } else if connection_fault(row, caps) is Some {
            Err(connection_fault(row, caps)->0)
        } else if row.binding.policy != policy {
            Err(Fault::Refused(ErrorCode::Conflict))
        } else {
            Ok(i)
        }
    }

    pub open spec fn create_entry_fault(
        self,
        sequence: Id,
        policy: Policy,
        caps: Capabilities,
        grants: Grants,
    ) -> Option<Fault> {
        if selection_fault(caps) is Some {
            selection_fault(caps)
        } else if !sequence.valid() || !policy.valid() {
            Some(Fault::Refused(ErrorCode::FrameError))
        } else if !grants.create {
            Some(Fault::Refused(ErrorCode::Unauthorized))
        } else {
            None
        }
    }

    /// Why a new session is not created, if it is not.
    pub open spec fn create_fault(
        self,
        owner: IdentityLabel,
        sequence: Id,
        access: Access,
        clock: ClockReading,
    ) -> Option<Fault> {
        let last = self.last_creation(owner.0@);
        if last >= MAX_NUMBER {
            Some(Fault::Refused(ErrorCode::LimitExceeded))
        } else if sequence.0 != last + 1 {
            Some(Fault::Refused(ErrorCode::Conflict))
        } else if table::rows_where(self.sessions, owned_by(owner.0@)).len()
            >= self.policy.sessions_per_owner.0 || self.sessions.len() >= self.policy.sessions.0
            || (self.owner_at(owner.0@) >= self.owners.len() && self.owners.len()
            >= self.policy.owners.0) || self.last_generation >= MAX_NUMBER || self.last_scope_row()
            >= MAX_NUMBER {
            Some(Fault::Refused(ErrorCode::LimitExceeded))
        } else if !self.safe(clock) {
            Some(Fault::Refused(ErrorCode::ClockUnsafe))
        } else if !(owner.valid() && self.authority.valid() && self.policy.session_limits.valid()) {
            Some(Fault::Refused(ErrorCode::FrameError))
        } else if !access.after.create {
            Some(Fault::Refused(ErrorCode::Unauthorized))
        } else {
            None
        }
    }

    /// Why an owner may not go on with a session over a connection, if they may not.
    pub open spec fn attach_fault(
        self,
        owner: Seq<char>,
        expected: SessionIdentity,
        caps: Capabilities,
        grants: Grants,
    ) -> Option<Fault> {
        if selection_fault(caps) is Some {
            selection_fault(caps)
        } else if !grants.inspect || owner != expected.owner.0@ {
            Some(Fault::Refused(ErrorCode::Unauthorized))
        } else if self.session_fault(expected, grants, Permission::Inspect) is Some {
            self.session_fault(expected, grants, Permission::Inspect)
        } else {
            connection_fault(self.sessions[self.session_at(expected.generation)], caps)
        }
    }

    /// The tables after a session was created, together with its binding: the owner's high-water
    /// mark, the generation, the session and its root scope change together.
    pub open spec fn created(
        self,
        owner: IdentityLabel,
        sequence: Id,
        policy: Policy,
        caps: Capabilities,
        clock: ClockReading,
        after: Tables,
        binding: Binding,
    ) -> bool {
        let o = self.owner_at(owner.0@);
        let kept = after.sessions.last();
        let generation = Id((self.last_generation + 1) as u64);
        &&& binding.identity.authority.0@ == self.authority.0@
        &&& binding.identity.owner.0@ == owner.0@
        &&& binding.identity.generation == generation
        &&& binding.creation_sequence == sequence
        &&& binding.policy == policy
        &&& binding.limits == self.policy.session_limits
        &&& binding.results == caps.supports(RESULT_DELIVERY)
        &&& binding.control_limit == caps.control_limit
        &&& binding.object_limit == caps.object_limit
        &&& kept == (SessionRow {
            binding: kept.binding,
            entities: 0,
            operations: 0,
            required_control: 0,
            required_object: 0,
            retiring: false,
        })
        &&& kept.binding.agrees(binding)
        &&& if o < self.owners.len() {
            after.owners == self.owners.update(
                o,
                (OwnerRow { last_creation: sequence.0, ..self.owners[o] }),
            )
        } else {
            &&& after.owners.last().owner.0@ == owner.0@
            &&& after.owners.last().last_creation == sequence.0
            &&& after.owners == self.owners.push(after.owners.last())
        }
        &&& after == (Tables {
            last_generation: generation.0,
            greatest: clock.utc_ms.0,
            owners: after.owners,
            sessions: self.sessions.push(kept),
            scopes: self.scopes.push(root_row((self.last_scope_row() + 1) as u64, generation)),
            ..self
        })
    }
}

/// The creation number that an owner who may look is told to use next.
pub open spec fn creation_offered(
    t: Tables,
    owner: Seq<char>,
    grants: Grants,
    r: Result<Id, StoreError>,
) -> bool {
    match r {
        Ok(id) => grants.inspect && id.0 == t.last_creation(owner) + 1 && id.valid(),
        Err(e) => Some(e.fault()) == if !grants.inspect {
            Some(Fault::Refused(ErrorCode::Unauthorized))
        } else if t.last_creation(owner) >= MAX_NUMBER {
            Some(Fault::Refused(ErrorCode::LimitExceeded))
        } else {
            None
        },
    }
}

/// What a request for a session comes to: a refusal that changes nothing, the retained session of a
/// number that was used before, or a new session.
pub open spec fn creation_decided(
    t: Tables,
    owner: IdentityLabel,
    sequence: Id,
    policy: Policy,
    caps: Capabilities,
    access: Access,
    clock: ClockReading,
    r: Result<Binding, StoreError>,
    after: Tables,
) -> bool {
    let entry = t.create_entry_fault(sequence, policy, caps, access.before);
    let replayed = sequence.0 <= t.last_creation(owner.0@);
    let replay = t.creation_replay(owner.0@, sequence, policy, caps);
    match r {
        Ok(b) => entry is None && if replayed {
            &&& after == t
            &&& replay matches Ok(i) && b.agrees(t.sessions[i].binding)
        } else {
            &&& t.create_fault(owner, sequence, access, clock) is None
            &&& t.created(owner, sequence, policy, caps, clock, after, b)
        },
        Err(e) => after == t && Some(e.fault()) == (if entry is Some {
            entry
        } else if replayed {
            match replay {
                Ok(_) => None,
                Err(fault) => Some(fault),
            }
        } else {
            t.create_fault(owner, sequence, access, clock)
        }),
    }
}

/// The announcement of a binding fits every control frame.
proof fn lemma_announcement_sendable(binding: Binding, c: Control, limit: usize)
    requires
        binding.announcement(Id(MAX_NUMBER), c),
        binding.identity.authority.valid(),
        binding.identity.owner.valid(),
        binding.identity.generation.valid(),
        binding.creation_sequence.valid(),
        binding.policy.valid(),
        binding.limits.valid(),
        messages::limit_in_range(limit),
    ensures
        c.sendable(limit),
{
    let a = encode_utf8(binding.identity.authority.0@).len();
    let o = encode_utf8(binding.identity.owner.0@).len();
    let p = binding.policy;
    let l = binding.limits;
    cbor::lemma_head(4, 8);
    cbor::lemma_head(4, 3);
    cbor::lemma_head(4, 6);
    cbor::lemma_head(0, 1);
    cbor::lemma_head(0, MAX_NUMBER as nat);
    cbor::lemma_head(3, a);
    cbor::lemma_head(3, o);
    cbor::lemma_head(0, binding.identity.generation.0 as nat);
    cbor::lemma_head(0, binding.creation_sequence.0 as nat);
    cbor::lemma_head(0, p.execution_limit_ms.0 as nat);
    cbor::lemma_head(0, p.output_retention_ms.0 as nat);
    cbor::lemma_head(0, p.receipt_retention_ms.0 as nat);
    cbor::lemma_head(0, l.scopes.0 as nat);
    cbor::lemma_head(0, l.entities.0 as nat);
    cbor::lemma_head(0, l.operations.0 as nat);
    cbor::lemma_head(0, l.retained_input_bytes.0 as nat);
    cbor::lemma_head(0, l.retained_output_bytes.0 as nat);
    cbor::lemma_head(0, l.active_jobs.0 as nat);
    match c {
        Control::Session(s) => {
            match s {
                Session::Binding { request, authority, owner, generation, creation_sequence, policy, limits } => {
                    assert(policy.wire().len() <= 36);
                    assert(limits.wire().len() <= 63);
                    assert(authority.wire().len() <= 137);
                    assert(owner.wire().len() <= 137);
                    assert((request, (authority, (owner, (generation, (creation_sequence, (policy, limits)))))).valid());
                },
                _ => {},
            }
        },
        _ => {},
    }
}

impl AuthorityStore {
    /// Read-only sequence discovery does not allocate owner history or require
    /// a safe clock. The next creation still serializes against other creators.
    pub fn next_creation(&self, owner: &IdentityLabel, grants: &Grants) -> (r: Result<Id, StoreError>)
        ensures
            creation_offered(self@, owner.0@, *grants, r),
    {
        authorize(grants, Permission::Inspect)?;
        let last: u64 = match self.find_owner(owner) {
            Some(i) => self.owners[i].last_creation,
            None => 0,
        };
        Ok(Id(increment(last)?))
    }

    fn count_owned(&self, owner: &IdentityLabel) -> (n: u64)
        ensures
            n == table::rows_where(self@.sessions, owned_by(owner.0@)).len(),
    {
        let mut n: u64 = 0;
        let mut i: usize = 0;
        let ghost p = owned_by(owner.0@);
        while i < self.sessions.len()
            invariant
                i <= self.sessions@.len(),
                n <= i,
                p == owned_by(owner.0@),
                n == table::rows_where(self.sessions@.take(i as int), p).len(),
            decreases self.sessions@.len() - i,
        {
            proof {
                let row = self.sessions@[i as int];
                assert(self.sessions@.take(i + 1) =~= self.sessions@.take(i as int).push(row));
                table::lemma_rows_where_push(self.sessions@.take(i as int), p, row);
            }
            if self.sessions[i].binding.identity.owner.same(owner) {
                n += 1;
            }
            i += 1;
        }
        assert(self.sessions@.take(i as int) =~= self.sessions@);
        n
    }

    fn find_creation(&self, owner: &IdentityLabel, sequence: Id) -> (r: Option<usize>)
        ensures
            match r {
                Some(i) => i == self@.creation_at(owner.0@, sequence) && i < self@.sessions.len(),
                None => self@.creation_at(owner.0@, sequence) == self@.sessions.len(),
            },
    {
        let mut i: usize = 0;
        let ghost p = created_as(owner.0@, sequence);
        while i < self.sessions.len()
            invariant
                i <= self.sessions@.len(),
                p == created_as(owner.0@, sequence),
                forall|j: int| 0 <= j < i ==> !p(#[trigger] self.sessions@[j]),
            decreases self.sessions@.len() - i,
        {
            if self.sessions[i].binding.identity.owner.same(owner)
                && self.sessions[i].binding.creation_sequence == sequence {
                proof {
                    table::lemma_index_unique(self.sessions@, p, i as int);
                }
                return Some(i);
            }
            i += 1;
        }
        proof {
            table::lemma_index_unique(self.sessions@, p, i as int);
        }
        None
    }

    fn replay_creation(
        &self,
        owner: &IdentityLabel,
        sequence: Id,
        policy: &Policy,
        caps: &Capabilities,
    ) -> (r: Result<Binding, StoreError>)
        ensures
            match r {
                Ok(b) => self@.creation_replay(owner.0@, sequence, *policy, *caps) matches Ok(i)
                    && b.agrees(self@.sessions[i].binding),
                Err(e) => self@.creation_replay(owner.0@, sequence, *policy, *caps) == Err::<
                    int,
                    Fault,
                >(e.fault()),
            },
    {
        let i = match self.find_creation(owner, sequence) {
            Some(i) => i,
            None => {
                return Err(protocol(ErrorCode::Expired, "creation receipt retired"));
            },
        };
        let generation = self.sessions[i].binding.identity.generation;
        let revoked = match self.find_scope(generation, Number(0)) {
            Some(k) => self.scopes[k].revoked,
            None => false,
        };
        if revoked {
            return Err(protocol(ErrorCode::Unauthorized, "authority access denied"));
        }
        if self.sessions[i].retiring {
            return Err(protocol(ErrorCode::Expired, "session retirement committed"));
        }
        check_connection(&self.sessions[i], caps)?;
        if self.sessions[i].binding.policy != *policy {
            return Err(protocol(ErrorCode::Conflict, "creation policy changed"));
        }
        Ok(self.sessions[i].binding.duplicate())
    }

    /// Commits owner high-water mark, authority generation, binding and root together.
    /// An identical replay is a retained read, including under an unsafe clock.
    pub fn create_session(
        &mut self,
        owner: &IdentityLabel,
        sequence: Id,
        policy: &Policy,
        caps: &Capabilities,
        access: &Access,
        clock: ClockReading,
    ) -> (r: Result<Binding, StoreError>)
        requires
            old(self)@.well_formed(),
        ensures
            final(self)@.well_formed(),
            creation_decided(
                old(self)@,
                *owner,
                sequence,
                *policy,
                *caps,
                *access,
                clock,
                r,
                final(self)@,
            ),
    {
        let ghost t = self@;
        selected(caps)?;
        if sequence.check().is_err() || policy.check().is_err() {
            return Err(protocol(ErrorCode::FrameError, "invalid creation parameters"));
        }
        authorize(&access.before, Permission::Create)?;
        let known = self.find_owner(owner);
        let previous: u64 = match known {
            Some(i) => self.owners[i].last_creation,
            None => 0,
        };
        if sequence.0 <= previous {
            return self.replay_creation(owner, sequence, policy, caps);
        }
        let expected = increment(previous)?;
        if sequence.0 != expected {
            return Err(
                protocol(ErrorCode::Conflict, "creation sequence is ahead of authority"),
            );
        }
        if self.count_owned(owner) >= self.policy.sessions_per_owner.0 || self.sessions.len() as u64
            >= self.policy.sessions.0 {
            return Err(protocol(ErrorCode::LimitExceeded, "session capacity exhausted"));
        }
        if known.is_none() && self.owners.len() as u64 >= self.policy.owners.0 {
            return Err(protocol(ErrorCode::LimitExceeded, "owner history capacity exhausted"));
        }
        let generation = Id(increment(self.last_generation)?);
        let last_row: u64 = if self.scopes.len() > 0 {
            self.scopes[self.scopes.len() - 1].row
        } else {
            0
        };
        let row = increment(last_row)?;
        let now = self.check_clock(clock)?;
        let binding = Binding {
            identity: SessionIdentity {
                authority: self.authority.duplicate(),
                owner: owner.duplicate(),
                generation,
            },
            creation_sequence: sequence,
            policy: *policy,
            limits: self.policy.session_limits,
            results: caps.has(RESULT_DELIVERY),
            control_limit: caps.control_limit,
            object_limit: caps.object_limit,
        };
        let announcement = binding.response(Id(MAX_NUMBER));
        proof {
            if owner.valid() && self.authority.valid() && self.policy.session_limits.valid() {
                lemma_announcement_sendable(
                    binding,
                    announcement,
                    caps.control_limit.0 as usize,
                );
            }
        }
        match announcement.encode(caps.control_limit.0 as usize) {
            Ok(_) => {},
            Err(e) => {
                return Err(StoreError::Protocol(e));
            },
        }
        authorize(&access.after, Permission::Create)?;
        match known {
            Some(i) => {
                self.owners[i].last_creation = sequence.0;
                assert(self.owners@ =~= t.owners.update(
                    i as int,
                    (OwnerRow { last_creation: sequence.0, ..t.owners[i as int] }),
                ));
            },
            None => {
                self.owners.push(
                    OwnerRow { owner: owner.duplicate(), last_creation: sequence.0 },
                );
                assert(self.owners@ =~= t.owners.push(self.owners@.last()));
            },
        }
        self.last_generation = generation.0;
        self.sessions.push(
            SessionRow {
                binding: binding.duplicate(),
                entities: 0,
                operations: 0,
                required_control: 0,
                required_object: 0,
                retiring: false,
            },
        );
        self.scopes.push(
            ScopeRow {
                row,
                generation,
                scope: Number(0),
                producer: Producer(0),
                parent: None,
                last_entity: 0,
                declared: Number(0),
                seal: None,
                cancelled: false,
                revoked: false,
                summary: None,
            },
        );
        self.greatest = now.0;
        proof {
            assert(self@.sessions =~= t.sessions.push(self@.sessions.last()));
            assert(self@.scopes =~= t.scopes.push(root_row(row, generation)));
            assert forall|name: Seq<char>| #[trigger]
                self@.last_creation(name) >= t.last_creation(name) by {
                lemma_creations_grow(t, self@, *owner, sequence, name);
            }
            lemma_creations_grow(t, self@, *owner, sequence, owner.0@);
            assert(self@.named(self@.sessions.last()));
            accounts::lemma_session_joins(
                t,
                self@,
                self@.sessions.last(),
                root_row(row, generation),
            );
            lemma_creation_keeps_order(t, self@, row, generation);
        }
        Ok(binding)
    }

    /// `authenticated_owner` comes from the verified connection, never its
    /// caller-supplied body. It is checked before retained identity is read.
    pub fn attach_session(
        &self,
        authenticated_owner: &IdentityLabel,
        expected: &SessionIdentity,
        caps: &Capabilities,
        grants: &Grants,
    ) -> (r: Result<Binding, StoreError>)
        ensures
            ({
                let t = self@;
                let row = t.sessions[t.session_at(expected.generation)];
                let fault = t.attach_fault(authenticated_owner.0@, *expected, *caps, *grants);
                match r {
                    Ok(b) => fault is None && b.agrees(row.binding),
                    Err(e) => fault == Some(e.fault()),
                }
            }),
    {
        selected(caps)?;
        authorize(grants, Permission::Inspect)?;
        if !authenticated_owner.same(&expected.owner) {
            return Err(protocol(ErrorCode::Unauthorized, "authority access denied"));
        }
        let i = self.authorize_session(expected, grants, Permission::Inspect)?;
        check_connection(&self.sessions[i], caps)?;
        Ok(self.sessions[i].binding.duplicate())
    }
}

/// The creation numbers of owners only grow.
proof fn lemma_creations_grow(
    t: Tables,
    after: Tables,
    owner: IdentityLabel,
    sequence: Id,
    name: Seq<char>,
)
    requires
        sequence.0 > t.last_creation(owner.0@),
        ({
            let o = t.owner_at(owner.0@);
            if o < t.owners.len() {
                after.owners == t.owners.update(
                    o,
                    (OwnerRow { last_creation: sequence.0, ..t.owners[o] }),
                )
            } else {
                &&& after.owners.last().owner.0@ == owner.0@
                &&& after.owners.last().last_creation == sequence.0
                &&& after.owners == t.owners.push(after.owners.last())
            }
        }),
    ensures
        after.last_creation(name) >= t.last_creation(name),
        name == owner.0@ ==> after.last_creation(name) == sequence.0,
{
    let p = store::is_owner(name);
    let k = t.owner_at(name);
    table::lemma_index_where(t.owners, p);
    table::lemma_index_where(t.owners, store::is_owner(owner.0@));
    if t.owner_at(owner.0@) < t.owners.len() {
        table::lemma_index_alike(t.owners, p, after.owners);
    } else {
        assert forall|j: int| 0 <= j < k implies !p(#[trigger] after.owners[j]) by {
            assert(after.owners[j] == t.owners[j]);
            assert(!p(t.owners[j]));
        }
        if k < t.owners.len() {
            assert(after.owners[k] == t.owners[k]);
            table::lemma_index_unique(after.owners, p, k);
        } else if name == owner.0@ {
            table::lemma_index_unique(after.owners, p, k);
        }
    }
}

proof fn lemma_creation_keeps_order(t: Tables, after: Tables, row: u64, generation: Id)
    requires
        t.well_formed(),
        row == t.last_scope_row() + 1,
        row <= MAX_NUMBER,
        generation.0 == t.last_generation + 1,
        after.last_generation == generation.0,
        after.work == t.work,
        after.scopes == t.scopes.push(root_row(row, generation)),
        after.accounted(),
    ensures
        after.well_formed(),
{
    let n = t.scopes.len();
    assert forall|i: int| 0 <= i < n implies (#[trigger] t.scopes[i]).row < row by {
        if i < n - 1 {
            assert(t.scopes[i].row < t.scopes[n - 1].row);
        }
    }
    assert forall|i: int| 0 <= i < after.scopes.len() implies #[trigger] after.scopes[i] == (if i
        < n {
        t.scopes[i]
    } else {
        root_row(row, generation)
    }) by {}
    assert forall|i: int, j: int|
        0 <= i < j < after.scopes.len() && (#[trigger] after.scopes[i]).generation == (
        #[trigger] after.scopes[j]).generation implies after.scopes[i].scope
        != after.scopes[j].scope by {
        if j == n {
            assert(t.scopes[i].generation.0 <= t.last_generation);
        }
    }
    assert forall|i: int, k: int|
        0 <= i < after.work.len() && 0 <= k < after.scopes.len() && (
        #[trigger] after.work[i]).generation == (#[trigger] after.scopes[k]).generation
            && after.work[i].view.work.scope == after.scopes[k].scope
            implies after.work[i].view.work.entity.0 <= after.scopes[k].last_entity by {
        if k == n {
            assert(t.work[i].generation.0 <= t.last_generation);
        }
    }
}

/// Whatever is created later, the generation of a session is given out once: it is above every
/// generation that any retained row carries.
pub proof fn law_generation_is_fresh(
    t: Tables,
    owner: IdentityLabel,
    sequence: Id,
    policy: Policy,
    caps: Capabilities,
    clock: ClockReading,
    after: Tables,
    binding: Binding,
)
    requires
        t.well_formed(),
        t.last_generation < MAX_NUMBER,
        t.created(owner, sequence, policy, caps, clock, after, binding),
    ensures
        binding.identity.generation.0 > t.last_generation,
        after.last_generation == binding.identity.generation.0,
        forall|i: int|
            0 <= i < t.scopes.len() ==> (#[trigger] t.scopes[i]).generation
                != binding.identity.generation,
{
}

/// A creation that is asked for again after it was committed is answered with the session that it
/// created. The same number with another policy is refused.
pub proof fn law_creation_is_replayed(
    t: Tables,
    owner: IdentityLabel,
    sequence: Id,
    policy: Policy,
    caps: Capabilities,
    clock: ClockReading,
    after: Tables,
    binding: Binding,
    other: Policy,
)
    requires
        t.well_formed(),
        t.last_generation < MAX_NUMBER,
        t.creation_at(owner.0@, sequence) >= t.sessions.len(),
        t.created(owner, sequence, policy, caps, clock, after, binding),
        other != policy,
    ensures
        after.creation_replay(owner.0@, sequence, policy, caps) == Ok::<int, Fault>(
            t.sessions.len() as int,
        ),
        after.sessions[t.sessions.len() as int].binding.agrees(binding),
        after.creation_replay(owner.0@, sequence, other, caps) == Err::<int, Fault>(
            Fault::Refused(ErrorCode::Conflict),
        ),
{
    let p = created_as(owner.0@, sequence);
    let n = t.sessions.len() as int;
    table::lemma_index_where(t.sessions, p);
    assert forall|j: int| 0 <= j < n implies !p(#[trigger] after.sessions[j]) by {
        assert(after.sessions[j] == t.sessions[j]);
        assert(!p(t.sessions[j]));
    }
    table::lemma_index_unique(after.sessions, p, n);
    let q = store::is_scope(binding.identity.generation, Number(0));
    let m = t.scopes.len() as int;
    assert forall|j: int| 0 <= j < m implies !q(#[trigger] after.scopes[j]) by {
        assert(after.scopes[j] == t.scopes[j]);
        assert(t.scopes[j].generation.0 <= t.last_generation);
    }
    table::lemma_index_unique(after.scopes, q, m);
}

} // verus!
