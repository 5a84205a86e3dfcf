//! Capability offers and the selection made from two of them.

use super::error::{require, Error, ErrorCode, DURABLE_WORK, RESULT_DELIVERY};
use super::numbers::{
    ConcurrencyLimit, ControlLimit, IdleMs, LifetimeMs, Number, ProfileId, ResponseFlag,
};
use super::wire::{self, read_array_head, Solid, Wire, Writer};
use crate::cbor;
use vstd::prelude::*;

verus! {

/// Profiles in strictly increasing order, at most thirty-two.
pub open spec fn profile_list(s: Seq<ProfileId>) -> bool {
    &&& s.len() <= 32
    &&& forall|i: int, j: int| 0 <= i < j < s.len() ==> (#[trigger] s[i]).0 < (#[trigger] s[j]).0
}

/// The list holds the profile.
pub open spec fn lists(s: Seq<ProfileId>, profile: u64) -> bool {
    exists|i: int| 0 <= i < s.len() && (#[trigger] s[i]).0 == profile
}

/// Every profile of the first list is in the second.
pub open spec fn listed_in(a: Seq<ProfileId>, b: Seq<ProfileId>) -> bool {
    forall|i: int| 0 <= i < a.len() ==> lists(b, (#[trigger] a[i]).0)
}

pub open spec fn legacy_profile(p: u64) -> bool {
    65281 <= p <= 65283
}

fn is_profile_list(s: &Vec<ProfileId>) -> (r: bool)
    ensures
        r == profile_list(s@),
{
    if s.len() > 32 {
        return false;
    }
    let mut i: usize = 1;
    while i < s.len()
        invariant
            1 <= i,
            s@.len() <= 32,
            s@.len() == 0 || i <= s@.len(),
            forall|j: int, k: int| 0 <= j < k < i && k < s@.len() ==> (#[trigger] s@[j]).0 < (#[trigger] s@[k]).0,
        decreases s@.len() - i,
    {
        if s[i - 1].0 >= s[i].0 {
            assert(s@[i - 1].0 >= s@[i as int].0);
            return false;
        }
        assert forall|j: int, k: int| 0 <= j < k < i + 1 && k < s@.len() implies (
        #[trigger] s@[j]).0 < (#[trigger] s@[k]).0 by {
            if k == i && j < i - 1 {
                assert(s@[j].0 < s@[i - 1].0);
            }
        }
        i += 1;
    }
    true
}

pub fn contains_profile(s: &Vec<ProfileId>, profile: u64) -> (r: bool)
    ensures
        r == lists(s@, profile),
{
    let mut i: usize = 0;
    while i < s.len()
        invariant
            i <= s@.len(),
            forall|j: int| 0 <= j < i ==> (#[trigger] s@[j]).0 != profile,
        decreases s@.len() - i,
    {
        if s[i].0 == profile {
            assert(s@[i as int].0 == profile);
            return true;
        }
        i += 1;
    }
    false
}

pub fn all_listed(a: &Vec<ProfileId>, b: &Vec<ProfileId>) -> (r: bool)
    ensures
        r == listed_in(a@, b@),
{
    let mut i: usize = 0;
    while i < a.len()
        invariant
            i <= a@.len(),
            forall|j: int| 0 <= j < i ==> lists(b@, (#[trigger] a@[j]).0),
        decreases a@.len() - i,
    {
        if !contains_profile(b, a[i].0) {
            assert(!lists(b@, a@[i as int].0));
            return false;
        }
        i += 1;
    }
    true
}

fn lists_legacy(s: &Vec<ProfileId>) -> (r: bool)
    ensures
        r == exists|i: int| 0 <= i < s@.len() && legacy_profile((#[trigger] s@[i]).0),
{
    let mut i: usize = 0;
    while i < s.len()
        invariant
            i <= s@.len(),
            forall|j: int| 0 <= j < i ==> !legacy_profile((#[trigger] s@[j]).0),
        decreases s@.len() - i,
    {
        if 65281 <= s[i].0 && s[i].0 <= 65283 {
            assert(legacy_profile(s@[i as int].0));
            return true;
        }
        i += 1;
    }
    false
}

/// An offer of profiles and limits, or the selection made from two offers.
#[derive(Debug, Clone, PartialEq, Eq)]
pub struct Capabilities {
    pub response: ResponseFlag,
    pub supported: Vec<ProfileId>,
    pub required: Vec<ProfileId>,
    pub control_limit: ControlLimit,
    pub stream_limit: ConcurrencyLimit,
    pub pending_limit: ConcurrencyLimit,
    pub object_limit: Number,
    pub stream_idle_ms: IdleMs,
    pub stream_lifetime_ms: LifetimeMs,
}

impl Capabilities {
    /// The fields in the order of their encoding.
    pub open spec fn fields(self) -> (ResponseFlag, (Vec<ProfileId>, (Vec<ProfileId>, (ControlLimit, (ConcurrencyLimit, (ConcurrencyLimit, (Number, (IdleMs, LifetimeMs)))))))) {
        (self.response, (self.supported, (self.required, (self.control_limit, (self.stream_limit, (self.pending_limit, (self.object_limit, (self.stream_idle_ms, self.stream_lifetime_ms))))))))
    }

    /// What must hold between the fields.
    pub open spec fn rule(self) -> bool {
        &&& self.lists_rule()
        &&& !self.results_without_work()
        &&& self.response.0 != 0 ==> forall|i: int|
            0 <= i < self.supported@.len() ==> !legacy_profile((#[trigger] self.supported@[i]).0)
    }
}

impl Wire for Capabilities {
    open spec fn wire(&self) -> Seq<u8> {
        cbor::head(4, 9) + self.fields().wire()
    }

    open spec fn shaped(&self) -> bool {
        self.fields().shaped()
    }

    open spec fn valid(&self) -> bool {
        self.fields().valid() && self.rule()
    }

    open spec fn refusal(&self) -> ErrorCode {
        if self.fields().valid() && self.lists_rule() && self.results_without_work() {
            ErrorCode::ExtensionUnsupported
        } else {
            ErrorCode::FrameError
        }
    }

    open spec fn agrees(&self, other: &Self) -> bool {
        self.fields().agrees(&other.fields())
    }

    proof fn valid_shaped(&self) {
        self.fields().valid_shaped();
    }

    proof fn prefix_free(a: &Self, b: &Self, x: Seq<u8>, y: Seq<u8>) {
        let ra = a.fields().wire() + x;
        let rb = b.fields().wire() + y;
        assert(a.wire() + x =~= cbor::head(4, 9) + ra);
        assert(b.wire() + y =~= cbor::head(4, 9) + rb);
        cbor::lemma_head_prefix_free(4, 9, ra, 4, 9, rb);
        <(ResponseFlag, (Vec<ProfileId>, (Vec<ProfileId>, (ControlLimit, (ConcurrencyLimit, (ConcurrencyLimit, (Number, (IdleMs, LifetimeMs))))))))>::prefix_free(&a.fields(), &b.fields(), x, y);
    }

    proof fn agrees_reflexive(&self) {
        self.fields().agrees_reflexive();
    }

    proof fn agrees_carries(a: &Self, b: &Self) {
        <(ResponseFlag, (Vec<ProfileId>, (Vec<ProfileId>, (ControlLimit, (ConcurrencyLimit, (ConcurrencyLimit, (Number, (IdleMs, LifetimeMs))))))))>::agrees_carries(&a.fields(), &b.fields());
        assert(a.supported@ =~= b.supported@);
        assert(a.required@ =~= b.required@);
    }

    fn check(&self) -> (r: Result<(), Error>) {
        self.response.check()?;
        self.supported.check()?;
        self.required.check()?;
        self.control_limit.check()?;
        self.stream_limit.check()?;
        self.pending_limit.check()?;
        self.object_limit.check()?;
        self.stream_idle_ms.check()?;
        self.stream_lifetime_ms.check()?;
        require(
            is_profile_list(&self.supported) && is_profile_list(&self.required),
            "profile list not sorted unique/bounded",
        )?;
        require(all_listed(&self.required, &self.supported), "required profile not supported")?;
        require(self.stream_idle_ms.0 <= self.stream_lifetime_ms.0, "idle exceeds lifetime")?;
        if self.has(RESULT_DELIVERY) && !self.has(DURABLE_WORK) {
            return Err(
                Error::new(
                    ErrorCode::ExtensionUnsupported,
                    "result delivery requires durable work",
                ),
            );
        }
        require(
            self.response.0 == 0 || !lists_legacy(&self.supported),
            "legacy profile selected on V2",
        )
    }

    fn same(&self, other: &Self) -> (r: bool) {
        self.response.same(&other.response)
            && self.supported.same(&other.supported)
            && self.required.same(&other.required)
            && self.control_limit.same(&other.control_limit)
            && self.stream_limit.same(&other.stream_limit)
            && self.pending_limit.same(&other.pending_limit)
            && self.object_limit.same(&other.object_limit)
            && self.stream_idle_ms.same(&other.stream_idle_ms)
            && self.stream_lifetime_ms.same(&other.stream_lifetime_ms)
    }

    fn duplicate(&self) -> (r: Self) {
        Capabilities {
            response: self.response.duplicate(),
            supported: self.supported.duplicate(),
            required: self.required.duplicate(),
            control_limit: self.control_limit.duplicate(),
            stream_limit: self.stream_limit.duplicate(),
            pending_limit: self.pending_limit.duplicate(),
            object_limit: self.object_limit.duplicate(),
            stream_idle_ms: self.stream_idle_ms.duplicate(),
            stream_lifetime_ms: self.stream_lifetime_ms.duplicate(),
        }
    }

    fn write(&self, w: &mut Writer) {
        w.array(9);
        self.response.write(w);
        self.supported.write(w);
        self.required.write(w);
        self.control_limit.write(w);
        self.stream_limit.write(w);
        self.pending_limit.write(w);
        self.object_limit.write(w);
        self.stream_idle_ms.write(w);
        self.stream_lifetime_ms.write(w);
        proof {
            broadcast use wire::lemma_concat_assoc;

            assert(w@ == old(w)@ + self.wire());
        }
    }

    fn read(bytes: &[u8], pos: usize) -> (r: Result<(Self, usize), Error>) {
        proof {
            assert forall|v: Capabilities|
                v.shaped() && #[trigger] cbor::at(bytes@, pos as int, v.wire()) implies cbor::at(
                bytes@,
                pos as int,
                cbor::head(4, 9),
            ) && cbor::at(bytes@, pos + cbor::head(4, 9).len(), v.fields().wire()) by {
                cbor::lemma_at_concat(bytes@, pos as int, cbor::head(4, 9), v.fields().wire());
            }
        }
        let start = read_array_head(bytes, pos, 9)?;
        let (fields, next) = <(ResponseFlag, (Vec<ProfileId>, (Vec<ProfileId>, (ControlLimit, (ConcurrencyLimit, (ConcurrencyLimit, (Number, (IdleMs, LifetimeMs))))))))>::read(bytes, start)?;
        let (response, (supported, (required, (control_limit, (stream_limit, (pending_limit, (object_limit, (stream_idle_ms, stream_lifetime_ms)))))))) = fields;
        Ok((Capabilities { response, supported, required, control_limit, stream_limit, pending_limit, object_limit, stream_idle_ms, stream_lifetime_ms }, next))
    }
}

impl Capabilities {
    pub open spec fn lists_rule(self) -> bool {
        &&& profile_list(self.supported@)
        &&& profile_list(self.required@)
        &&& listed_in(self.required@, self.supported@)
        &&& self.stream_idle_ms.0 <= self.stream_lifetime_ms.0
    }

    pub open spec fn supports(self, profile: u16) -> bool {
        lists(self.supported@, profile as u64)
    }

    /// Result delivery is offered without the durable work that it builds on.
    pub open spec fn results_without_work(self) -> bool {
        self.supports(RESULT_DELIVERY) && !self.supports(DURABLE_WORK)
    }

    pub fn has(&self, profile: u16) -> (r: bool)
        ensures
            r == self.supports(profile),
    {
        contains_profile(&self.supported, profile as u64)
    }
}

fn min_u64(a: u64, b: u64) -> (r: u64)
    ensures
        r == if a <= b { a } else { b },
{
    if a <= b {
        a
    } else {
        b
    }
}

/// A profile that this implementation understands and both sides list, for an authenticated owner.
pub open spec fn selectable(
    offer: Capabilities,
    enabled: Capabilities,
    authenticated: bool,
    p: u64,
) -> bool {
    authenticated && (p == DURABLE_WORK || p == RESULT_DELIVERY) && lists(offer.supported@, p)
        && lists(enabled.supported@, p)
}

/// A profile that one of the two sides insists on.
pub open spec fn demanded(offer: Capabilities, enabled: Capabilities, p: u64) -> bool {
    lists(offer.required@, p) || lists(enabled.required@, p)
}

/// Why no selection can be made from the two offers, if none can.
pub open spec fn select_refusal(
    offer: Capabilities,
    enabled: Capabilities,
    authenticated: bool,
) -> Option<ErrorCode> {
    if !offer.valid() {
        Some(offer.refusal())
    } else if !enabled.valid() {
        Some(enabled.refusal())
    } else if offer.response.0 != 0 || enabled.response.0 != 0 {
        Some(ErrorCode::FrameError)
    } else if !authenticated && (demanded(offer, enabled, DURABLE_WORK as u64) || demanded(
        offer,
        enabled,
        RESULT_DELIVERY as u64,
    )) {
        Some(ErrorCode::Unauthorized)
    } else if exists|p: u64| #[trigger]
        demanded(offer, enabled, p) && !selectable(offer, enabled, authenticated, p) {
        Some(ErrorCode::ExtensionUnsupported)
    } else {
        None
    }
}

/// `s` is the selection made from the two offers. As its lists are in increasing order, their
/// members determine them.
pub open spec fn is_selection(
    offer: Capabilities,
    enabled: Capabilities,
    authenticated: bool,
    s: Capabilities,
) -> bool {
    &&& s.valid()
    &&& s.response.0 == 1
    &&& forall|p: u64| #[trigger]
        lists(s.supported@, p) <==> selectable(offer, enabled, authenticated, p)
    &&& forall|p: u64| #[trigger] lists(s.required@, p) <==> demanded(offer, enabled, p)
    &&& s.control_limit.0 == least(offer.control_limit.0, enabled.control_limit.0)
    &&& s.stream_limit.0 == least(offer.stream_limit.0, enabled.stream_limit.0)
    &&& s.pending_limit.0 == least(offer.pending_limit.0, enabled.pending_limit.0)
    &&& s.object_limit.0 == least(offer.object_limit.0, enabled.object_limit.0)
    &&& s.stream_idle_ms.0 == least(offer.stream_idle_ms.0, enabled.stream_idle_ms.0)
    &&& s.stream_lifetime_ms.0 == least(offer.stream_lifetime_ms.0, enabled.stream_lifetime_ms.0)
}

pub open spec fn least(a: u64, b: u64) -> u64 {
    if a <= b {
        a
    } else {
        b
    }
}

/// What a client accepts of a response, knowing only its own offer.
pub open spec fn acceptable(offer: Capabilities, response: Capabilities) -> bool {
    &&& offer.response.0 == 0
    &&& response.response.0 == 1
    &&& listed_in(response.supported@, offer.supported@)
    &&& listed_in(offer.required@, response.required@)
    &&& response.control_limit.0 <= offer.control_limit.0
    &&& response.stream_limit.0 <= offer.stream_limit.0
    &&& response.pending_limit.0 <= offer.pending_limit.0
    &&& response.object_limit.0 <= offer.object_limit.0
    &&& response.stream_idle_ms.0 <= offer.stream_idle_ms.0
    &&& response.stream_lifetime_ms.0 <= offer.stream_lifetime_ms.0
}

/// The two understood profiles, as far as they are wanted, in increasing order.
fn pick_profiles(durable: bool, results: bool) -> (r: Vec<ProfileId>)
    ensures
        profile_list(r@),
        r.valid(),
        forall|p: u64| #[trigger]
            lists(r@, p) <==> (durable && p == DURABLE_WORK) || (results && p == RESULT_DELIVERY),
{
    let mut r: Vec<ProfileId> = Vec::new();
    if durable {
        r.push(ProfileId(DURABLE_WORK as u64));
    }
    if results {
        r.push(ProfileId(RESULT_DELIVERY as u64));
    }
    assert forall|p: u64| #[trigger] lists(r@, p) <==> (durable && p == DURABLE_WORK) || (results
        && p == RESULT_DELIVERY) by {
        if durable {
            assert(r@[0].0 == DURABLE_WORK);
        }
        if results {
            assert(r@[r@.len() - 1].0 == RESULT_DELIVERY);
        }
    }
    r
}

/// Nothing but the two understood profiles is in the list.
fn only_understood(s: &Vec<ProfileId>) -> (r: bool)
    ensures
        r == forall|p: u64| #[trigger] lists(s@, p) ==> p == DURABLE_WORK || p == RESULT_DELIVERY,
{
    let mut i: usize = 0;
    while i < s.len()
        invariant
            i <= s@.len(),
            forall|j: int|
                0 <= j < i ==> (#[trigger] s@[j]).0 == DURABLE_WORK || s@[j].0 == RESULT_DELIVERY,
        decreases s@.len() - i,
    {
        let p: u64 = s[i].0;
        if p != DURABLE_WORK as u64 && p != RESULT_DELIVERY as u64 {
            assert(lists(s@, p)) by {
                assert(s@[i as int].0 == p);
            }
            return false;
        }
        i += 1;
    }
    true
}

impl Capabilities {
    /// Computes the selection from the caller's offer and this implementation's enabled
    /// inventory. `authenticated_owner` is an already verified transport or policy result,
    /// not a fingerprint check. Only profiles that this implementation understands can be
    /// selected, even where the inventory lists others.
    pub fn select(offer: &Self, enabled: &Self, authenticated_owner: bool) -> (r: Result<Self, Error>)
        ensures
            match r {
                Ok(s) => select_refusal(*offer, *enabled, authenticated_owner) is None
                    && is_selection(*offer, *enabled, authenticated_owner, s),
                Err(e) => select_refusal(*offer, *enabled, authenticated_owner) == Some(e.code),
            },
    {
        offer.check()?;
        enabled.check()?;
        require(
            offer.response.0 == 0 && enabled.response.0 == 0,
            "selection needs two offers",
        )?;
        let durable = DURABLE_WORK as u64;
        let results = RESULT_DELIVERY as u64;
        let need_durable = contains_profile(&offer.required, durable) || contains_profile(
            &enabled.required,
            durable,
        );
        let need_results = contains_profile(&offer.required, results) || contains_profile(
            &enabled.required,
            results,
        );
        if !authenticated_owner && (need_durable || need_results) {
            return Err(
                Error::new(
                    ErrorCode::Unauthorized,
                    "required durable profile lacks authenticated owner",
                ),
            );
        }
        let have_durable = authenticated_owner && contains_profile(&offer.supported, durable)
            && contains_profile(&enabled.supported, durable);
        let have_results = authenticated_owner && contains_profile(&offer.supported, results)
            && contains_profile(&enabled.supported, results);
        let known = only_understood(&offer.required) && only_understood(&enabled.required);
        if !known || (need_durable && !have_durable) || (need_results && !have_results) {
            proof {
                if !known {
                    let p = choose|p: u64| #[trigger]
                        demanded(*offer, *enabled, p) && p != DURABLE_WORK && p != RESULT_DELIVERY;
                    if !(forall|p: u64| #[trigger]
                        lists(offer.required@, p) ==> p == DURABLE_WORK || p == RESULT_DELIVERY) {
                        let q = choose|q: u64| #[trigger]
                            lists(offer.required@, q) && q != DURABLE_WORK && q != RESULT_DELIVERY;
                        assert(demanded(*offer, *enabled, q));
                    } else {
                        let q = choose|q: u64| #[trigger]
                            lists(enabled.required@, q) && q != DURABLE_WORK && q
                                != RESULT_DELIVERY;
                        assert(demanded(*offer, *enabled, q));
                    }
                    assert(!selectable(*offer, *enabled, authenticated_owner, p));
                } else if need_durable && !have_durable {
                    assert(demanded(*offer, *enabled, durable));
                } else {
                    assert(demanded(*offer, *enabled, results));
                }
            }
            return Err(
                Error::new(ErrorCode::ExtensionUnsupported, "required profile unavailable"),
            );
        }
        assert forall|p: u64| #[trigger] demanded(*offer, *enabled, p) implies selectable(
            *offer,
            *enabled,
            authenticated_owner,
            p,
        ) by {
            assert(p == DURABLE_WORK || p == RESULT_DELIVERY);
        }
        let selected = Capabilities {
            response: ResponseFlag(1),
            supported: pick_profiles(have_durable, have_results),
            required: pick_profiles(need_durable, need_results),
            control_limit: ControlLimit(
                min_u64(offer.control_limit.0, enabled.control_limit.0),
            ),
            stream_limit: ConcurrencyLimit(min_u64(offer.stream_limit.0, enabled.stream_limit.0)),
            pending_limit: ConcurrencyLimit(
                min_u64(offer.pending_limit.0, enabled.pending_limit.0),
            ),
            object_limit: Number(min_u64(offer.object_limit.0, enabled.object_limit.0)),
            stream_idle_ms: IdleMs(min_u64(offer.stream_idle_ms.0, enabled.stream_idle_ms.0)),
            stream_lifetime_ms: LifetimeMs(
                min_u64(offer.stream_lifetime_ms.0, enabled.stream_lifetime_ms.0),
            ),
        };
        proof {
            assert forall|i: int| 0 <= i < selected.required@.len() implies lists(
                selected.supported@,
                (#[trigger] selected.required@[i]).0,
            ) by {
                assert(lists(selected.required@, selected.required@[i].0));
            }
            assert forall|i: int| 0 <= i < selected.supported@.len() implies !legacy_profile(
                (#[trigger] selected.supported@[i]).0,
            ) by {
                assert(lists(selected.supported@, selected.supported@[i].0));
            }
            assert(selected.fields().valid());
            assert(selected.lists_rule());
        }
        Ok(selected)
    }

    /// Validates the response using only what the client actually knows. The server's private
    /// inventory is not available for recomputing the intersection.
    pub fn validate_selection(&self, response: &Self) -> (r: Result<(), Error>)
        ensures
            match r {
                Ok(_) => self.valid() && response.valid() && acceptable(*self, *response),
                Err(e) => if !self.valid() {
                    e.code == self.refusal()
                } else if !response.valid() {
                    e.code == response.refusal()
                } else {
                    !acceptable(*self, *response) && e.code == ErrorCode::FrameError
                },
            },
    {
        self.check()?;
        response.check()?;
        require(
            self.response.0 == 0 && response.response.0 == 1,
            "wrong selection direction",
        )?;
        require(
            all_listed(&response.supported, &self.supported) && all_listed(
                &self.required,
                &response.required,
            ),
            "unsolicited selection or required omission",
        )?;
        require(
            response.control_limit.0 <= self.control_limit.0 && response.stream_limit.0
                <= self.stream_limit.0 && response.pending_limit.0 <= self.pending_limit.0
                && response.object_limit.0 <= self.object_limit.0 && response.stream_idle_ms.0
                <= self.stream_idle_ms.0 && response.stream_lifetime_ms.0
                <= self.stream_lifetime_ms.0,
            "selected limit increased",
        )
    }
}

/// Every selection made from a client's offer is one that the client accepts: it names no profile
/// that was not offered, drops none that was required, and raises no limit.
pub proof fn law_selection_is_acceptable(
    offer: Capabilities,
    enabled: Capabilities,
    authenticated: bool,
    s: Capabilities,
)
    requires
        select_refusal(offer, enabled, authenticated) is None,
        is_selection(offer, enabled, authenticated, s),
    ensures
        acceptable(offer, s),
{
    assert forall|i: int| 0 <= i < s.supported@.len() implies lists(
        offer.supported@,
        (#[trigger] s.supported@[i]).0,
    ) by {
        assert(lists(s.supported@, s.supported@[i].0));
    }
    assert forall|i: int| 0 <= i < offer.required@.len() implies lists(
        s.required@,
        (#[trigger] offer.required@[i]).0,
    ) by {
        assert(lists(offer.required@, offer.required@[i].0));
    }
}

/// Without an authenticated owner nothing durable is selected.
pub proof fn law_selection_needs_owner(
    offer: Capabilities,
    enabled: Capabilities,
    s: Capabilities,
)
    requires
        is_selection(offer, enabled, false, s),
    ensures
        s.supported@.len() == 0,
        s.required@.len() == 0,
{
    if s.supported@.len() > 0 {
        assert(lists(s.supported@, s.supported@[0].0));
    }
    if s.required@.len() > 0 {
        assert(lists(s.supported@, s.required@[0].0));
    }
}

/// A profile is in a list.
pub open spec fn names(list: Seq<ProfileId>, p: u64) -> bool {
    exists|i: int| 0 <= i < list.len() && (#[trigger] list[i]).0 == p
}

/// What is selected is what both sides have: durable work and its results, each where both sides list
/// it and the owner is known, and nothing else; required where either side insists on it. Every limit
/// is one of the two that were offered, and above neither.
pub proof fn law_selection_is_what_both_have(
    offer: Capabilities,
    enabled: Capabilities,
    authenticated: bool,
    s: Capabilities,
    p: u64,
)
    requires
        is_selection(offer, enabled, authenticated, s),
    ensures
        names(s.supported@, p) <==> {
            &&& authenticated
            &&& p == DURABLE_WORK || p == RESULT_DELIVERY
            &&& names(offer.supported@, p)
            &&& names(enabled.supported@, p)
        },
        names(s.required@, p) <==> names(offer.required@, p) || names(enabled.required@, p),
        s.response.0 == 1,
        bounded(s.control_limit.0, offer.control_limit.0, enabled.control_limit.0),
        bounded(s.stream_limit.0, offer.stream_limit.0, enabled.stream_limit.0),
        bounded(s.pending_limit.0, offer.pending_limit.0, enabled.pending_limit.0),
        bounded(s.object_limit.0, offer.object_limit.0, enabled.object_limit.0),
        bounded(s.stream_idle_ms.0, offer.stream_idle_ms.0, enabled.stream_idle_ms.0),
        bounded(s.stream_lifetime_ms.0, offer.stream_lifetime_ms.0, enabled.stream_lifetime_ms.0),
{
    assert(lists(s.supported@, p) <==> selectable(offer, enabled, authenticated, p));
    assert(lists(s.required@, p) <==> demanded(offer, enabled, p));
}

/// The number is one of the two, and above neither.
pub open spec fn bounded(n: u64, a: u64, b: u64) -> bool {
    n <= a && n <= b && (n == a || n == b)
}

/// It does not matter which of the two sides computes the selection.
pub proof fn law_selection_is_symmetric(
    offer: Capabilities,
    enabled: Capabilities,
    authenticated: bool,
    s: Capabilities,
)
    requires
        offer.valid(),
        enabled.valid(),
    ensures
        select_refusal(offer, enabled, authenticated) == select_refusal(
            enabled,
            offer,
            authenticated,
        ),
        is_selection(offer, enabled, authenticated, s) <==> is_selection(
            enabled,
            offer,
            authenticated,
            s,
        ),
{
    assert forall|p: u64| #[trigger] demanded(offer, enabled, p) == demanded(
        enabled,
        offer,
        p,
    ) by {}
    assert forall|p: u64| #[trigger] demanded(enabled, offer, p) == demanded(
        offer,
        enabled,
        p,
    ) by {}
    assert forall|p: u64| #[trigger] selectable(offer, enabled, authenticated, p) == selectable(
        enabled,
        offer,
        authenticated,
        p,
    ) by {}
    if is_selection(offer, enabled, authenticated, s) {
        assert forall|p: u64| #[trigger] lists(s.supported@, p) <==> selectable(
            enabled,
            offer,
            authenticated,
            p,
        ) by {
            assert(selectable(offer, enabled, authenticated, p) == selectable(
                enabled,
                offer,
                authenticated,
                p,
            ));
        }
    }
    if is_selection(enabled, offer, authenticated, s) {
        assert forall|p: u64| #[trigger] lists(s.supported@, p) <==> selectable(
            offer,
            enabled,
            authenticated,
            p,
        ) by {
            assert(selectable(enabled, offer, authenticated, p) == selectable(
                offer,
                enabled,
                authenticated,
                p,
            ));
        }
    }
}

/// Two valid offers come to a selection exactly where nothing is required that the owner or the other
/// side lacks. What is required of an unknown owner is refused as unauthorized, anything else as
/// unsupported.
pub proof fn law_offers_meet_where_requirements_do(
    offer: Capabilities,
    enabled: Capabilities,
    authenticated: bool,
)
    requires
        offer.valid(),
        enabled.valid(),
        offer.response.0 == 0,
        enabled.response.0 == 0,
    ensures
        ({
            let refusal = select_refusal(offer, enabled, authenticated);
            let met = forall|p: u64|
                #![trigger names(offer.required@, p)]
                #![trigger names(enabled.required@, p)]
                names(offer.required@, p) || names(enabled.required@, p) ==> {
                    &&& authenticated
                    &&& p == DURABLE_WORK || p == RESULT_DELIVERY
                    &&& names(offer.supported@, p)
                    &&& names(enabled.supported@, p)
                };
            let durable = names(offer.required@, DURABLE_WORK as u64) || names(
                enabled.required@,
                DURABLE_WORK as u64,
            ) || names(offer.required@, RESULT_DELIVERY as u64) || names(
                enabled.required@,
                RESULT_DELIVERY as u64,
            );
            &&& refusal is None <==> met
            &&& !authenticated && durable ==> refusal == Some(ErrorCode::Unauthorized)
            &&& authenticated && !met ==> refusal == Some(ErrorCode::ExtensionUnsupported)
        }),
{
    let met = forall|p: u64|
        #![trigger names(offer.required@, p)]
        #![trigger names(enabled.required@, p)]
        names(offer.required@, p) || names(enabled.required@, p) ==> {
            &&& authenticated
            &&& p == DURABLE_WORK || p == RESULT_DELIVERY
            &&& names(offer.supported@, p)
            &&& names(enabled.supported@, p)
        };
    assert forall|p: u64| #[trigger] demanded(offer, enabled, p) == (names(offer.required@, p)
        || names(enabled.required@, p)) by {}
    if met {
        assert forall|p: u64| #[trigger] demanded(offer, enabled, p) implies selectable(
            offer,
            enabled,
            authenticated,
            p,
        ) by {
            assert(names(offer.required@, p) || names(enabled.required@, p));
        }
        assert(names(offer.required@, DURABLE_WORK as u64) ==> authenticated);
        assert(names(enabled.required@, DURABLE_WORK as u64) ==> authenticated);
        assert(names(offer.required@, RESULT_DELIVERY as u64) ==> authenticated);
        assert(names(enabled.required@, RESULT_DELIVERY as u64) ==> authenticated);
    } else {
        let p = choose|p: u64|
            #![trigger names(offer.required@, p)]
            #![trigger names(enabled.required@, p)]
            !(names(offer.required@, p) || names(enabled.required@, p) ==> {
                &&& authenticated
                &&& p == DURABLE_WORK || p == RESULT_DELIVERY
                &&& names(offer.supported@, p)
                &&& names(enabled.supported@, p)
            });
        assert(demanded(offer, enabled, p) && !selectable(offer, enabled, authenticated, p));
    }
}

/// A client accepts a selection that stays within its offer, and no other: it is an answer to an offer,
/// names only what was offered, keeps what was required, and raises no limit.
pub proof fn law_client_accepts_what_it_offered(offer: Capabilities, response: Capabilities)
    ensures
        acceptable(offer, response) <==> {
            &&& offer.response.0 == 0
            &&& response.response.0 == 1
            &&& forall|i: int|
                0 <= i < response.supported@.len() ==> names(
                    offer.supported@,
                    (#[trigger] response.supported@[i]).0,
                )
            &&& forall|i: int|
                0 <= i < offer.required@.len() ==> names(
                    response.required@,
                    (#[trigger] offer.required@[i]).0,
                )
            &&& response.control_limit.0 <= offer.control_limit.0
            &&& response.stream_limit.0 <= offer.stream_limit.0
            &&& response.pending_limit.0 <= offer.pending_limit.0
            &&& response.object_limit.0 <= offer.object_limit.0
            &&& response.stream_idle_ms.0 <= offer.stream_idle_ms.0
            &&& response.stream_lifetime_ms.0 <= offer.stream_lifetime_ms.0
        },
{
    if acceptable(offer, response) {
        assert forall|i: int| 0 <= i < response.supported@.len() implies names(
            offer.supported@,
            (#[trigger] response.supported@[i]).0,
        ) by {
            assert(lists(offer.supported@, response.supported@[i].0));
        }
        assert forall|i: int| 0 <= i < offer.required@.len() implies names(
            response.required@,
            (#[trigger] offer.required@[i]).0,
        ) by {
            assert(lists(response.required@, offer.required@[i].0));
        }
    } else {
        assert forall|l: Seq<ProfileId>, p: u64| #[trigger] names(l, p) == lists(l, p) by {}
    }
}

} // verus!
