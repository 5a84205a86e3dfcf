//! Validate commitments without inventing an observation revision or treating
//! arrival order as commit order. Both records have already passed wire checks.

use super::super::authority::store::Fault;
use super::super::commitments::Mutation;
use super::super::error::ErrorCode;
use super::super::numbers::{Disposition, Number, State};
use super::super::records::{
    self, AdmitParameters, Manifest, OperationReceipt, Outcome, WorkKey, WorkView,
};
use super::super::wire::Wire;
use super::storage::{refuse, Intent, JournalError};
use vstd::prelude::*;

verus! {

pub open spec fn integrity() -> Fault {
    Fault::Refused(ErrorCode::IntegrityError)
}

/// What is objected to where a condition does not hold.
pub open spec fn unless(condition: bool) -> Option<Fault> {
    if condition {
        None
    } else {
        Some(integrity())
    }
}

pub fn check(condition: bool, detail: &'static str) -> (r: Result<(), JournalError>)
    ensures
        match r {
            Ok(_) => condition,
            Err(e) => !condition && e.fault() == integrity(),
        },
{
    if condition {
        Ok(())
    } else {
        Err(refuse(ErrorCode::IntegrityError, detail))
    }
}

/// The work that an intent is about, where it is about work.
pub open spec fn target_of(intent: Intent) -> Option<WorkKey> {
    match intent.mutation {
        Mutation::Admit(p) => Some(p.work),
        Mutation::Retry { work, .. } => Some(work),
        Mutation::Cancel { work } => Some(work),
        Mutation::Skip { work } => Some(work),
        _ => None,
    }
}

pub fn target(intent: &Intent) -> (r: Option<WorkKey>)
    ensures
        r == target_of(*intent),
{
    match &intent.mutation {
        Mutation::Admit(p) => Some(p.work),
        Mutation::Retry { work, .. } => Some(*work),
        Mutation::Cancel { work } => Some(*work),
        Mutation::Skip { work } => Some(*work),
        _ => None,
    }
}

/// The end that an accepted fence promises (not an already stopped worker), with the time of its
/// acceptance and whether it came in time.
pub open spec fn fence_of(receipt: Outcome) -> Option<(State, Number, Disposition)> {
    match receipt {
        Outcome::Cancelled { accepted_at, disposition, state_at_commit, .. } => Some(
            (
                if disposition.0 == 0 {
                    State(State::CANCELLED)
                } else {
                    state_at_commit
                },
                accepted_at,
                disposition,
            ),
        ),
        Outcome::Skipped { accepted_at, disposition, state_at_commit, .. } => Some(
            (
                if disposition.0 == 0 {
                    State(State::SKIPPED)
                } else {
                    state_at_commit
                },
                accepted_at,
                disposition,
            ),
        ),
        _ => None,
    }
}

pub fn fence(receipt: &Outcome) -> (r: Option<(State, Number, Disposition)>)
    ensures
        r == fence_of(*receipt),
{
    match receipt {
        Outcome::Cancelled { accepted_at, disposition, state_at_commit, .. } => Some(
            (
                if disposition.0 == 0 {
                    State(State::CANCELLED)
                } else {
                    *state_at_commit
                },
                *accepted_at,
                *disposition,
            ),
        ),
        Outcome::Skipped { accepted_at, disposition, state_at_commit, .. } => Some(
            (
                if disposition.0 == 0 {
                    State(State::SKIPPED)
                } else {
                    *state_at_commit
                },
                *accepted_at,
                *disposition,
            ),
        ),
        _ => None,
    }
}

/// A receipt allows work to have ended like this: an accepted fence decides the end and its time, and
/// an accepted replacement must have been made before.
pub open spec fn end_allowed(receipt: Outcome, state: State, attempt: Number, committed: Number) -> bool {
    &&& fence_of(receipt) matches Some((expected, accepted, disposition)) ==> {
        &&& state == expected
        &&& if disposition.0 == 0 {
            committed.0 >= accepted.0
        } else {
            committed.0 <= accepted.0
        }
    }
    &&& receipt matches Outcome::Retried { replacement_attempt, accepted_at, .. } ==> attempt.0
        >= replacement_attempt.0 && committed.0 >= accepted_at.0
}

fn terminal(receipt: &Outcome, state: State, attempt: Number, committed: Number) -> (r: Result<
    (),
    JournalError,
>)
    ensures
        match r {
            Ok(_) => end_allowed(*receipt, state, attempt, committed),
            Err(e) => !end_allowed(*receipt, state, attempt, committed) && e.fault() == integrity(),
        },
{
    match fence(receipt) {
        Some((expected, accepted, disposition)) => {
            check(state == expected, "terminal outcome contradicts accepted fence receipt")?;
            check(
                if disposition.0 == 0 {
                    committed.0 >= accepted.0
                } else {
                    committed.0 <= accepted.0
                },
                "terminal time contradicts fence disposition",
            )?;
        },
        None => {},
    }
    match receipt {
        Outcome::Retried { replacement_attempt, accepted_at, .. } => check(
            attempt.0 >= replacement_attempt.0 && committed.0 >= accepted_at.0,
            "terminal outcome predates accepted replacement attempt",
        ),
        _ => Ok(()),
    }
}

/// Why a manifest contradicts a receipt, if it does.
pub open spec fn manifest_fault(intent: Intent, receipt: Outcome, m: Manifest) -> Option<Fault> {
    let ended = unless(
        end_allowed(receipt, State(State::SUCCEEDED), Number(m.attempt.0), m.committed_at),
    );
    match intent.mutation {
        Mutation::Admit(p) => match receipt {
            Outcome::Admitted { admitted_at, deadline, .. } => if !(p.input.sha256.0@
                == m.input_sha256.0@ && m.outputs@.len() <= p.outputs.count.0
                && records::output_octets(m.outputs@) <= p.outputs.total_bytes.0
                && m.committed_at.0 >= admitted_at.0 && m.committed_at.0 < deadline.0) {
                Some(integrity())
            } else {
                ended
            },
            _ => Some(Fault::Corrupt),
        },
        _ => ended,
    }
}

/// The octets of all outputs together, where they can be represented.
fn sum_outputs(m: &Manifest) -> (r: Option<u64>)
    ensures
        match r {
            Some(n) => n == records::output_octets(m.outputs@),
            None => records::output_octets(m.outputs@) > u64::MAX,
        },
{
    let mut total: u64 = 0;
    let mut i: usize = 0;
    assert(m.outputs@.take(0) =~= Seq::empty());
    while i < m.outputs.len()
        invariant
            i <= m.outputs@.len(),
            total == records::output_octets(m.outputs@.take(i as int)),
        decreases m.outputs@.len() - i,
    {
        proof {
            assert(m.outputs@.take(i + 1).drop_last() =~= m.outputs@.take(i as int));
            records::lemma_output_octets_grow(m.outputs@, i + 1);
        }
        match total.checked_add(m.outputs[i].length.0) {
            Some(n) => {
                total = n;
            },
            None => {
                return None;
            },
        }
        i += 1;
    }
    assert(m.outputs@.take(i as int) =~= m.outputs@);
    Some(total)
}

pub fn manifest(intent: &Intent, receipt: &Outcome, m: &Manifest) -> (r: Result<(), JournalError>)
    ensures
        match r {
            Ok(_) => manifest_fault(*intent, *receipt, *m) is None,
            Err(e) => manifest_fault(*intent, *receipt, *m) == Some(e.fault()),
        },
{
    match &intent.mutation {
        Mutation::Admit(p) => match receipt {
            Outcome::Admitted { admitted_at, deadline, .. } => {
                check(
                    p.input.sha256.same(&m.input_sha256),
                    "manifest input commitment changed",
                )?;
                let fits = match sum_outputs(m) {
                    Some(total) => m.outputs.len() as u64 <= p.outputs.count.0 && total
                        <= p.outputs.total_bytes.0,
                    None => false,
                };
                check(fits, "manifest exceeds known output budget")?;
                check(
                    m.committed_at.0 >= admitted_at.0 && m.committed_at.0 < deadline.0,
                    "manifest commit outside known execution interval",
                )?;
            },
            _ => {
                return Err(JournalError::Corrupt("not an admission receipt"));
            },
        },
        _ => {},
    }
    terminal(receipt, State(State::SUCCEEDED), Number(m.attempt.0), m.committed_at)
}

/// A view shows what the admission committed to.
pub open spec fn admission_shown(p: AdmitParameters, receipt: Outcome, view: WorkView) -> bool {
    receipt matches Outcome::Admitted { admitted_at, deadline, child, .. } && view.input matches Some(
        input,
    ) && input.agrees(&p.input) && view.admitted_at == Some(admitted_at) && view.deadline == Some(
        deadline,
    ) && view.child == child
}

/// The receipt and the view of admitted work fit together in time.
pub open spec fn times_fit(receipt: Outcome, view: WorkView) -> bool {
    view.admitted_at matches Some(admitted) ==> {
        &&& receipt matches Outcome::Retried { accepted_at, .. } ==> accepted_at.0 >= admitted.0
            && (view.deadline matches Some(deadline) && accepted_at.0 < deadline.0)
        &&& fence_of(receipt) matches Some((_, accepted, disposition)) ==> disposition.0 == 0
            ==> admitted.0 <= accepted.0
    }
}

/// Why a view contradicts a receipt, if it does.
pub open spec fn view_fault(intent: Intent, receipt: Outcome, view: WorkView) -> Option<Fault> {
    let shown = view.admitted_at is Some || view.state.terminal();
    if intent.mutation is Admit && shown && !(receipt is Admitted) {
        Some(Fault::Corrupt)
    } else if intent.mutation matches Mutation::Admit(p) && shown && !admission_shown(
        p,
        receipt,
        view,
    ) {
        Some(integrity())
    } else if !times_fit(receipt, view) {
        Some(integrity())
    } else if view.terminal_at matches Some(committed) && !end_allowed(
        receipt,
        view.state,
        view.attempt,
        committed,
    ) {
        Some(integrity())
    } else {
        None
    }
}

pub fn view(intent: &Intent, receipt: &Outcome, seen: &WorkView) -> (r: Result<(), JournalError>)
    ensures
        match r {
            Ok(_) => view_fault(*intent, *receipt, *seen) is None,
            Err(e) => view_fault(*intent, *receipt, *seen) == Some(e.fault()),
        },
{
    match &intent.mutation {
        Mutation::Admit(p) => {
            if seen.admitted_at.is_some() || seen.state.is_terminal() {
                match receipt {
                    Outcome::Admitted { admitted_at, deadline, child, .. } => {
                        let input = match &seen.input {
                            Some(input) => input.same(&p.input),
                            None => false,
                        };
                        let admitted = match seen.admitted_at {
                            Some(at) => at == *admitted_at,
                            None => false,
                        };
                        let due = match seen.deadline {
                            Some(at) => at == *deadline,
                            None => false,
                        };
                        check(
                            input && admitted && due && seen.child == *child,
                            "view disagrees with known admission",
                        )?;
                    },
                    _ => {
                        return Err(JournalError::Corrupt("not an admission receipt"));
                    },
                }
            }
        },
        _ => {},
    }
    match seen.admitted_at {
        Some(admitted) => {
            match receipt {
                Outcome::Retried { accepted_at, .. } => {
                    let before = match seen.deadline {
                        Some(deadline) => accepted_at.0 < deadline.0,
                        None => false,
                    };
                    check(
                        accepted_at.0 >= admitted.0 && before,
                        "retry outside observed execution interval",
                    )?;
                },
                _ => {},
            }
            match fence(receipt) {
                Some((_, accepted, disposition)) => {
                    check(
                        disposition.0 != 0 || admitted.0 <= accepted.0,
                        "admission follows accepted work fence",
                    )?;
                },
                None => {},
            }
        },
        None => {},
    }
    match seen.terminal_at {
        Some(committed) => terminal(receipt, seen.state, seen.attempt, committed),
        None => Ok(()),
    }
}

/// The first outcome leaves room for the second.
pub open spec fn outcomes_compatible(first: Outcome, second: Outcome) -> bool {
    &&& first matches Outcome::Admitted { admitted_at, deadline, .. } ==> {
        &&& second matches Outcome::Retried { accepted_at, .. } ==> accepted_at.0 >= admitted_at.0
            && accepted_at.0 < deadline.0
        &&& fence_of(second) matches Some((_, accepted, _)) ==> admitted_at.0 <= accepted.0
    }
    &&& fence_of(first) matches Some((outcome, accepted, disposition)) ==> {
        &&& fence_of(second) matches Some((other, later, other_disposition)) ==> {
            &&& outcome == other
            &&& disposition.0 == 0 && other_disposition.0 == 1 ==> accepted.0 <= later.0
        }
        &&& second matches Outcome::Retried { accepted_at, .. } ==> accepted_at.0 <= accepted.0
    }
}

fn compatible_outcomes(first: &Outcome, second: &Outcome) -> (r: Result<(), JournalError>)
    ensures
        match r {
            Ok(_) => outcomes_compatible(*first, *second),
            Err(e) => !outcomes_compatible(*first, *second) && e.fault() == integrity(),
        },
{
    match first {
        Outcome::Admitted { admitted_at, deadline, .. } => {
            match second {
                Outcome::Retried { accepted_at, .. } => {
                    check(
                        accepted_at.0 >= admitted_at.0 && accepted_at.0 < deadline.0,
                        "retry outside retained admission interval",
                    )?;
                },
                _ => {},
            }
            match fence(second) {
                Some((_, accepted, _)) => {
                    check(
                        admitted_at.0 <= accepted.0,
                        "admission follows terminal or accepted fence",
                    )?;
                },
                None => {},
            }
        },
        _ => {},
    }
    match fence(first) {
        Some((outcome, accepted, disposition)) => {
            match fence(second) {
                Some((other, later, other_disposition)) => {
                    check(
                        outcome == other,
                        "work fences promise conflicting terminal outcomes",
                    )?;
                    if disposition.0 == 0 && other_disposition.0 == 1 {
                        check(
                            accepted.0 <= later.0,
                            "accepted fence follows reported terminal outcome",
                        )?;
                    }
                },
                None => {},
            }
            match second {
                Outcome::Retried { accepted_at, .. } => {
                    check(
                        accepted_at.0 <= accepted.0,
                        "replacement accepted after known exclusion fence",
                    )?;
                },
                _ => {},
            }
        },
        None => {},
    }
    Ok(())
}

/// Two replacements are the same operation or follow one another.
pub open spec fn retries_ordered(prior: OperationReceipt, received: OperationReceipt) -> bool {
    match (prior.body, received.body) {
        (
            Outcome::Retried { expected_attempt: a, accepted_at: ta, .. },
            Outcome::Retried { expected_attempt: b, accepted_at: tb, .. },
        ) => if a == b {
            prior.agrees(&received)
        } else if a.0 < b.0 {
            ta.0 <= tb.0
        } else {
            tb.0 <= ta.0
        },
        _ => true,
    }
}

/// Two receipts about the same work fit together, whichever arrived first.
pub open spec fn pair_fits(
    earlier: Intent,
    prior: OperationReceipt,
    later: Intent,
    received: OperationReceipt,
) -> bool {
    &&& target_of(earlier) == target_of(later)
    &&& earlier.mutation is Admit && later.mutation is Admit ==> earlier.mutation.agrees(
        later.mutation,
    ) && prior.agrees(&received)
    &&& outcomes_compatible(prior.body, received.body)
    &&& outcomes_compatible(received.body, prior.body)
    &&& retries_ordered(prior, received)
}

pub fn pair(
    earlier: &Intent,
    prior: &OperationReceipt,
    later: &Intent,
    received: &OperationReceipt,
) -> (r: Result<(), JournalError>)
    ensures
        match r {
            Ok(_) => pair_fits(*earlier, *prior, *later, *received),
            Err(e) => !pair_fits(*earlier, *prior, *later, *received) && e.fault() == integrity(),
        },
{
    check(target(earlier) == target(later), "receipt target index changed")?;
    match (&earlier.mutation, &later.mutation) {
        (Mutation::Admit(a), Mutation::Admit(b)) => {
            check(a.same(b) && prior.same(received), "admission disagrees with known input")?;
        },
        _ => {},
    }
    // Run directional checks both ways: delayed acknowledgments have no ordering guarantee.
    compatible_outcomes(&prior.body, &received.body)?;
    compatible_outcomes(&received.body, &prior.body)?;
    match (&prior.body, &received.body) {
        (
            Outcome::Retried { expected_attempt: a, accepted_at: ta, .. },
            Outcome::Retried { expected_attempt: b, accepted_at: tb, .. },
        ) => check(
            if *a == *b {
                prior.same(received)
            } else if a.0 < b.0 {
                ta.0 <= tb.0
            } else {
                tb.0 <= ta.0
            },
            "replacement attempt has conflicting operation or commit time",
        ),
        _ => Ok(()),
    }
}

/// The receipt allows work to have ended in the state that a membership page reported.
pub open spec fn hint_allowed(receipt: Outcome, state: State) -> bool {
    fence_of(receipt) matches Some((expected, _, _)) ==> state == expected
}

pub fn terminal_hint(receipt: &Outcome, state: State) -> (r: Result<(), JournalError>)
    ensures
        match r {
            Ok(_) => hint_allowed(*receipt, state),
            Err(e) => !hint_allowed(*receipt, state) && e.fault() == integrity(),
        },
{
    match fence(receipt) {
        Some((expected, _, _)) => check(
            state == expected,
            "membership contradicts accepted fence receipt",
        ),
        None => Ok(()),
    }
}

/// When the receipt changed work, if it did. A fence that came too late changed nothing.
pub open spec fn change_time(receipt: Outcome) -> Option<Number> {
    match receipt {
        Outcome::Admitted { admitted_at, .. } => Some(admitted_at),
        Outcome::Retried { accepted_at, .. } => Some(accepted_at),
        Outcome::Cancelled { accepted_at, disposition, .. } => if disposition.0 == 0 {
            Some(accepted_at)
        } else {
            None
        },
        Outcome::Skipped { accepted_at, disposition, .. } => if disposition.0 == 0 {
            Some(accepted_at)
        } else {
            None
        },
        _ => None,
    }
}

pub fn event_time(receipt: &Outcome) -> (r: Option<Number>)
    ensures
        r == change_time(*receipt),
{
    match receipt {
        Outcome::Admitted { admitted_at, .. } => Some(*admitted_at),
        Outcome::Retried { accepted_at, .. } => Some(*accepted_at),
        Outcome::Cancelled { accepted_at, disposition, .. } => if disposition.0 == 0 {
            Some(*accepted_at)
        } else {
            None
        },
        Outcome::Skipped { accepted_at, disposition, .. } => if disposition.0 == 0 {
            Some(*accepted_at)
        } else {
            None
        },
        _ => None,
    }
}

/// Whether two receipts fit together does not depend on which of them arrived first.
pub proof fn law_receipt_pairs_are_symmetric(
    earlier: Intent,
    prior: OperationReceipt,
    later: Intent,
    received: OperationReceipt,
)
    ensures
        pair_fits(earlier, prior, later, received) == pair_fits(later, received, earlier, prior),
{
}

} // verus!
