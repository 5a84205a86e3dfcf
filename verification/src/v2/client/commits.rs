//! Receipts are kept once they agree with their intent and with everything that is known.

use super::super::authority::store::Fault;
use super::super::commitments::Mutation;
use super::super::error::{ErrorCode, MAX_HEADER};
use super::super::records::{OperationReceipt, Outcome};
use super::super::wire::{encode, Wire};
use super::durability;
use super::journal::{Journal, Notes, OperationEntry};
use super::observations::protocol;
use super::pages::copy_scopes;
use super::receipts::{check, integrity};
use super::storage::{self, validate_receipt, Intent, JournalError};
use super::upkeep;
use vstd::prelude::*;

verus! {

pub fn copy_outcome(body: &Outcome) -> (r: Outcome)
    ensures
        r == *body,
{
    match body {
        Outcome::Admitted { work, attempt, admitted_at, deadline, child } => Outcome::Admitted {
            work: *work,
            attempt: *attempt,
            admitted_at: *admitted_at,
            deadline: *deadline,
            child: *child,
        },
        Outcome::Declared { scope, producer, accepted_count, declared, seal } => Outcome::Declared {
            scope: *scope,
            producer: *producer,
            accepted_count: *accepted_count,
            declared: *declared,
            seal: *seal,
        },
        Outcome::Retried { work, expected_attempt, replacement_attempt, accepted_at } => Outcome::Retried {
            work: *work,
            expected_attempt: *expected_attempt,
            replacement_attempt: *replacement_attempt,
            accepted_at: *accepted_at,
        },
        Outcome::Cancelled { work, accepted_at, disposition, state_at_commit } => Outcome::Cancelled {
            work: *work,
            accepted_at: *accepted_at,
            disposition: *disposition,
            state_at_commit: *state_at_commit,
        },
        Outcome::ScopeCancelled { scope, accepted_at } => Outcome::ScopeCancelled {
            scope: *scope,
            accepted_at: *accepted_at,
        },
        Outcome::Skipped { work, accepted_at, disposition, state_at_commit } => Outcome::Skipped {
            work: *work,
            accepted_at: *accepted_at,
            disposition: *disposition,
            state_at_commit: *state_at_commit,
        },
    }
}

pub fn copy_receipt(receipt: &OperationReceipt) -> (r: OperationReceipt)
    ensures
        r == *receipt,
{
    OperationReceipt {
        operation: receipt.operation,
        request_digest: receipt.request_digest,
        body: copy_outcome(&receipt.body),
    }
}

impl Notes {
    /// The notes with the receipt of an entry written down.
    pub open spec fn answered(self, i: int, receipt: OperationReceipt) -> Notes {
        Notes {
            operations: self.operations.update(
                i,
                OperationEntry { receipt: Some(receipt), ..self.operations[i] },
            ),
            ..self
        }
    }

    /// What a receipt that was written down leads to: a declaration may complete what is known of its
    /// scope, and a declaration or a fence must fit in with everything retained.
    #[verifier::opaque]
    pub open spec fn receipt_committed(self, intent: Intent) -> Result<Notes, Fault> {
        let s = match intent.mutation {
            Mutation::Declare { scope, .. } => self.scope_at(scope),
            _ => self.scopes.len() as int,
        };
        let refreshed = self.refreshed(self.scopes[s]);
        let stored = if s < self.scopes.len() {
            match refreshed {
                Ok(scope) => self.scope_stored(scope),
                Err(fault) => Err(fault),
            }
        } else {
            Ok(self)
        };
        match stored {
            Err(fault) => Err(fault),
            Ok(t) => if (intent.mutation is Declare || intent.mutation is ScopeCancel)
                && t.relations_fault() is Some {
                Err(t.relations_fault()->0)
            } else {
                Ok(t)
            },
        }
    }

    /// What recording a receipt leads to.
    pub open spec fn receipt_recorded(self, receipt: OperationReceipt) -> Result<Notes, Fault> {
        let i = self.operation_at(receipt.operation.0@);
        let entry = self.operations[i];
        let answer = storage::receipt_fault(entry.intent, self.bound->0.identity, receipt);
        let problem = self.receipt_problem(entry.intent, receipt);
        if self.intent_fault(receipt.operation) is Some {
            Err(self.intent_fault(receipt.operation)->0)
        } else if answer is Some {
            Err(answer->0)
        } else if problem is Some {
            Err(problem->0)
        } else if receipt.wire().len() > MAX_HEADER {
            Err(Fault::Refused(ErrorCode::FrameError))
        } else if entry.receipt is Some {
            if entry.receipt->0.agrees(&receipt) {
                Ok(self)
            } else {
                Err(integrity())
            }
        } else {
            self.answered(i, receipt).receipt_committed(entry.intent)
        }
    }
}

/// The receipt of an operation is kept as it was, and a different one is refused.
pub proof fn law_receipt_is_immutable(t: Notes, receipt: OperationReceipt)
    requires
        t.receipt_recorded(receipt) is Ok,
        t.operations[t.operation_at(receipt.operation.0@)].receipt is Some,
    ensures
        t.receipt_recorded(receipt) == Ok::<Notes, Fault>(t),
        t.operations[t.operation_at(receipt.operation.0@)].receipt->0.agrees(&receipt),
{
}

impl Journal {
    fn scope_receipt_committed(&mut self, i: usize) -> (r: Result<(), JournalError>)
        requires
            old(self)@.arranged(),
            i < old(self)@.operations.len(),
        ensures
            final(self)@ == (Notes { scopes: final(self)@.scopes, ..old(self)@ }),
            ({
                let committed = old(self)@.receipt_committed(
                    old(self)@.operations[i as int].intent,
                );
                match r {
                    Ok(_) => final(self)@.arranged() && committed == Ok::<Notes, Fault>(
                        final(self)@,
                    ),
                    Err(e) => committed == Err::<Notes, Fault>(e.fault()),
                }
            }),
    {
        proof {
            reveal(Notes::receipt_committed);
        }
        let (declared, fence) = match &self.operations[i].intent.mutation {
            Mutation::Declare { scope, .. } => (Some(*scope), false),
            Mutation::ScopeCancel { .. } => (None, true),
            _ => (None, false),
        };
        match declared {
            Some(scope) => match self.find_scope(scope) {
                Some(s) => {
                    let refreshed = self.refresh_scope(&self.scopes[s])?;
                    self.write_scope(&refreshed)?;
                },
                None => {},
            },
            None => {},
        }
        if declared.is_some() || fence {
            // A sealing receipt can verify cached membership without a new
            // page. Recheck retained children before committing that evidence.
            self.validate_scope_relations()?;
        }
        Ok(())
    }

    /// Keeps the receipt of an operation, once it agrees with everything that is known.
    pub fn record_receipt(&mut self, receipt: &OperationReceipt) -> (r: Result<(), JournalError>)
        requires
            old(self)@.well_formed(),
        ensures
            final(self)@.well_formed(),
            match r {
                Ok(_) => old(self)@.receipt_recorded(*receipt) == Ok::<Notes, Fault>(final(self)@),
                Err(e) => old(self)@.receipt_recorded(*receipt) == Err::<Notes, Fault>(e.fault())
                    && final(self)@ == old(self)@,
            },
    {
        let ghost t = self@;
        let i = self.load_intent(receipt.operation)?;
        let identity = self.known_identity()?;
        validate_receipt(&self.operations[i].intent, identity, receipt)?;
        self.validate_known_receipt(&self.operations[i].intent, receipt)?;
        protocol(encode(receipt, MAX_HEADER))?;
        match &self.operations[i].receipt {
            Some(prior) => {
                check(prior.same(receipt), "immutable operation receipt changed")?;
                return Ok(());
            },
            None => {},
        }
        let scopes = copy_scopes(&self.scopes);
        self.operations[i].receipt = Some(copy_receipt(receipt));
        proof {
            assert(self@.operations =~= t.answered(i as int, *receipt).operations);
            assert(self@ == t.answered(i as int, *receipt));
        }
        match self.scope_receipt_committed(i) {
            Ok(_) => {
                proof {
                    upkeep::law_receipt_keeps_the_audit(t, *receipt, self@);
                    durability::law_receipt_stays_compact(t, *receipt, self@);
                }
                Ok(())
            },
            Err(e) => {
                self.operations[i].receipt = None;
                self.scopes = scopes;
                assert(self@.operations =~= t.operations);
                Err(e)
            },
        }
    }
}

} // verus!
