//! Selected outputs. A selection commits to the full manifest that it was made from.

use super::super::authority::store::Fault;
use super::super::authority::table;
use super::super::error::{Error, ErrorCode, INITIAL_CONTROL_LIMIT, MAX_CONTROL_LIMIT};
use super::super::messages::{Control, ResultMessage, Session};
use super::super::numbers::{Id, OutputIndex};
use super::super::records::{Manifest, WorkKey};
use super::super::wire::Wire;
use super::durability;
use super::journal::{self, Journal, Notes, ReferenceEntry};
use super::observations::protocol;
use super::receipts::{check, integrity, unless};
use super::records::ReferenceChoice;
use super::storage::{self, refuse, JournalError};
use super::upkeep;
use vstd::prelude::*;

verus! {

/// One output of a retained manifest.
#[derive(Debug, Clone, PartialEq, Eq)]
pub struct RetainedReference {
    manifest: Manifest,
    index: OutputIndex,
}

impl RetainedReference {
    pub closed spec fn kept_manifest(self) -> Manifest {
        self.manifest
    }

    pub closed spec fn kept_index(self) -> OutputIndex {
        self.index
    }

    /// The output is one of the manifest's.
    pub open spec fn well_formed(self) -> bool {
        self.kept_index().0 < self.kept_manifest().outputs@.len()
    }

    pub fn manifest(&self) -> (r: &Manifest)
        ensures
            *r == self.kept_manifest(),
    {
        &self.manifest
    }

    pub fn index(&self) -> (r: OutputIndex)
        ensures
            r == self.kept_index(),
    {
        self.index
    }

    /// The request that attaches to the session which issued the manifest.
    pub open spec fn attaching(self, request: Id) -> Control {
        let m = self.kept_manifest();
        Control::Session(
            Session::Attach {
                request,
                authority: m.authority,
                owner: m.owner,
                generation: m.generation,
            },
        )
    }

    /// Uses retained identity; endpoint resolution and owner credentials are
    /// trusted application configuration, never derived from the locator text.
    pub fn attach(&self, request: Id) -> (r: Result<Control, Error>)
        ensures
            match r {
                Ok(c) => c.agrees(self.attaching(request)) && self.attaching(request).sendable(
                    INITIAL_CONTROL_LIMIT,
                ),
                Err(e) => e.code == ErrorCode::FrameError && !self.attaching(request).sendable(
                    INITIAL_CONTROL_LIMIT,
                ),
            },
    {
        let control = Control::Session(
            Session::Attach {
                request,
                authority: self.manifest.authority.duplicate(),
                owner: self.manifest.owner.duplicate(),
                generation: self.manifest.generation,
            },
        );
        proof {
            request.agrees_reflexive();
            self.manifest.generation.agrees_reflexive();
            storage::lemma_control_carries(control, self.attaching(request), INITIAL_CONTROL_LIMIT);
        }
        control.encode(INITIAL_CONTROL_LIMIT)?;
        Ok(control)
    }

    /// The request that reads the output.
    pub open spec fn reading(self, request: Id) -> Control {
        let m = self.kept_manifest();
        Control::Result(
            ResultMessage::Read {
                request,
                work: m.work,
                attempt: m.attempt,
                index: self.kept_index(),
                expected_sha256: m.outputs@[self.kept_index().0 as int].sha256,
            },
        )
    }

    pub fn read(&self, request: Id) -> (r: Result<Control, Error>)
        requires
            self.well_formed(),
        ensures
            match r {
                Ok(c) => c == self.reading(request) && c.sendable(INITIAL_CONTROL_LIMIT),
                Err(e) => e.code == ErrorCode::FrameError && !self.reading(request).sendable(
                    INITIAL_CONTROL_LIMIT,
                ),
            },
    {
        let control = Control::Result(
            ResultMessage::Read {
                request,
                work: self.manifest.work,
                attempt: self.manifest.attempt,
                index: self.index,
                expected_sha256: self.manifest.outputs[self.index.0 as usize].sha256,
            },
        );
        control.encode(INITIAL_CONTROL_LIMIT)?;
        Ok(control)
    }
}

impl Notes {
    /// Why an object is not known as a selected output, if it is not.
    #[verifier::opaque]
    pub open spec fn reference_fault(self, work: WorkKey, attempt: Id, index: OutputIndex) -> Option<
        Fault,
    > {
        let r = self.reference_at(work, index);
        let m = self.manifests[self.manifest_at(work)];
        if !(attempt.valid() && index.valid() && work.valid()) {
            Some(Fault::Refused(ErrorCode::FrameError))
        } else if r >= self.references.len() {
            Some(Fault::Refused(ErrorCode::NotFound))
        } else if self.manifest_at(work) >= self.manifests.len() {
            Some(Fault::Corrupt)
        } else if self.manifest_problem(m) is Some {
            self.manifest_problem(m)
        } else if !(m.valid() && m.wire().len() <= MAX_CONTROL_LIMIT) {
            Some(Fault::Refused(ErrorCode::FrameError))
        } else if self.references[r].choice.manifest.0@ != m.manifest_digest() {
            Some(integrity())
        } else if m.attempt != attempt || index.0 >= m.outputs@.len() {
            Some(Fault::Refused(ErrorCode::NotFound))
        } else {
            None
        }
    }

    /// Why an output cannot be selected, if it cannot.
    pub open spec fn select_fault(self, m: Manifest, index: OutputIndex) -> Option<Fault> {
        let r = self.reference_at(m.work, index);
        if !index.valid() {
            Some(Fault::Refused(ErrorCode::FrameError))
        } else if self.keep_fault(m) is Some {
            self.keep_fault(m)
        } else if index.0 >= m.outputs@.len() {
            Some(Fault::Refused(ErrorCode::NotFound))
        } else if r >= self.references.len() && self.references.len() >= self.limits.observations.0 {
            Some(Fault::Refused(ErrorCode::LimitExceeded))
        } else if m.wire().len() > MAX_CONTROL_LIMIT {
            Some(Fault::Refused(ErrorCode::FrameError))
        } else if r < self.references.len() {
            unless(self.references[r].choice.manifest.0@ == m.manifest_digest())
        } else {
            None
        }
    }

    /// The output is selected, once.
    pub open spec fn selects(self, m: Manifest, index: OutputIndex, next: Notes) -> bool {
        if self.reference_at(m.work, index) < self.references.len() {
            next.references == self.references
        } else {
            let kept = next.references.last();
            &&& next.references == self.references.push(kept)
            &&& kept.work == m.work
            &&& kept.choice.index == index
            &&& kept.choice.manifest.0@ == m.manifest_digest()
        }
    }

    pub open spec fn reference_check(self) -> spec_fn(ReferenceEntry) -> Option<Fault> {
        |e: ReferenceEntry|
            if !(e.work.valid() && e.choice.index.valid()) {
                Some(Fault::Refused(ErrorCode::FrameError))
            } else if self.manifest_at(e.work) >= self.manifests.len() {
                Some(Fault::Corrupt)
            } else {
                self.reference_fault(
                    e.work,
                    self.manifests[self.manifest_at(e.work)].attempt,
                    e.choice.index,
                )
            }
    }

    /// What is wrong with the selections, if anything is.
    pub open spec fn references_fault(self) -> Option<Fault> {
        if self.references.len() > self.limits.observations.0 {
            Some(Fault::Corrupt)
        } else {
            table::first_fault(self.references, self.reference_check())
        }
    }
}

impl Journal {
    fn find_reference(&self, work: &WorkKey, index: OutputIndex) -> (r: Option<usize>)
        ensures
            match r {
                Some(i) => i == self@.reference_at(*work, index) && i < self@.references.len(),
                None => self@.reference_at(*work, index) == self@.references.len(),
            },
    {
        let ghost p = journal::is_reference(*work, index);
        let mut i: usize = 0;
        while i < self.references.len()
            invariant
                i <= self.references@.len(),
                p == journal::is_reference(*work, index),
                forall|j: int| 0 <= j < i ==> !p(#[trigger] self.references@[j]),
            decreases self.references@.len() - i,
        {
            if self.references[i].work == *work && self.references[i].choice.index == index {
                proof {
                    table::lemma_index_unique(self.references@, p, i as int);
                }
                return Some(i);
            }
            i += 1;
        }
        proof {
            table::lemma_index_unique(self.references@, p, i as int);
        }
        None
    }

    pub fn retained_reference(&self, work: &WorkKey, attempt: Id, index: OutputIndex) -> (r: Result<
        RetainedReference,
        JournalError,
    >)
        ensures
            match r {
                Ok(x) => {
                    &&& self@.reference_fault(*work, attempt, index) is None
                    &&& x.well_formed()
                    &&& x.kept_manifest().agrees(&self@.manifests[self@.manifest_at(*work)])
                    &&& x.kept_index() == index
                },
                Err(e) => self@.reference_fault(*work, attempt, index) == Some(e.fault()),
            },
    {
        let k = self.check_reference(work, attempt, index)?;
        let manifest = self.manifests[k].duplicate();
        Ok(RetainedReference { manifest, index })
    }

    fn check_reference(&self, work: &WorkKey, attempt: Id, index: OutputIndex) -> (r: Result<
        usize,
        JournalError,
    >)
        ensures
            match r {
                Ok(k) => self@.reference_fault(*work, attempt, index) is None && k
                    == self@.manifest_at(*work) && k < self@.manifests.len() && index.0
                    < self@.manifests[k as int].outputs@.len(),
                Err(e) => self@.reference_fault(*work, attempt, index) == Some(e.fault()),
            },
    {
        proof {
            reveal(Notes::reference_fault);
        }
        protocol(attempt.check())?;
        protocol(index.check())?;
        protocol(work.check())?;
        let i = match self.find_reference(work, index) {
            Some(i) => i,
            None => {
                return Err(refuse(ErrorCode::NotFound, "no retained output selection"));
            },
        };
        let k = match self.find_manifest(work) {
            Some(k) => k,
            None => {
                return Err(JournalError::Corrupt("selected output lacks full manifest"));
            },
        };
        self.validate_manifest(&self.manifests[k])?;
        let digest = protocol(self.manifests[k].digest())?;
        check(
            self.references[i].choice.manifest.same(&digest),
            "selected output manifest commitment changed",
        )?;
        if self.manifests[k].attempt != attempt || index.0 >= self.manifests[k].outputs.len() as u64 {
            return Err(refuse(ErrorCode::NotFound, "retained object identity absent"));
        }
        Ok(k)
    }

    /// Persist the full manifest and selected index atomically. Storing a
    /// manifest alone does not choose an output on the application's behalf.
    pub fn remember_reference(&mut self, m: &Manifest, index: OutputIndex) -> (r: Result<
        RetainedReference,
        JournalError,
    >)
        requires
            old(self)@.well_formed(),
        ensures
            final(self)@.well_formed(),
            ({
                let t = old(self)@;
                match r {
                    Err(e) => t.select_fault(*m, index) == Some(e.fault()) && final(self)@ == t,
                    Ok(x) => {
                        &&& t.select_fault(*m, index) is None
                        &&& x.well_formed() && x.kept_manifest().agrees(m) && x.kept_index() == index
                        &&& t.keeps(*m, Notes { references: t.references, ..final(self)@ })
                        &&& t.selects(*m, index, final(self)@)
                    },
                }
            }),
    {
        protocol(index.check())?;
        let new = self.manifest_room(m)?;
        proof {
            reveal(Notes::manifest_problem);
        }
        if index.0 >= m.outputs.len() as u64 {
            return Err(refuse(ErrorCode::NotFound, "selected manifest output absent"));
        }
        let selected = self.find_reference(&m.work, index);
        if selected.is_none() && self.references.len() as u64 >= self.limits.observations.0 {
            return Err(refuse(ErrorCode::LimitExceeded, "client result-reference ceiling"));
        }
        let digest = protocol(m.digest())?;
        match selected {
            Some(i) => {
                check(
                    self.references[i].choice.manifest.same(&digest),
                    "selected output manifest commitment changed",
                )?;
            },
            None => {
                let choice = ReferenceChoice { index, manifest: digest };
                self.references.push(ReferenceEntry { work: m.work, choice });
            },
        }
        if new {
            self.manifests.push(m.duplicate());
        }
        proof {
            upkeep::law_selection_keeps_the_audit(old(self)@, *m, index, self@);
            durability::law_selection_stays_compact(old(self)@, *m, index, self@);
        }
        let manifest = m.duplicate();
        Ok(RetainedReference { manifest, index })
    }

    pub fn audit_references(&self) -> (r: Result<(), JournalError>)
        ensures
            match r {
                Ok(_) => self@.references_fault() is None,
                Err(e) => self@.references_fault() == Some(e.fault()),
            },
    {
        if self.references.len() as u64 > self.limits.observations.0 {
            return Err(
                JournalError::Corrupt("result-reference inventory exceeds retained limit"),
            );
        }
        let ghost f = self@.reference_check();
        let mut i: usize = 0;
        proof {
            table::lemma_first_fault_whole(self.references@, f);
        }
        while i < self.references.len()
            invariant
                i <= self.references@.len(),
                f == self@.reference_check(),
                table::first_fault(self.references@.take(i as int), f) is None,
                self@.references_fault() == table::first_fault(self.references@, f),
            decreases self.references@.len() - i,
        {
            proof {
                table::lemma_first_fault_step(self.references@, f, i as int);
            }
            let work = self.references[i].work;
            let index = self.references[i].choice.index;
            protocol(work.check())?;
            protocol(index.check())?;
            let attempt = match self.find_manifest(&work) {
                Some(k) => self.manifests[k].attempt,
                None => {
                    return Err(JournalError::Corrupt("reference without retained manifest"));
                },
            };
            self.check_reference(&work, attempt, index)?;
            i += 1;
        }
        proof {
            table::lemma_first_fault_whole(self.references@, f);
        }
        Ok(())
    }
}

} // verus!
