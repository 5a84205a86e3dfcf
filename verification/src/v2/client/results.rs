//! Local copies of explicitly selected results. This is not a second
//! authority, an authorization cache, or evidence of remote retention renewal.

use super::super::authority::store::{protocol, Fault, StoreError};
use super::super::error::{ErrorCode, MAX_HEADER};
use super::super::labels::IdentityLabel;
use super::super::records::{Input, Output, ResultHeader};
use super::super::wire::Wire;
use super::references::RetainedReference;
use super::storage::push_be;
use crate::cbor;
use crate::hashing::{self, hash_finish, hash_start, hash_update, Hasher};
use vstd::prelude::*;
use vstd::utf8::*;

verus! {

/// A label with its length before it.
pub open spec fn measured(label: IdentityLabel) -> Seq<u8> {
    cbor::be_bytes(encode_utf8(label.0@).len(), 8) + encode_utf8(label.0@)
}

/// The digest that names the local copies of one owner at one authority.
pub open spec fn binding_digest(authority: IdentityLabel, owner: IdentityLabel) -> Seq<u8> {
    hashing::sha256(
        encode_utf8("PipeStream local result copies v1\0"@) + measured(authority) + measured(owner),
    )
}

fn hash_label(hasher: &mut Hasher, label: &IdentityLabel)
    ensures
        hashing::absorbed(*final(hasher)) == hashing::absorbed(*old(hasher)) + measured(*label),
{
    let ghost before = hashing::absorbed(*hasher);
    let bytes = label.0.as_str().as_bytes();
    let mut length: Vec<u8> = Vec::new();
    push_be(&mut length, bytes.len() as u64, 8);
    hash_update(hasher, length.as_slice());
    hash_update(hasher, bytes);
    assert(length@ =~= cbor::be_bytes(bytes@.len(), 8));
    assert(hashing::absorbed(*hasher) =~= before + measured(*label));
}

/// The local namespace of one owner at one authority. It is neither a principal nor a credential.
pub fn binding(authority: &IdentityLabel, owner: &IdentityLabel) -> (r: Result<[u8; 16], StoreError>)
    ensures
        match r {
            Ok(b) => authority.valid() && owner.valid() && b@ == binding_digest(
                *authority,
                *owner,
            ).take(16),
            Err(e) => !(authority.valid() && owner.valid()) && e.fault() == Fault::Refused(
                ErrorCode::FrameError,
            ),
        },
{
    match authority.check() {
        Ok(_) => {},
        Err(e) => {
            return Err(StoreError::Protocol(e));
        },
    }
    match owner.check() {
        Ok(_) => {},
        Err(e) => {
            return Err(StoreError::Protocol(e));
        },
    }
    let mut hasher = hash_start();
    hash_update(&mut hasher, "PipeStream local result copies v1\0".as_bytes());
    hash_label(&mut hasher, authority);
    hash_label(&mut hasher, owner);
    proof {
        assert(hashing::absorbed(hasher) =~= encode_utf8(
            "PipeStream local result copies v1\0"@,
        ) + measured(*authority) + measured(*owner));
    }
    let digest = hash_finish(&hasher);
    let mut bytes: [u8; 16] = [0u8; 16];
    let mut i: usize = 0;
    while i < 16
        invariant
            i <= 16,
            bytes@.len() == 16,
            digest@.len() == 32,
            forall|j: int| 0 <= j < i ==> bytes@[j] == digest@[j],
        decreases 16 - i,
    {
        bytes.set(i, digest[i]);
        i += 1;
    }
    assert(bytes@ =~= digest@.take(16));
    Ok(bytes)
}

/// The trusted authority/owner binding of local copies deliberately permits multiple session
/// generations. A local copy still requires an exact retained manifest selection.
#[derive(Debug, Clone, PartialEq, Eq)]
pub struct ResultStore {
    pub authority: IdentityLabel,
    pub owner: IdentityLabel,
    pub identity: [u8; 16],
}

/// The selected output.
pub open spec fn selected(reference: RetainedReference) -> Output {
    reference.kept_manifest().outputs@[reference.kept_index().0 as int]
}

/// The description is that of the selected output.
pub open spec fn describes(input: Input, reference: RetainedReference) -> bool {
    let output = selected(reference);
    &&& input.length == output.length
    &&& input.sha256 == output.sha256
    &&& input.content_type.0@ == output.content_type.0@
}

/// The selection was issued by this authority to this owner.
pub open spec fn issued_to(
    reference: RetainedReference,
    authority: IdentityLabel,
    owner: IdentityLabel,
) -> bool {
    reference.kept_manifest().authority.0@ == authority.0@ && reference.kept_manifest().owner.0@
        == owner.0@
}

impl ResultStore {
    /// The copies of one owner at one authority.
    pub fn open(authority: IdentityLabel, owner: IdentityLabel) -> (r: Result<
        ResultStore,
        StoreError,
    >)
        ensures
            match r {
                Ok(s) => authority.valid() && owner.valid() && s.authority == authority && s.owner
                    == owner && s.identity@ == binding_digest(authority, owner).take(16),
                Err(e) => !(authority.valid() && owner.valid()) && e.fault() == Fault::Refused(
                    ErrorCode::FrameError,
                ),
            },
    {
        let identity = binding(&authority, &owner)?;
        Ok(ResultStore { authority, owner, identity })
    }

    pub fn descriptor(&self, reference: &RetainedReference) -> (r: Result<Input, StoreError>)
        requires
            reference.well_formed(),
        ensures
            match r {
                Ok(input) => issued_to(*reference, self.authority, self.owner) && describes(
                    input,
                    *reference,
                ),
                Err(e) => !issued_to(*reference, self.authority, self.owner) && e.fault()
                    == Fault::Refused(ErrorCode::Unauthorized),
            },
    {
        let manifest = reference.manifest();
        if !manifest.authority.same(&self.authority) || !manifest.owner.same(&self.owner) {
            return Err(
                protocol(
                    ErrorCode::Unauthorized,
                    "local result owner does not match selection",
                ),
            );
        }
        let index = reference.index();
        assert(manifest.outputs@.len() == manifest.outputs.len());
        let output = &manifest.outputs[index.0 as usize];
        assert(*output == selected(*reference));
        Ok(
            Input {
                length: output.length,
                sha256: output.sha256,
                content_type: output.content_type.duplicate(),
            },
        )
    }

    /// The complete selected length plus header allowance is reserved before writing.
    /// Caller must supply journal-validated selection and authenticated transport
    /// evidence; this does not authenticate arbitrary input records.
    pub fn stage(&self, reference: RetainedReference) -> (r: Result<
        (PendingResult, Input),
        StoreError,
    >)
        requires
            reference.well_formed(),
        ensures
            match r {
                Ok((pending, input)) => {
                    &&& issued_to(reference, self.authority, self.owner)
                    &&& pending.selection() == reference
                    &&& describes(input, reference)
                },
                Err(e) => !issued_to(reference, self.authority, self.owner) && e.fault()
                    == Fault::Refused(ErrorCode::Unauthorized),
            },
    {
        let input = self.descriptor(&reference)?;
        Ok((PendingResult { reference }, input))
    }

    /// Explicit local-only lookup by exact selected content commitment; `key` names the copy that the
    /// payload store holds of it. It does not contact the authority, grant fresh access, or extend any
    /// remote lease. Before verified EOF, its bytes are provisional and must not be published.
    pub fn find(&self, reference: &RetainedReference, key: Option<String>) -> (r: Result<
        Option<LocalResult>,
        StoreError,
    >)
        requires
            reference.well_formed(),
        ensures
            match r {
                Ok(found) => {
                    &&& issued_to(*reference, self.authority, self.owner)
                    &&& found is Some == key is Some
                    &&& found matches Some(copy) ==> copy.key == key->0 && describes(
                        copy.descriptor,
                        *reference,
                    ) && copy.authority.0@ == self.authority.0@ && copy.owner.0@ == self.owner.0@
                },
                Err(e) => !issued_to(*reference, self.authority, self.owner) && e.fault()
                    == Fault::Refused(ErrorCode::Unauthorized),
            },
    {
        let descriptor = self.descriptor(reference)?;
        match key {
            None => Ok(None),
            Some(key) => Ok(
                Some(
                    LocalResult {
                        key,
                        authority: self.authority.duplicate(),
                        owner: self.owner.duplicate(),
                        descriptor,
                    },
                ),
            ),
        }
    }
}

/// A local copy, as its reader pinned and described it.
#[derive(Clone, Debug, PartialEq, Eq)]
pub struct LocalResult {
    pub key: String,
    pub authority: IdentityLabel,
    pub owner: IdentityLabel,
    pub descriptor: Input,
}

impl LocalResult {
    pub fn key(&self) -> (r: &str)
        ensures
            r@ == self.key@,
    {
        self.key.as_str()
    }
}

/// A selected result whose copy is not complete.
#[derive(Debug, Clone, PartialEq, Eq)]
pub struct PendingResult {
    reference: RetainedReference,
}

/// The header is that of the selected result.
pub open spec fn delivers(header: ResultHeader, reference: RetainedReference) -> bool {
    let manifest = reference.kept_manifest();
    let output = selected(reference);
    &&& header.generation == manifest.generation
    &&& header.work == manifest.work
    &&& header.attempt == manifest.attempt
    &&& header.index == reference.kept_index()
    &&& header.length == output.length
    &&& header.sha256.0@ == output.sha256.0@
}

impl PendingResult {
    pub closed spec fn selection(self) -> RetainedReference {
        self.reference
    }

    /// Call only after authenticated transport has verified the selected result's
    /// length, digest and FIN. A full byte prefix alone is not transport completion.
    /// The copy may be installed where the header is that of the selection.
    pub fn finish(&self, verified: &ResultHeader) -> (r: Result<(), StoreError>)
        requires
            self.selection().well_formed(),
        ensures
            ({
                let encodable = verified.valid() && verified.wire().len() <= MAX_HEADER;
                match r {
                    Ok(_) => encodable && delivers(*verified, self.selection()),
                    Err(e) => if !encodable {
                        e.fault() == Fault::Refused(ErrorCode::FrameError)
                    } else {
                        !delivers(*verified, self.selection()) && e.fault() == Fault::Refused(
                            ErrorCode::IntegrityError,
                        )
                    },
                }
            }),
    {
        match verified.encode() {
            Ok(_) => {},
            Err(e) => {
                return Err(StoreError::Protocol(e));
            },
        }
        let manifest = self.reference.manifest();
        let index = self.reference.index();
        let output = &manifest.outputs[index.0 as usize];
        if verified.generation != manifest.generation || verified.work != manifest.work
            || verified.attempt != manifest.attempt || verified.index != index || verified.length
            != output.length || !verified.sha256.same(&output.sha256) {
            return Err(
                protocol(
                    ErrorCode::IntegrityError,
                    "verified result differs from retained selection",
                ),
            );
        }
        Ok(())
    }
}

} // verus!
