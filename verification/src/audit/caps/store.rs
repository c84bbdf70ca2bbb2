//! Write-once store of capability sets under `<audit dir>/caps/`.
use super::encoding::encode_capability_set;
use super::decoding::decode_capability_set;
use super::{CapsStoreError, CapsStoreFault};
use crate::audit::hash;
use crate::audit::hash::sha256_32;
use crate::audit::naming::{caps_rel_path, hex_encode};
use crate::audit::verify::join_dir;
use crate::caps::capability::GrantSet;
use crate::caps::CapabilitySet;
use crate::path;
use vstd::prelude::*;

verus! {

/// Write-once store. It decides; the caller creates files and says how that
/// went.
#[derive(Debug)]
pub struct CapsStore {
    audit_dir: String,
    /// Hashes written (or observed) by this process.
    seen: Vec<[u8; 32]>,
}

/// What a [`CapsStore`] knows.
pub ghost struct StoreModel {
    pub dir: Seq<char>,
    pub seen: Set<Seq<u8>>,
}

impl View for CapsStore {
    type V = StoreModel;

    closed spec fn view(&self) -> StoreModel {
        StoreModel {
            dir: self.audit_dir@,
            seen: Set::new(|h: Seq<u8>| exists|i: int| 0 <= i < self.seen@.len() && (
            #[trigger] self.seen@[i])@ == h),
        }
    }
}

/// A set to store: its bytes, their hash, and the file to create unless this
/// process has stored it before.
#[derive(Debug, PartialEq, Eq)]
pub struct Pending {
    pub hash: [u8; 32],
    pub bytes: Vec<u8>,
    pub path: Option<String>,
}

/// How creating a side file went.
#[derive(Debug, PartialEq, Eq)]
pub enum CreateOutcome {
    /// The file was created with the bytes.
    Created,
    /// A file was there, with this content.
    Exists(Vec<u8>),
    /// Creating or reading failed.
    Failed(String),
}

/// What is to be created for bytes under a hash: a path, or nothing if the
/// hash has been stored; an error if the bytes do not have the hash.
pub open spec fn planned(m: StoreModel, hash: Seq<u8>, bytes: Seq<u8>) -> Result<
    Option<Seq<char>>,
    CapsStoreFault,
> {
    if hash::sha256(bytes) != hash {
        Err(
            CapsStoreFault::HashMismatch {
                expected: crate::audit::naming::hex(hash),
                actual: crate::audit::naming::hex(hash::sha256(bytes)),
            },
        )
    } else if m.seen.contains(hash) {
        Ok(None)
    } else {
        Ok(Some(side_file(m.dir, hash)))
    }
}

/// `<audit dir>/caps/<hex>.cbor`.
pub open spec fn side_file(dir: Seq<char>, hash: Seq<u8>) -> Seq<char> {
    crate::audit::verify::within_dir(dir, crate::audit::naming::caps_name(hash))
}

/// What the store knows after a creation, or why the set is not stored.
pub open spec fn settled(m: StoreModel, hash: Seq<u8>, bytes: Seq<u8>, outcome: CreateOutcome) -> Result<
    StoreModel,
    CapsStoreFault,
> {
    match outcome {
        CreateOutcome::Exists(content) if content@ != bytes => Err(
            CapsStoreFault::ContentConflict {
                hash: crate::audit::naming::hex(hash),
                path: side_file(m.dir, hash),
            },
        ),
        CreateOutcome::Failed(e) => Err(CapsStoreFault::Io(e@)),
        _ => Ok(StoreModel { seen: m.seen.insert(hash), ..m }),
    }
}

/// What is to be done to store a set: its bytes and their hash, with the file
/// to create unless the hash is stored; or why the set has no bytes.
pub open spec fn is_plan(
    m: StoreModel,
    set: GrantSet,
    r: Result<Pending, CapsStoreError>,
) -> bool {
    match (r, super::encoding::encoded_set(set)) {
        (Ok(p), Ok(b)) => {
            &&& p.bytes@ == b
            &&& super::decoding::numbered(b)
            &&& p.hash@ == hash::sha256(b)
            &&& match (p.path, planned(m, p.hash@, b)) {
                (Some(x), Ok(Some(y))) => x@ == y,
                (None, Ok(None)) => true,
                _ => false,
            }
        },
        (Err(e), Err(f)) => e@ == f,
        _ => false,
    }
}

impl CapsStore {
    /// A store under an audit directory, with nothing stored yet.
    pub fn open(audit_dir: String) -> (r: CapsStore)
        ensures
            r@ == (StoreModel { dir: audit_dir@, seen: Set::empty() }),
    {
        let r = CapsStore { audit_dir, seen: Vec::new() };
        assert(r@.seen =~= Set::empty());
        r
    }

    /// Audit directory this store was opened on.
    #[must_use]
    pub fn audit_dir(&self) -> (r: &str)
        ensures
            r@ == self@.dir,
    {
        self.audit_dir.as_str()
    }

    /// Path for a caps hash: `<audit dir>/caps/<hex>.cbor`.
    #[must_use]
    pub fn path_for(&self, hash: &[u8; 32]) -> (r: String)
        ensures
            r@ == side_file(self@.dir, hash@),
    {
        join_dir(self.audit_dir.as_str(), caps_rel_path(hash).as_str())
    }

    /// Deterministic CBOR bytes for `set` (paths/authorities as strings).
    pub fn encode(set: &CapabilitySet) -> (r: Result<Vec<u8>, CapsStoreError>)
        requires
            set.wf(),
            set@.table.is_empty() || set@.resolves(),
        ensures
            match (r, super::encoding::encoded_set(set@)) {
                (Ok(b), Ok(c)) => b@ == c,
                (Err(e), Err(f)) => e@ == f,
                _ => false,
            },
            r matches Ok(b) ==> super::decoding::numbered(b@),
    {
        encode_capability_set(set)
    }

    /// The SHA-256 of a set's bytes.
    pub fn hash(set: &CapabilitySet) -> (r: Result<[u8; 32], CapsStoreError>)
        requires
            set.wf(),
            set@.table.is_empty() || set@.resolves(),
        ensures
            match (r, super::encoding::encoded_set(set@)) {
                (Ok(h), Ok(c)) => h@ == hash::sha256(c),
                (Err(e), Err(f)) => e@ == f,
                _ => false,
            },
    {
        match encode_capability_set(set) {
            Ok(bytes) => Ok(sha256_32(bytes.as_slice())),
            Err(e) => Err(e),
        }
    }

    /// Decode side-file CBOR into a [`CapabilitySet`] (re-interns paths).
    pub fn decode(bytes: &[u8]) -> (r: Result<CapabilitySet, CapsStoreError>)
        requires
            super::decoding::numbered(bytes@),
        ensures
            match r {
                Ok(set) => set.wf() && set@.resolves() && super::decoding::decoded_as(
                    bytes@,
                    Ok(set@),
                ),
                Err(e) => super::decoding::decoded_as(bytes@, Err(e@)),
            },
    {
        decode_capability_set(bytes)
    }

    /// What is to be done to store a set. The caller creates the file, never
    /// modifying one that is there, and reports through [`CapsStore::settle`].
    pub fn ensure(&self, set: &CapabilitySet) -> (r: Result<Pending, CapsStoreError>)
        requires
            set.wf(),
            set@.table.is_empty() || set@.resolves(),
        ensures
            is_plan(self@, set@, r),
    {
        let bytes = match encode_capability_set(set) {
            Ok(b) => b,
            Err(e) => {
                return Err(e);
            },
        };
        let hash = sha256_32(bytes.as_slice());
        match self.ensure_bytes(&hash, bytes.as_slice()) {
            Ok(path) => Ok(Pending { hash, bytes, path }),
            Err(e) => Err(e),
        }
    }

    /// What is to be done to store what was requested and what was available.
    /// The first that has no bytes is the error.
    pub fn ensure_pair(&self, requested: &CapabilitySet, available: &CapabilitySet) -> (r: Result<
        (Pending, Pending),
        CapsStoreError,
    >)
        requires
            requested.wf(),
            requested@.table.is_empty() || requested@.resolves(),
            available.wf(),
            available@.table.is_empty() || available@.resolves(),
        ensures
            match r {
                Ok((a, b)) => is_plan(self@, requested@, Ok(a)) && is_plan(
                    self@,
                    available@,
                    Ok(b),
                ),
                Err(e) => if super::encoding::encoded_set(requested@) is Err {
                    is_plan(self@, requested@, Err(e))
                } else {
                    is_plan(self@, available@, Err(e))
                },
            },
    {
        let a = match self.ensure(requested) {
            Ok(p) => p,
            Err(e) => {
                return Err(e);
            },
        };
        match self.ensure(available) {
            Ok(b) => Ok((a, b)),
            Err(e) => Err(e),
        }
    }

    /// The file to create for precomputed CBOR bytes under `hash`; `None` if
    /// this process has stored it.
    pub fn ensure_bytes(&self, hash: &[u8; 32], bytes: &[u8]) -> (r: Result<
        Option<String>,
        CapsStoreError,
    >)
        ensures
            match (r, planned(self@, hash@, bytes@)) {
                (Ok(Some(x)), Ok(Some(y))) => x@ == y,
                (Ok(None), Ok(None)) => true,
                (Err(e), Err(f)) => e@ == f,
                _ => false,
            },
    {
        let actual = sha256_32(bytes);
        if !path::bytes_eq(actual.as_slice(), hash.as_slice()) {
            return Err(
                CapsStoreError::HashMismatch {
                    expected: hex_encode(hash.as_slice()),
                    actual: hex_encode(actual.as_slice()),
                },
            );
        }
        if self.seen_in_process(hash) {
            return Ok(None);
        }
        Ok(Some(self.path_for(hash)))
    }

    /// Takes note of how creating the file for `hash` went. A file that was
    /// there with the same bytes counts as stored; other content is an error.
    pub fn settle(&mut self, hash: &[u8; 32], bytes: &[u8], outcome: CreateOutcome) -> (r: Result<
        (),
        CapsStoreError,
    >)
        ensures
            match (r, settled(old(self)@, hash@, bytes@, outcome)) {
                (Ok(_), Ok(m)) => final(self)@ == m,
                (Err(e), Err(f)) => e@ == f && final(self)@ == old(self)@,
                _ => false,
            },
    {
        match outcome {
            CreateOutcome::Created => {},
            CreateOutcome::Exists(content) => {
                if !path::bytes_eq(content.as_slice(), bytes) {
                    return Err(
                        CapsStoreError::ContentConflict {
                            hash: hex_encode(hash.as_slice()),
                            path: self.path_for(hash),
                        },
                    );
                }
            },
            CreateOutcome::Failed(e) => {
                return Err(CapsStoreError::Io(e));
            },
        }
        let ghost before = self.seen@;
        self.seen.push(*hash);
        proof {
            let was = old(self)@.seen;
            assert forall|h: Seq<u8>| self@.seen.contains(h) <==> was.insert(hash@).contains(h) by {
                if self@.seen.contains(h) {
                    let i = choose|i: int| 0 <= i < self.seen@.len() && (
                    #[trigger] self.seen@[i])@ == h;
                    if i < before.len() {
                        assert(before[i]@ == h);
                    }
                }
                if was.contains(h) {
                    let i = choose|i: int| 0 <= i < before.len() && (#[trigger] before[i])@ == h;
                    assert(self.seen@[i]@ == h);
                }
                if h == hash@ {
                    assert(self.seen@[before.len() as int]@ == h);
                }
            }
            assert(self@.seen =~= was.insert(hash@));
        }
        Ok(())
    }

    /// True if this process has stored `hash` (not a disk probe).
    #[must_use]
    pub fn seen_in_process(&self, hash: &[u8; 32]) -> (r: bool)
        ensures
            r == self@.seen.contains(hash@),
    {
        let mut i: usize = 0;
        while i < self.seen.len()
            invariant
                0 <= i <= self.seen.len(),
                forall|j: int| 0 <= j < i ==> (#[trigger] self.seen@[j])@ != hash@,
            decreases self.seen.len() - i,
        {
            if path::bytes_eq(self.seen[i].as_slice(), hash.as_slice()) {
                assert(self.seen@[i as int]@ == hash@);
                return true;
            }
            i += 1;
        }
        false
    }
}

/// Both sets of a pair are stored once both creations have settled: both hashes
/// are known, and a file that was there held just these bytes.
pub proof fn settled_pairs_are_seen(
    m: StoreModel,
    hashes: (Seq<u8>, Seq<u8>),
    bytes: (Seq<u8>, Seq<u8>),
    outcomes: (CreateOutcome, CreateOutcome),
)
    requires
        settled(m, hashes.0, bytes.0, outcomes.0) is Ok,
        settled(
            settled(m, hashes.0, bytes.0, outcomes.0)->Ok_0,
            hashes.1,
            bytes.1,
            outcomes.1,
        ) is Ok,
    ensures
        ({
            let n = settled(
                settled(m, hashes.0, bytes.0, outcomes.0)->Ok_0,
                hashes.1,
                bytes.1,
                outcomes.1,
            )->Ok_0;
            &&& n.dir == m.dir
            &&& n.seen == m.seen.insert(hashes.0).insert(hashes.1)
        }),
        outcomes.0 matches CreateOutcome::Exists(held) ==> held@ == bytes.0,
        outcomes.1 matches CreateOutcome::Exists(held) ==> held@ == bytes.1,
{
}

/// A set that has been stored is not written again: once a creation has
/// settled, nothing more is planned for its hash.
pub proof fn stored_once(m: StoreModel, hash: Seq<u8>, bytes: Seq<u8>, outcome: CreateOutcome)
    requires
        planned(m, hash, bytes) is Ok,
    ensures
        settled(m, hash, bytes, outcome) matches Ok(n) ==> planned(n, hash, bytes) == Ok::<
            Option<Seq<char>>,
            CapsStoreFault,
        >(None),
{
}

/// Bytes are planned under their own hash and no other: a file
/// `caps/<hex>.cbor` below the audit directory, unless it has been stored.
pub proof fn bytes_go_under_their_hash(m: StoreModel, hash: Seq<u8>, bytes: Seq<u8>)
    ensures
        planned(m, hash, bytes) is Ok <==> hash::sha256(bytes) == hash,
        hash::sha256(bytes) != hash ==> planned(m, hash, bytes) == Err::<
            Option<Seq<char>>,
            CapsStoreFault,
        >(
            CapsStoreFault::HashMismatch {
                expected: crate::audit::naming::hex(hash),
                actual: crate::audit::naming::hex(hash::sha256(bytes)),
            },
        ),
        hash::sha256(bytes) == hash && m.seen.contains(hash) ==> planned(m, hash, bytes)->Ok_0
            is None,
        hash::sha256(bytes) == hash && !m.seen.contains(hash) ==> planned(m, hash, bytes)->Ok_0
            == Some(
            crate::audit::verify::within_dir(
                m.dir,
                "caps/"@ + crate::audit::naming::hex(hash) + ".cbor"@,
            ),
        ),
{
}

/// A set counts as stored exactly when its file was created, or was there with
/// the same bytes; other content and a failure are reported, and nothing
/// counts as stored then.
pub proof fn stored_means_the_file_holds_it(
    m: StoreModel,
    hash: Seq<u8>,
    bytes: Seq<u8>,
    outcome: CreateOutcome,
)
    ensures
        settled(m, hash, bytes, outcome) is Ok <==> outcome is Created || (
        outcome matches CreateOutcome::Exists(held) && held@ == bytes),
        settled(m, hash, bytes, outcome) matches Ok(n) ==> n.dir == m.dir && n.seen.contains(hash)
            && forall|h: Seq<u8>|
            h != hash ==> (#[trigger] n.seen.contains(h) <==> m.seen.contains(h)),
        outcome matches CreateOutcome::Exists(held) ==> held@ != bytes ==> settled(
            m,
            hash,
            bytes,
            outcome,
        ) == Err::<StoreModel, CapsStoreFault>(
            CapsStoreFault::ContentConflict {
                hash: crate::audit::naming::hex(hash),
                path: crate::audit::verify::within_dir(
                    m.dir,
                    "caps/"@ + crate::audit::naming::hex(hash) + ".cbor"@,
                ),
            },
        ),
        outcome matches CreateOutcome::Failed(e) ==> settled(m, hash, bytes, outcome) == Err::<
            StoreModel,
            CapsStoreFault,
        >(CapsStoreFault::Io(e@)),
{
}

} // verus!
