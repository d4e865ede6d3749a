//! Peer identifiers.
//!
//! A peer identifier is an opaque byte string of at most 64 bytes. Its place
//! in the keyspace is the SHA-256 digest of those bytes.

use crate::key::{sha256, Key};
use vstd::prelude::*;

verus! {

/// The largest number of bytes in a peer identifier.
pub const MAX_PEER_ID_LEN: usize = 64;

/// An opaque peer identifier. The bytes after the first `len` are zero, so
/// that two identifiers with the same canonical bytes are the same value.
#[derive(Clone, Copy, Debug, PartialEq, Eq, Hash, PartialOrd, Ord)]
pub struct PeerId {
    len: u8,
    bytes: [u8; 64],
}

impl PeerId {
    /// The length is in range and the unused bytes are zero.
    #[verifier::type_invariant]
    pub closed spec fn wf(self) -> bool {
        &&& self.len <= 64
        &&& forall|j: int| self.len <= j < 64 ==> self.bytes@[j] == 0
    }

    /// The canonical byte form of the identifier.
    pub closed spec fn canonical(self) -> Seq<u8> {
        self.bytes@.subrange(0, self.len as int)
    }

    /// The place of this peer in the keyspace.
    pub open spec fn spec_key(self) -> Seq<u8> {
        sha256(self.canonical())
    }

    /// The key at the place of this peer in the keyspace.
    pub open spec fn key_of(self) -> Key {
        choose|k: Key| k@ == self.spec_key()
    }

    /// A canonical byte form is at most 64 bytes long.
    pub proof fn lemma_canonical_len(self)
        requires
            self.wf(),
        ensures
            self.canonical().len() <= 64,
    {
    }

    /// The identifier with the canonical bytes `bytes`, of which there are 64
    /// at most.
    pub open spec fn with_canonical(bytes: Seq<u8>) -> PeerId {
        choose|id: PeerId| id.wf() && id.canonical() == bytes
    }

    /// Identifiers with the same canonical bytes are the same identifier.
    pub proof fn lemma_canonical_injective(self, other: PeerId)
        requires
            self.wf(),
            other.wf(),
            self.canonical() == other.canonical(),
        ensures
            self == other,
    {
        assert(self.canonical().len() == self.len);
        assert(other.canonical().len() == other.len);
        assert forall|j: int| 0 <= j < 64 implies self.bytes@[j] == other.bytes@[j] by {
            if j < self.len {
                assert(self.canonical()[j] == self.bytes@[j]);
                assert(other.canonical()[j] == other.bytes@[j]);
            }
        }
        assert(self.bytes =~= other.bytes);
    }

    /// Reads an identifier from its canonical bytes; `None` when there are more than 64.
    pub fn from_bytes(bytes: &[u8]) -> (r: Option<PeerId>)
        ensures
            r is Some <==> bytes@.len() <= 64,
            r is Some ==> r->0.canonical() == bytes@ && r->0.wf(),
    {
        let n = bytes.len();
        if n > 64 {
            return None;
        }
        let mut out = [0u8; 64];
        let mut i: usize = 0;
        while i < n
            invariant
                0 <= i <= n <= 64,
                n == bytes@.len(),
                forall|j: int| 0 <= j < i ==> out@[j] == bytes@[j],
                forall|j: int| i <= j < 64 ==> out@[j] == 0,
            decreases n - i,
        {
            out[i] = bytes[i];
            i += 1;
        }
        let id = PeerId { len: n as u8, bytes: out };
        assert(id.canonical() =~= bytes@);
        Some(id)
    }

    /// The canonical bytes of the identifier.
    pub fn to_bytes(&self) -> (out: Vec<u8>)
        ensures
            out@ == self.canonical(),
    {
        proof {
            use_type_invariant(self);
        }
        let mut out: Vec<u8> = Vec::new();
        let mut i: usize = 0;
        let n: usize = self.len as usize;
        while i < n
            invariant
                0 <= i <= n <= 64,
                n == self.len,
                out@ == self.bytes@.subrange(0, i as int),
            decreases n - i,
        {
            out.push(self.bytes[i]);
            assert(self.bytes@.subrange(0, i as int).push(self.bytes@[i as int])
                =~= self.bytes@.subrange(0, i + 1));
            i += 1;
        }
        out
    }

    /// An identifier of 32 bytes drawn at random.
    pub fn random() -> (id: PeerId)
        ensures
            id.wf(),
            id.canonical().len() == 32,
    {
        PeerId::from_array(crate::key::random_bytes())
    }

    /// The identifier with the 32 canonical bytes.
    pub fn from_array(noise: [u8; 32]) -> (id: PeerId)
        ensures
            id.wf(),
            id.canonical() == noise@,
    {
        let mut out = [0u8; 64];
        let mut i: usize = 0;
        while i < 32
            invariant
                0 <= i <= 32,
                forall|j: int| 0 <= j < i ==> out@[j] == noise@[j],
                forall|j: int| i <= j < 64 ==> out@[j] == 0,
            decreases 32 - i,
        {
            out[i] = noise[i];
            i += 1;
        }
        PeerId { len: 32, bytes: out }
    }

    /// Whether two identifiers are the same.
    pub fn same(&self, other: &PeerId) -> (r: bool)
        ensures
            r == (*self == *other),
    {
        if self.len != other.len {
            return false;
        }
        let mut i: usize = 0;
        while i < 64
            invariant
                0 <= i <= 64,
                forall|j: int| 0 <= j < i ==> self.bytes@[j] == other.bytes@[j],
            decreases 64 - i,
        {
            if self.bytes[i] != other.bytes[i] {
                return false;
            }
            i += 1;
        }
        assert(self.bytes =~= other.bytes);
        true
    }

    /// The place of this peer in the keyspace: the digest of its canonical bytes.
    pub fn key(&self) -> (key: Key)
        ensures
            key@ == self.spec_key(),
            key == self.key_of(),
    {
        let bytes = self.to_bytes();
        let key = Key::new(bytes.as_slice());
        proof {
            crate::key::lemma_key_ext(key, self.key_of());
        }
        key
    }
}

} // verus!
