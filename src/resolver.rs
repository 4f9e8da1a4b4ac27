//! Authenticated reads: the checks that turn an authenticated-structure
//! lookup and bytes from an untrusted host into a verified account snapshot.
//!
//! A lookup goes in steps. The account's key is the digest of its address.
//! The authenticated structure answers with a value and a proof; a proof that
//! does not verify against the commitment aborts. The empty value means that
//! the account does not exist. Any other value is the digest of the account's
//! persisted snapshot, whose bytes the host supplies; bytes with another
//! digest abort, and authentic bytes that do not decode abort too.

use vstd::prelude::*;

use crate::codec::DecodeError;
use crate::keys::bytes_eq;
use crate::snapshot::{snapshot_encoding, snapshot_fits, snapshot_in};
use crate::storage::{AccountView, InMemoryAccountStorage, InMemoryStorage};

verus! {

/// Width of a digest, in bytes.
pub const DIGEST_LENGTH: usize = 32;

/// The SHA-256 digest of a byte string.
pub uninterp spec fn sha256_of(b: Seq<u8>) -> Seq<u8>;

/// Relies on risc0_zkvm::sha::Impl::hash_bytes: the SHA-256 digest of the
/// input, a function of the input alone, 32 bytes wide.
#[verifier::external_body]
fn sha256(b: &Vec<u8>) -> (r: Vec<u8>)
    ensures
        r@ == sha256_of(b@),
        r@.len() == DIGEST_LENGTH,
{
    <risc0_zkvm::sha::Impl as risc0_zkvm::sha::Sha256>::hash_bytes(b.as_slice()).as_bytes().to_vec()
}

/// The digest under which bytes are committed.
pub fn digest_of(bytes: &Vec<u8>) -> (r: Vec<u8>)
    ensures
        r@ == sha256_of(bytes@),
        r@.len() == DIGEST_LENGTH,
{
    sha256(bytes)
}

/// Why an authenticated read was aborted.
pub enum ResolveError {
    /// The lookup proof does not verify against the commitment.
    AuthenticationFailure,
    /// The host's bytes do not have the committed digest.
    DishonestHost,
    /// The bytes are authentic but are not a persisted snapshot.
    MalformedAccount(DecodeError),
}

/// What a verified lookup says of an account.
pub enum AccountLookup {
    /// The account does not exist.
    Absent,
    /// The account exists; its bytes must be fetched from the host.
    Fetch,
}

/// The value that marks a key with no account: all zeroes.
pub open spec fn is_empty_value(v: Seq<u8>) -> bool {
    v.len() == DIGEST_LENGTH && forall|i: int| 0 <= i < v.len() ==> v[i] == 0
}

/// Reads through an authenticated structure whose root is `root`.
pub struct SmtStorage {
    pub root: Vec<u8>,
}

impl SmtStorage {
    pub fn new(root: Vec<u8>) -> (r: SmtStorage)
        ensures
            r.root@ == root@,
    {
        SmtStorage { root }
    }

    /// The key under which the account `address` is looked up.
    pub fn account_key(&self, address: &Vec<u8>) -> (r: Vec<u8>)
        ensures
            r@ == sha256_of(address@),
    {
        sha256(address)
    }

    /// Judges the authenticated structure's answer for one key: `verified`
    /// tells whether its proof holds against the root, `value` is the value.
    pub fn check_lookup(&self, verified: bool, value: &Vec<u8>) -> (r: Result<AccountLookup, ResolveError>)
        ensures
            !verified ==> (r matches Err(ResolveError::AuthenticationFailure)),
            verified && is_empty_value(value@) ==> (r matches Ok(AccountLookup::Absent)),
            verified && !is_empty_value(value@) ==> (r matches Ok(AccountLookup::Fetch)),
    {
        if !verified {
            return Err(ResolveError::AuthenticationFailure);
        }
        if value.len() != DIGEST_LENGTH {
            return Ok(AccountLookup::Fetch);
        }
        let mut i: usize = 0;
        while i < value.len()
            invariant
                verified,
                value@.len() == DIGEST_LENGTH,
                i <= value@.len(),
                forall|j: int| 0 <= j < i ==> value@[j] == 0,
            decreases value.len() - i,
        {
            if value[i] != 0 {
                assert(value@[i as int] != 0);
                return Ok(AccountLookup::Fetch);
            }
            i += 1;
        }
        Ok(AccountLookup::Absent)
    }

    /// Judges the host's bytes for an account whose committed value is
    /// `value`, given `digest`, the digest of those bytes.
    pub fn verify_account_bytes(&self, value: &Vec<u8>, digest: &Vec<u8>, bytes: &Vec<u8>) -> (r: Result<
        InMemoryAccountStorage,
        ResolveError,
    >)
        ensures
            digest@ != value@ ==> (r matches Err(ResolveError::DishonestHost)),
            digest@ == value@ ==> (r is Ok <==> exists|a: InMemoryAccountStorage| #[trigger] snapshot_in(bytes@, a)),
            digest@ == value@ ==> forall|a: InMemoryAccountStorage| #[trigger] snapshot_in(bytes@, a) ==> (r matches Ok(d) && d@ == a@),
            r matches Ok(d) ==> snapshot_in(bytes@, d),
            r is Err ==> ((r matches Err(ResolveError::DishonestHost)) || (r matches Err(ResolveError::MalformedAccount(_)))),
    {
        if !crate::keys::bytes_eq(digest, value) {
            return Err(ResolveError::DishonestHost);
        }
        match InMemoryAccountStorage::try_from_bytes(bytes) {
            Ok(a) => Ok(a),
            Err(e) => Err(ResolveError::MalformedAccount(e)),
        }
    }

    /// Authenticates the host's bytes for an account whose committed value
    /// is `value`: they must have that digest and hold a snapshot.
    pub fn authenticate_account(&self, value: &Vec<u8>, bytes: &Vec<u8>) -> (r: Result<
        InMemoryAccountStorage,
        ResolveError,
    >)
        ensures
            sha256_of(bytes@) != value@ ==> (r matches Err(ResolveError::DishonestHost)),
            sha256_of(bytes@) == value@ ==> (r is Ok <==> exists|a: InMemoryAccountStorage| #[trigger] snapshot_in(bytes@, a)),
            sha256_of(bytes@) == value@ ==> forall|a: InMemoryAccountStorage| #[trigger] snapshot_in(bytes@, a) ==> (r matches Ok(d) && d@ == a@),
            r matches Ok(d) ==> snapshot_in(bytes@, d),
    {
        let digest = sha256(bytes);
        self.verify_account_bytes(value, &digest, bytes)
    }
}

/// A snapshot persisted by `to_bytes` is what a lookup of those bytes
/// recovers: an honest host that sends them, under their digest, yields
/// exactly that snapshot from `authenticate_account`.
pub proof fn lemma_persisted_snapshot_recovered(a: InMemoryAccountStorage)
    requires
        a.wf(),
        snapshot_fits(a),
    ensures
        snapshot_in(snapshot_encoding(a), a),
{
}

/// The accounts verified so far by one resolver: the snapshots of those that
/// exist, and the addresses of those that do not. Each account is looked up
/// at most once; later reads are answered from here.
pub struct AccountCache {
    pub present: InMemoryStorage,
    pub absent: Vec<Vec<u8>>,
}

/// What the cache knows of an account.
pub enum Cached<'a> {
    Present(&'a InMemoryAccountStorage),
    Absent,
    Unknown,
}

impl AccountCache {
    pub open spec fn wf(&self) -> bool {
        self.present.wf()
    }

    /// `addr` is known not to exist.
    pub open spec fn known_absent(&self, addr: Seq<u8>) -> bool {
        exists|i: int| 0 <= i < self.absent@.len() && #[trigger] self.absent@[i]@ == addr
    }

    pub open spec fn known(&self, addr: Seq<u8>) -> bool {
        self.present@.contains_key(addr) || self.known_absent(addr)
    }

    pub fn new() -> (r: AccountCache)
        ensures
            r.wf(),
            forall|addr: Seq<u8>| !r.known(addr),
    {
        AccountCache { present: InMemoryStorage::new(), absent: Vec::new() }
    }

    /// What is known of `addr`.
    pub fn lookup(&self, addr: &Vec<u8>) -> (r: Cached)
        requires
            self.wf(),
        ensures
            match r {
                Cached::Present(a) => self.present@.contains_key(addr@) && a@ == self.present@[addr@],
                Cached::Absent => !self.present@.contains_key(addr@) && self.known_absent(addr@),
                Cached::Unknown => !self.known(addr@),
            },
    {
        match self.present.get_account(addr) {
            Some(a) => Cached::Present(a),
            None => {
                let mut i: usize = 0;
                while i < self.absent.len()
                    invariant
                        i <= self.absent@.len(),
                        !self.present@.contains_key(addr@),
                        forall|j: int| 0 <= j < i ==> #[trigger] self.absent@[j]@ != addr@,
                    decreases self.absent.len() - i,
                {
                    if bytes_eq(&self.absent[i], addr) {
                        assert(self.absent@[i as int]@ == addr@);
                        return Cached::Absent;
                    }
                    i += 1;
                }
                Cached::Unknown
            },
        }
    }

    /// Records the verified outcome of the lookup of an account not known
    /// before. What was known of other accounts stays.
    pub fn record(&mut self, addr: Vec<u8>, snapshot: Option<InMemoryAccountStorage>)
        requires
            old(self).wf(),
            !old(self).known(addr@),
            snapshot matches Some(a) ==> a.wf(),
        ensures
            final(self).wf(),
            match snapshot {
                Some(a) => final(self).present@ == old(self).present@.insert(addr@, a@) && final(self).absent@
                    == old(self).absent@,
                None => final(self).present@ == old(self).present@ && final(self).known_absent(addr@),
            },
            forall|other: Seq<u8>| #[trigger] old(self).known_absent(other) ==> final(self).known_absent(other),
    {
        match snapshot {
            Some(a) => self.present.insert_account(addr, a),
            None => {
                let ghost o = self.absent@;
                self.absent.push(addr);
                proof {
                    assert(self.absent@[o.len() as int]@ == addr@);
                    assert forall|other: Seq<u8>| #[trigger] old(self).known_absent(other) implies self.known_absent(other) by {
                        let i = choose|i: int| 0 <= i < o.len() && #[trigger] o[i]@ == other;
                        assert(self.absent@[i] == o[i]);
                    }
                }
            },
        }
    }
}

} // verus!
