//! Keys, digests and signatures, and the calls into the SHA-512 and Ed25519
//! implementations of `ed25519_dalek`.
use vstd::prelude::*;
use vstd::std_specs::cmp::PartialEqSpecImpl;
use ed25519_dalek::Digest as _;

verus! {

broadcast use vstd::array::group_array_axioms;

/// Byte-wise equality of two 32-byte arrays.
pub fn bytes32_eq(a: &[u8; 32], b: &[u8; 32]) -> (r: bool)
    ensures
        r == (a@ == b@),
{
    let mut i: usize = 0;
    while i < 32
        invariant
            i <= 32,
            forall|k: int| 0 <= k < i ==> a@[k] == b@[k],
        decreases 32 - i,
    {
        if a[i] != b[i] {
            return false;
        }
        i = i + 1;
    }
    assert(a@ =~= b@);
    true
}

/// A node's Ed25519 public key.
#[derive(Clone, Copy, Debug, Eq, Hash)]
pub struct PublicKey(pub [u8; 32]);

impl View for PublicKey {
    type V = Seq<u8>;

    open spec fn view(&self) -> Seq<u8> {
        self.0@
    }
}

impl PartialEq for PublicKey {
    fn eq(&self, other: &Self) -> (r: bool) {
        bytes32_eq(&self.0, &other.0)
    }
}

impl PartialEqSpecImpl for PublicKey {
    open spec fn obeys_eq_spec() -> bool {
        true
    }

    open spec fn eq_spec(&self, other: &PublicKey) -> bool {
        self@ == other@
    }
}

impl Default for PublicKey {
    fn default() -> (k: Self)
        ensures
            k@ == Seq::new(32, |i: int| 0u8),
    {
        let k = PublicKey([0u8; 32]);
        assert(k@ =~= Seq::new(32, |i: int| 0u8));
        k
    }
}

/// A 32-byte digest: the first half of a SHA-512 hash.
#[derive(Clone, Copy, Debug, Eq, Hash)]
pub struct Digest(pub [u8; 32]);

impl View for Digest {
    type V = Seq<u8>;

    open spec fn view(&self) -> Seq<u8> {
        self.0@
    }
}

impl PartialEq for Digest {
    fn eq(&self, other: &Self) -> (r: bool) {
        bytes32_eq(&self.0, &other.0)
    }
}

impl PartialEqSpecImpl for Digest {
    open spec fn obeys_eq_spec() -> bool {
        true
    }

    open spec fn eq_spec(&self, other: &Digest) -> bool {
        self@ == other@
    }
}

impl Default for Digest {
    fn default() -> (d: Self)
        ensures
            d@ == Seq::new(32, |i: int| 0u8),
    {
        let d = Digest([0u8; 32]);
        assert(d@ =~= Seq::new(32, |i: int| 0u8));
        d
    }
}

impl Digest {
    /// The digest's bytes, as a vector.
    pub fn to_vec(&self) -> (v: Vec<u8>)
        ensures
            v@ == self@,
    {
        let mut v: Vec<u8> = Vec::new();
        let mut i: usize = 0;
        while i < 32
            invariant
                i <= 32,
                v@ == self@.take(i as int),
            decreases 32 - i,
        {
            v.push(self.0[i]);
            i = i + 1;
            assert(v@ =~= self@.take(i as int));
        }
        assert(self@.take(32) =~= self@);
        v
    }

    /// The digest made of the first 32 bytes of `bytes`.
    pub fn from_prefix(bytes: &Vec<u8>) -> (d: Digest)
        requires
            bytes@.len() >= 32,
        ensures
            d@ == bytes@.take(32),
    {
        let mut a = [0u8; 32];
        let mut i: usize = 0;
        while i < 32
            invariant
                i <= 32,
                bytes@.len() >= 32,
                forall|k: int| 0 <= k < i ==> a@[k] == bytes@[k],
            decreases 32 - i,
        {
            a[i] = bytes[i];
            i = i + 1;
        }
        let d = Digest(a);
        assert(d@ =~= bytes@.take(32));
        d
    }
}

/// An Ed25519 signature, as its two 32-byte halves.
#[derive(Clone, Copy, Debug)]
pub struct Signature {
    pub part1: [u8; 32],
    pub part2: [u8; 32],
}

impl View for Signature {
    type V = Seq<u8>;

    open spec fn view(&self) -> Seq<u8> {
        self.part1@ + self.part2@
    }
}

impl Default for Signature {
    fn default() -> (s: Self)
        ensures
            s@ == Seq::new(64, |i: int| 0u8),
    {
        let s = Signature { part1: [0u8; 32], part2: [0u8; 32] };
        assert(s@ =~= Seq::new(64, |i: int| 0u8));
        s
    }
}

/// What SHA-512 (FIPS 180-4) gives for `data`.
pub uninterp spec fn sha512(data: Seq<u8>) -> Seq<u8>;

/// Whether `ed25519_dalek`'s strict Ed25519 verification accepts `signature` on
/// `message` under the public key `key` (besides the equation of the scheme, it
/// refuses a key or signature point of small order); bytes that do not decode
/// into a key or a signature are not accepted.
pub uninterp spec fn ed25519_accepts(message: Seq<u8>, key: Seq<u8>, signature: Seq<u8>) -> bool;

/// Hashes `data` with `ed25519_dalek::Sha512` (sha2's SHA-512) in one update and
/// returns the hash: the SHA-512 of the bytes, 64 of them.
#[verifier::external_body]
pub(crate) fn sha512_hash(data: &Vec<u8>) -> (h: Vec<u8>)
    ensures
        h@ == sha512(data@),
        h@.len() == 64,
{
    let mut hasher = ed25519_dalek::Sha512::new();
    hasher.update(data.as_slice());
    hasher.finalize().to_vec()
}

/// Decodes `key` with `ed25519_dalek::PublicKey::from_bytes` and `signature` with
/// `ed25519_dalek::Signature::try_from`, then checks it with
/// `ed25519_dalek::PublicKey::verify_strict`; claims the result is Ed25519's
/// strict verdict on these bytes, and false where either does not decode.
#[verifier::external_body]
pub(crate) fn ed25519_verify(message: &Digest, key: &PublicKey, signature: &Signature) -> (ok: bool)
    ensures
        ok == ed25519_accepts(message@, key@, signature@),
{
    let mut sig_bytes = [0u8; 64];
    sig_bytes[..32].copy_from_slice(&signature.part1);
    sig_bytes[32..].copy_from_slice(&signature.part2);
    match (ed25519_dalek::PublicKey::from_bytes(&key.0), ed25519_dalek::Signature::try_from(&sig_bytes[..])) {
        (Ok(k), Ok(s)) => k.verify_strict(&message.0, &s).is_ok(),
        _ => false,
    }
}

/// Checks all `votes` (key and signature on `message`) at once with
/// `ed25519_dalek::verify_batch`; keys or signatures that do not decode give
/// false. Claimed: a signature whose scalar half has any of its top three bits
/// set (last byte 32 or more) makes the answer false, since
/// `ed25519::Signature::try_from` refuses such bytes before any check.
/// Left unsaid: the answer otherwise, which depends on the random
/// coefficients `z` that `verify_batch` draws, even for signatures that each
/// pass strict verification: strict verification refuses only keys of small
/// order, while the batch equation multiplies each key by `z * k` reduced
/// modulo the group order, which differs from `z` times `k` times the key when
/// the key has a component of order 8. Such a key with a matching signature
/// passes `ed25519_verify` and is refused by the batch check for most `z`.
#[verifier::external_body]
pub(crate) fn ed25519_verify_batch(message: &Digest, votes: &Vec<(PublicKey, Signature)>) -> (ok: bool)
    ensures
        (exists|i: int| 0 <= i < votes@.len() && (#[trigger] votes@[i]).1.part2[31] >= 32) ==> !ok,
{
    let keys: Result<Vec<_>, _> = votes.iter().map(|(k, _)| ed25519_dalek::PublicKey::from_bytes(&k.0)).collect();
    let sigs: Result<Vec<_>, _> = votes.iter().map(|(_, s)| ed25519_dalek::Signature::try_from(&[s.part1, s.part2].concat()[..])).collect();
    let messages: Vec<&[u8]> = votes.iter().map(|_| &message.0[..]).collect();
    match (keys, sigs) {
        (Ok(k), Ok(s)) => ed25519_dalek::verify_batch(&messages[..], &s[..], &k[..]).is_ok(),
        _ => false,
    }
}

} // verus!
