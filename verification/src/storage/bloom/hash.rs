use vstd::prelude::*;

verus! {

/// The 64-bit XXH3 hash of `bytes` under `seed`: a function of the two
/// alone.
pub uninterp spec fn xxh3_64(seed: u64, bytes: Seq<u8>) -> u64;

/// Hashes `bytes` with twox-hash's `XxHash3_64::oneshot_with_seed`.
///
/// Claimed: the result is the XXH3-64 hash of `bytes` under `seed`, the same
/// for the same seed and bytes. Nothing else is stated of its value.
#[verifier::external_body]
pub(crate) fn xxh3_64_with_seed(seed: u64, bytes: &[u8]) -> (r: u64)
    ensures
        r == xxh3_64(seed, bytes@),
{
    twox_hash::XxHash3_64::oneshot_with_seed(seed, bytes)
}

/// Draws a seed with `fastrand::u64(..)`.
///
/// The value is random: nothing is claimed of it.
#[verifier::external_body]
pub(crate) fn random_seed() -> (r: u64) {
    fastrand::u64(..)
}

/// A hash function family member: maps byte strings to 64-bit values and
/// is identified by its seed.
pub trait HashFunc: Sized {
    /// The seed that identifies the function.
    spec fn hash_seed(&self) -> u64;

    /// The value the function gives for `bytes`.
    spec fn hash_of(&self, bytes: Seq<u8>) -> u64;

    /// Hashes `bytes`.
    fn encode(&self, bytes: &[u8]) -> (r: u64)
        ensures
            r == self.hash_of(bytes@),
    ;

    /// The member of the family identified by `seed`.
    fn from_seed(seed: u64) -> (h: Self)
        ensures
            h.hash_seed() == seed,
    ;

    /// The seed that identifies the function.
    fn seed(&self) -> (r: u64)
        ensures
            r == self.hash_seed(),
    ;
}

/// XXH3-64 under a seed.
#[derive(Clone, Debug)]
pub struct XxHash3Impl {
    seed: u64,
}

impl XxHash3Impl {
    /// A function with a random seed.
    pub fn random() -> (h: Self) {
        XxHash3Impl { seed: random_seed() }
    }

    /// An identical copy.
    pub fn duplicate(&self) -> (h: Self)
        ensures
            h.hash_seed() == self.hash_seed(),
    {
        XxHash3Impl { seed: self.seed }
    }
}

impl XxHash3Impl {
    /// The function is XXH3-64 under its seed.
    pub proof fn lemma_hash_of(&self, bytes: Seq<u8>)
        ensures
            self.hash_of(bytes) == xxh3_64(self.hash_seed(), bytes),
    {
    }
}

impl Default for XxHash3Impl {
    /// A function with a random seed.
    fn default() -> (h: Self) {
        XxHash3Impl::random()
    }
}

impl HashFunc for XxHash3Impl {
    closed spec fn hash_seed(&self) -> u64 {
        self.seed
    }

    closed spec fn hash_of(&self, bytes: Seq<u8>) -> u64 {
        xxh3_64(self.seed, bytes)
    }

    fn encode(&self, bytes: &[u8]) -> (r: u64) {
        xxh3_64_with_seed(self.seed, bytes)
    }

    fn from_seed(seed: u64) -> (h: Self) {
        XxHash3Impl { seed }
    }

    fn seed(&self) -> (r: u64) {
        self.seed
    }
}

} // verus!
