//! Content hashing of build inputs with BLAKE3.

use vstd::prelude::*;
use vstd::string::StringSliceAdditionalSpecFns;
use crate::key::{hex_text, CacheKey};
use blake3::Hasher as Blake3Hasher;

verus! {

#[verifier::external_type_specification]
#[verifier::external_body]
pub struct ExBlake3Hasher(Blake3Hasher);

/// The bytes that a `blake3::Hasher` has been fed since `blake3::Hasher::new`
/// made it, in the order in which they were fed.
pub uninterp spec fn blake3_fed(state: Blake3Hasher) -> Seq<u8>;

/// Whether a `blake3::Hasher` is one for the regular hash function with no
/// input offset set: made by `blake3::Hasher::new` and since then only fed
/// (not made by `new_keyed` or `new_derive_key`, and never given an offset
/// through the `hazmat` extension).
pub uninterp spec fn blake3_plain(state: Blake3Hasher) -> bool;

/// The 32 bytes of the BLAKE3 hash of `input`: what `blake3::Hasher::finalize`
/// returns for a hasher that has been fed exactly `input`.
pub uninterp spec fn blake3_digest(input: Seq<u8>) -> Seq<u8>;

/// `blake3::Hasher::new()`. Stated: the new hasher is plain and has been
/// fed nothing.
#[verifier::external_body]
fn blake3_hasher_new() -> (state: Blake3Hasher)
    ensures
        blake3_plain(state),
        blake3_fed(state) == Seq::<u8>::empty(),
{
    Blake3Hasher::new()
}

/// `blake3::Hasher::update(state, input)`, which adds `input` to the hash
/// state; on a plain hasher it does not panic (its only assertion concerns
/// hashers with an input offset). Stated: on a plain hasher it returns
/// without unwinding, the hasher stays plain, and it has been fed what it
/// had been fed before, followed by `input`.
#[verifier::external_body]
fn blake3_hasher_update(state: &mut Blake3Hasher, input: &[u8])
    requires
        blake3_plain(*old(state)),
    ensures
        blake3_plain(*final(state)),
        blake3_fed(*final(state)) == blake3_fed(*old(state)) + input@,
    no_unwind
{
    state.update(input);
}

/// `blake3::Hasher::finalize(state)`, converted to its 32 bytes; it leaves
/// the state as it is, and on a plain hasher its assertion that no input
/// offset was set holds. Stated: the bytes are `blake3_digest` of what the
/// hasher has been fed.
#[verifier::external_body]
fn blake3_hasher_finalize(state: &Blake3Hasher) -> (digest: [u8; 32])
    requires
        blake3_plain(*state),
    ensures
        digest@ == blake3_digest(blake3_fed(*state)),
{
    state.finalize().into()
}

/// Hashes the bytes of build inputs with BLAKE3, incrementally.
pub struct Hasher {
    inner: Blake3Hasher,
}

impl View for Hasher {
    type V = Seq<u8>;

    /// The bytes fed so far, in order.
    closed spec fn view(&self) -> Seq<u8> {
        blake3_fed(self.inner)
    }
}

impl Hasher {
    /// The BLAKE3 state is always a plain one: `new` makes it so, and
    /// feeding keeps it so.
    #[verifier::type_invariant]
    spec fn state_is_plain(self) -> bool {
        blake3_plain(self.inner)
    }

    /// A hasher that has been fed nothing.
    pub fn new() -> (h: Self)
        ensures
            h@ == Seq::<u8>::empty(),
    {
        Hasher { inner: blake3_hasher_new() }
    }

    /// Feeds `data`.
    pub fn update(&mut self, data: &[u8])
        ensures
            final(self)@ == old(self)@ + data@,
    {
        proof {
            use_type_invariant(&*self);
        }
        blake3_hasher_update(&mut self.inner, data);
    }

    /// Feeds the UTF-8 bytes of `s`.
    pub fn update_str(&mut self, s: &str)
        ensures
            final(self)@ == old(self)@ + s.spec_bytes(),
    {
        self.update(s.as_bytes());
    }

    /// The BLAKE3 hash of everything fed so far.
    pub fn finalize(&self) -> (digest: [u8; 32])
        ensures
            digest@ == blake3_digest(self@),
    {
        proof {
            use_type_invariant(self);
        }
        blake3_hasher_finalize(&self.inner)
    }

    /// The BLAKE3 hash of everything fed so far, as 64 lowercase hex digits.
    pub fn finalize_hex(&self) -> (text: String)
        ensures
            text@ == hex_text(blake3_digest(self@)),
    {
        CacheKey::new(self.finalize()).to_hex()
    }
}

impl Default for Hasher {
    /// A hasher that has been fed nothing.
    fn default() -> (h: Self)
        ensures
            h@ == Seq::<u8>::empty(),
    {
        Hasher::new()
    }
}

} // verus!
