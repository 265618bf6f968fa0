//! The fixed-size digest facade.
//!
//! A `Keccak` instance binds one of the standard output sizes (224, 256, 384
//! or 512 bits, or 0 for the extendable-output configuration) to its
//! rate/capacity pair and offers the incremental input / result / reset API
//! on top of the sponge.

use crate::bitstream::bits_of_bytes;
use crate::sponge::{
    absorb_bits, lemma_absorb_bits_queue_len, prefix_bits, squeeze_start_offset,
    squeeze_start_state, stream_byte, zero_state, SpongeError, SpongeState, SpongeView,
};
use vstd::prelude::*;

verus! {

/// The rate in bits used for a given output size: the standard NIST pairs,
/// and the 1024/576 split for the extendable-output mode.
pub open spec fn spec_rate_for(hash_size: nat) -> nat {
    if hash_size == 224 {
        1152
    } else if hash_size == 256 {
        1088
    } else if hash_size == 384 {
        832
    } else if hash_size == 512 {
        576
    } else {
        1024
    }
}

/// A Keccak digest computation with a fixed output size.
pub struct Keccak {
    sponge_state: SpongeState,
    hash_size: usize,
}

impl Keccak {
    /// The abstract value of the underlying sponge.
    pub closed spec fn sponge(&self) -> SpongeView {
        self.sponge_state@
    }

    /// The configured output size in bits.
    pub closed spec fn spec_output_bits(&self) -> nat {
        self.hash_size as nat
    }

    /// The facade invariant: a well-formed sponge whose rate matches the
    /// output size, with a byte-aligned queue.
    pub closed spec fn inv(&self) -> bool {
        &&& self.sponge_state.inv()
        &&& SpongeState::wf(self.sponge_state@)
        &&& (self.hash_size == 0 || self.hash_size == 224 || self.hash_size == 256
            || self.hash_size == 384 || self.hash_size == 512)
        &&& self.sponge_state@.rate == spec_rate_for(self.hash_size as nat)
        &&& self.sponge_state@.capacity == 1600 - spec_rate_for(self.hash_size as nat)
        &&& self.sponge_state@.queue.len() % 8 == 0
    }

    /// The output size is one of the supported sizes.
    pub proof fn lemma_inv_sizes(&self)
        requires
            self.inv(),
        ensures
            self.spec_output_bits() == 0 || self.spec_output_bits() == 224
                || self.spec_output_bits() == 256 || self.spec_output_bits() == 384
                || self.spec_output_bits() == 512,
            self.sponge().rate == spec_rate_for(self.spec_output_bits()),
    {
    }

    /// Create a digest instance for the given output size in bits; 0 selects
    /// the extendable-output configuration.
    pub fn new(hash_size: usize) -> (k: Keccak)
        requires
            hash_size == 0 || hash_size == 224 || hash_size == 256 || hash_size == 384
                || hash_size == 512,
        ensures
            k.inv(),
            k.spec_output_bits() == hash_size,
            k.sponge().state == zero_state(),
            k.sponge().queue == Seq::<bool>::empty(),
            !k.sponge().squeezing,
            k.sponge().rate == spec_rate_for(hash_size as nat),
    {
        let sponge = match hash_size {
            224 => SpongeState::new(1152, 448),
            256 => SpongeState::new(1088, 512),
            384 => SpongeState::new(832, 768),
            512 => SpongeState::new(576, 1024),
            _ => SpongeState::new(1024, 576),
        };
        Keccak { sponge_state: sponge, hash_size }
    }

    /// Feed `input` to the sponge, whole bytes at a time.  Fails exactly when
    /// the instance has already produced output and was not reset.
    pub fn input(&mut self, input: &[u8]) -> (r: Result<(), SpongeError>)
        requires
            old(self).inv(),
            input@.len() * 8 <= usize::MAX,
        ensures
            final(self).inv(),
            final(self).spec_output_bits() == old(self).spec_output_bits(),
            final(self).sponge().rate == old(self).sponge().rate,
            final(self).sponge().capacity == old(self).sponge().capacity,
            r == Ok::<(), SpongeError>(()) <==> !old(self).sponge().squeezing,
            r.is_err() ==> r == Err::<(), SpongeError>(SpongeError::InvalidState)
                && final(self).sponge() == old(self).sponge(),
            r == Ok::<(), SpongeError>(()) ==> {
                let res = absorb_bits(
                    old(self).sponge().state,
                    old(self).sponge().queue,
                    bits_of_bytes(input@),
                    old(self).sponge().rate,
                );
                &&& final(self).sponge().state == res.0
                &&& final(self).sponge().queue == res.1
                &&& !final(self).sponge().squeezing
            },
    {
        let data_bit_len = input.len() * 8;
        proof {
            assert(prefix_bits(input@, data_bit_len as nat) =~= bits_of_bytes(input@));
            let r64 = old(self).sponge().rate;
            assert(r64 % 8 == 0) by (nonlinear_arith)
                requires
                    r64 % 64 == 0,
            ;
        }
        let r = self.sponge_state.absorb(input, data_bit_len);
        proof {
            if r.is_ok() {
                lemma_absorb_bits_queue_len(
                    old(self).sponge().state,
                    old(self).sponge().queue,
                    bits_of_bytes(input@),
                    old(self).sponge().rate,
                );
            }
        }
        r
    }

    /// Write the digest — `output_bits() / 8` bytes — into the front of
    /// `out`.  Fails exactly when `out` is too short for the configured
    /// output size.  The first call switches the sponge to squeezing; later
    /// calls continue the output stream.
    pub fn result(&mut self, out: &mut Vec<u8>) -> (r: Result<(), SpongeError>)
        requires
            old(self).inv(),
        ensures
            final(self).inv(),
            final(self).spec_output_bits() == old(self).spec_output_bits(),
            final(self).sponge().rate == old(self).sponge().rate,
            final(out)@.len() == old(out)@.len(),
            r == Ok::<(), SpongeError>(()) <==> old(self).spec_output_bits() / 8 <= old(out)@.len(),
            r.is_err() ==> final(self).sponge() == old(self).sponge() && final(out)@ == old(out)@,
            r == Ok::<(), SpongeError>(()) ==> final(self).sponge().squeezing && {
                let sst = squeeze_start_state(old(self).sponge());
                let c = squeeze_start_offset(old(self).sponge());
                let rbn = old(self).sponge().rate / 8;
                let n = old(self).spec_output_bits() / 8;
                &&& final(out)@ == Seq::new(n, |t: int| stream_byte(sst, rbn, (c + t) as nat))
                    + old(out)@.skip(n as int)
                &&& forall|j: nat|
                    j >= final(self).sponge().squeezed ==> #[trigger] stream_byte(
                        final(self).sponge().state,
                        rbn,
                        j,
                    ) == stream_byte(sst, rbn, (c + n + (j - final(self).sponge().squeezed)) as nat)
            },
    {
        let n = self.hash_size / 8;
        let r = self.sponge_state.squeeze(out, n);
        proof {
            if old(self).spec_output_bits() / 8 <= old(out)@.len() {
                assert(r == Ok::<(), SpongeError>(()));
                assert(self.sponge_state@.squeezing);
                assert(self.sponge_state@.queue.len() == 0);
            } else {
                assert(r.is_err());
            }
        }
        r
    }

    /// Start a fresh computation: zero the state and queue and return to the
    /// absorbing phase, keeping the configured output size.
    pub fn reset(&mut self)
        requires
            old(self).inv(),
        ensures
            final(self).inv(),
            final(self).spec_output_bits() == old(self).spec_output_bits(),
            final(self).sponge().rate == old(self).sponge().rate,
            final(self).sponge().state == zero_state(),
            final(self).sponge().queue == Seq::<bool>::empty(),
            !final(self).sponge().squeezing,
    {
        self.sponge_state.reset();
    }

    /// The configured output size in bits.
    pub fn output_bits(&self) -> (r: usize)
        ensures
            r == self.spec_output_bits(),
    {
        self.hash_size
    }
}

} // verus!
