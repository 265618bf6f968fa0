//! Keccak sponge hashing.
//!
//! The crate implements the Keccak sponge construction: the Keccak-f[1600]
//! permutation (theta, rho, pi, chi, iota over 24 rounds), bit-granular
//! absorption with the pad10*1 padding rule, and re-entrant squeezing of
//! arbitrary-length output, together with a fixed-size digest facade for the
//! standard output sizes.

pub mod bitstream;
pub mod display;
pub mod nist;
pub mod permutation;
pub mod sponge;
