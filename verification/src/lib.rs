//! Server-side query answering for a Spiral-style private information
//! retrieval scheme: coefficient expansion, Regev-to-GSW conversion and the
//! packed first-dimension inner product, together with the ring arithmetic
//! they are built on.
//!
//! The stages are in `server`; `poly`, `ntt`, `gadget`, `arith`, `params`
//! and `util` hold the arithmetic, and `aligned_memory` the aligned buffer.
//! The remaining modules hold what is proved of them: `round_trip` and
//! `evaluation` that the transform is invertible and how the automorphism
//! and the digits behave under it, `expansion_law`, `conversion_law` and
//! `decrypt` what the outputs of the stages decrypt to when the ciphertexts
//! and keys carry no noise, and `noise`, `noisy_expansion` and
//! `noisy_conversion` what they decrypt to when the noise stays within a
//! budget.

pub mod aligned_memory;
pub mod arith;
pub mod conversion_law;
pub mod decrypt;
pub mod evaluation;
pub mod expansion_law;
pub mod gadget;
pub mod noise;
pub mod noisy_conversion;
pub mod noisy_expansion;
pub mod ntt;
pub mod params;
pub mod poly;
pub mod round_trip;
pub mod server;
pub mod util;
