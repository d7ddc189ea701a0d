//! A pedagogical substitution-permutation-network block cipher (Heys'
//! cipher: 16-bit block, 4 rounds, 5 round subkeys) together with a
//! linear-cryptanalysis engine that ranks guesses of the final round subkey
//! by the measured bias of a chosen linear approximation.

pub mod bits;
pub mod heys;
