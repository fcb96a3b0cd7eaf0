//! A rotor cipher machine with the double-stepping anomaly, and a
//! ciphertext-only search that recovers its settings by quadgram scoring.

pub mod permutation;
pub mod catalog;
pub mod machine;
pub mod text;
pub mod quadgram;
pub mod cryptanalysis;
