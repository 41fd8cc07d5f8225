//! Whole-buffer DES encryption in electronic-codebook mode, split into
//! contiguous byte ranges that independent workers can process.
//!
//! The pipeline has four stages: a key of any length is coerced to the
//! cipher's eight bytes ([`key`]), the buffer is cut into block-aligned
//! ranges ([`partition`]), each range is padded and ciphered on its own
//! ([`cipher`], [`pipeline`]), and the outputs are joined in range order
//! ([`orchestrator`], which holds the run as a state machine and
//! [`orchestrator::run`], the whole pipeline in one call).
//!
//! Every range is padded separately, so a ciphertext is not cut like its
//! plaintext. [`layout`] says where each worker's output lies in it, and
//! [`roundtrip`] shows that decryption over those ranges gives the plaintext
//! back, and for which lengths cutting the ciphertext by its own length
//! finds the same ranges.

pub mod cipher;
pub mod key;
pub mod layout;
pub mod orchestrator;
pub mod partition;
pub mod pipeline;
pub mod roundtrip;
