//! Two classic substitution ciphers, the Caesar and the Vigenere, behind
//! a common puzzle trait.

pub mod caesar_cipher;
pub mod traits;
pub mod util;
pub mod vigenere_cipher;

pub use caesar_cipher::Caesar;
pub use traits::CipherPuzzle;
pub use vigenere_cipher::Vigenere;
