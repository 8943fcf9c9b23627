//! AES-192 in CBC mode with PKCS#7 padding, processed as a bounded-memory
//! stream: plaintext or ciphertext is fed in chunks of any size, and output
//! is produced block by block as soon as it is certain.
use vstd::prelude::*;

pub mod cipher;
pub mod cbc;
pub mod stream;
pub mod crypt;

pub use cbc::MagicCryptError;
pub use crypt::MagicCrypt192;
pub use stream::{CbcDecryptor, CbcEncryptor};

verus! {

/// Size in bytes of one cipher block.
pub const BLOCK_SIZE: usize = 16;

/// Size of the read buffer that stream drivers use for one read call.
pub const BUFFER_SIZE: usize = 4096;

} // verus!
