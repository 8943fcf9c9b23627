//! AES-192-CBC with keys and IVs derived from strings.
use vstd::prelude::*;
use crate::cbc::{decrypt_spec, encrypt_spec, pad_len, MagicCryptError};
use crate::cipher::{md5_digest, md5_of, tiger_digest, tiger_of};
use crate::stream::{CbcDecryptor, CbcEncryptor};

verus! {

/// The IV used when none is given: sixteen zero bytes.
pub open spec fn zero_iv() -> Seq<u8> {
    Seq::new(16, |i: int| 0u8)
}

/// Encrypts and decrypts data with AES-192 in CBC mode and PKCS#7 padding.
/// The key is the Tiger digest of a key string; the IV is the MD5 digest of
/// an IV string, or zero.
#[derive(Debug, Clone)]
pub struct MagicCrypt192 {
    key: Vec<u8>,
    iv: Vec<u8>,
}

impl MagicCrypt192 {
    /// The 24-byte key.
    pub closed spec fn key_view(&self) -> Seq<u8> {
        self.key@
    }

    /// The 16-byte initialisation vector.
    pub closed spec fn iv_view(&self) -> Seq<u8> {
        self.iv@
    }

    /// Key and IV have the sizes that AES-192 takes.
    pub closed spec fn wf(&self) -> bool {
        self.key@.len() == 24 && self.iv@.len() == 16
    }

    /// Derives the key from `key` and the IV from `iv`.
    pub fn new(key: &str, iv: Option<&str>) -> (r: Self)
        ensures
            r.wf(),
            r.key_view() == tiger_of(key@),
            iv matches Some(s) ==> r.iv_view() == md5_of(s@),
            iv is None ==> r.iv_view() == zero_iv(),
    {
        let iv = match iv {
            Some(s) => md5_digest(s),
            None => {
                let mut z: Vec<u8> = Vec::with_capacity(16);
                while z.len() < 16
                    invariant
                        z@.len() <= 16,
                        forall|i: int| 0 <= i < z@.len() ==> z@[i] == 0u8,
                    decreases 16 - z@.len(),
                {
                    z.push(0u8);
                }
                assert(z@ =~= zero_iv());
                z
            },
        };
        MagicCrypt192 { key: tiger_digest(key), iv }
    }

    /// A streaming encryptor under this key and IV.
    pub fn encryptor(&self) -> (r: CbcEncryptor)
        requires
            self.wf(),
        ensures
            r.wf(),
            r.key_view() == self.key_view(),
            r.iv_view() == self.iv_view(),
            r.consumed() == Seq::<u8>::empty(),
    {
        CbcEncryptor::new(&self.key, &self.iv)
    }

    /// A streaming decryptor under this key and IV.
    pub fn decryptor(&self) -> (r: CbcDecryptor)
        requires
            self.wf(),
        ensures
            r.wf(),
            r.key_view() == self.key_view(),
            r.iv_view() == self.iv_view(),
            r.consumed() == Seq::<u8>::empty(),
    {
        CbcDecryptor::new(&self.key, &self.iv)
    }

    /// Encrypts `data`. The ciphertext is 1 to 16 bytes longer than `data`
    /// and a whole number of blocks.
    pub fn encrypt_to_bytes(&self, data: &[u8]) -> (r: Vec<u8>)
        requires
            self.wf(),
        ensures
            r@ == encrypt_spec(self.key_view(), self.iv_view(), data@),
            r@.len() == data@.len() + pad_len(data@.len()),
            1 <= pad_len(data@.len()) <= 16,
            r@.len() % 16 == 0,
    {
        let mut enc = CbcEncryptor::new(&self.key, &self.iv);
        let mut out = enc.update(data);
        assert(Seq::<u8>::empty() + data@ =~= data@);
        assert(Seq::<u8>::empty() + out@ =~= out@);
        let mut last = enc.finish();
        out.append(&mut last);
        out
    }

    /// Decrypts `bytes`. Fails with `TruncatedCiphertext` when its length is
    /// not a multiple of 16, and with `BadPadding` when it is empty or its
    /// final block carries invalid padding.
    pub fn decrypt_bytes_to_bytes(&self, bytes: &[u8]) -> (r: Result<Vec<u8>, MagicCryptError>)
        requires
            self.wf(),
        ensures
            r matches Ok(v) ==> decrypt_spec(self.key_view(), self.iv_view(), bytes@)
                == Ok::<Seq<u8>, MagicCryptError>(v@),
            r matches Err(e) ==> decrypt_spec(self.key_view(), self.iv_view(), bytes@)
                == Err::<Seq<u8>, MagicCryptError>(e),
    {
        let mut dec = CbcDecryptor::new(&self.key, &self.iv);
        let mut out = dec.update(bytes);
        assert(Seq::<u8>::empty() + bytes@ =~= bytes@);
        assert(Seq::<u8>::empty() + out@ =~= out@);
        match dec.finish() {
            Ok(mut last) => {
                out.append(&mut last);
                Ok(out)
            },
            Err(e) => Err(e),
        }
    }
}

} // verus!
