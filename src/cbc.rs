//! The mathematical model of CBC chaining and PKCS#7 padding over AES-192,
//! and the small block helpers that the stream processors share.
use vstd::prelude::*;
use crate::cipher::{aes192_decrypt_of, aes192_encrypt_of};

verus! {

/// Why a ciphertext could not be decrypted.
#[derive(Debug, Clone, Copy, PartialEq, Eq, Structural)]
pub enum MagicCryptError {
    /// The ciphertext's length is not a multiple of the block size.
    TruncatedCiphertext,
    /// The ciphertext is empty, or its final block does not carry valid padding.
    BadPadding,
}

/// Bytewise exclusive or of two sequences, over the length of the first.
pub open spec fn xor_bytes(a: Seq<u8>, b: Seq<u8>) -> Seq<u8> {
    Seq::new(a.len(), |i: int| a[i] ^ b[i])
}

/// The chaining value after `s`: its last block, or `iv` while it holds none.
pub open spec fn last_block(iv: Seq<u8>, s: Seq<u8>) -> Seq<u8> {
    if s.len() >= 16 {
        s.subrange(s.len() - 16, s.len() as int)
    } else {
        iv
    }
}

/// CBC encryption of the whole blocks of `p`: each plaintext block is mixed
/// with the previous ciphertext block (or `iv`) and then encrypted.
pub open spec fn cbc_encrypt_blocks(key: Seq<u8>, iv: Seq<u8>, p: Seq<u8>) -> Seq<u8>
    decreases p.len(),
{
    if p.len() < 16 {
        Seq::empty()
    } else {
        let front = cbc_encrypt_blocks(key, iv, p.subrange(0, p.len() - 16));
        front + aes192_encrypt_of(
            key,
            xor_bytes(p.subrange(p.len() - 16, p.len() as int), last_block(iv, front)),
        )
    }
}

/// CBC decryption of the whole blocks of `c`: each block is decrypted and then
/// mixed with the previous ciphertext block (or `iv`).
pub open spec fn cbc_decrypt_blocks(key: Seq<u8>, iv: Seq<u8>, c: Seq<u8>) -> Seq<u8>
    decreases c.len(),
{
    if c.len() < 16 {
        Seq::empty()
    } else {
        let front = c.subrange(0, c.len() - 16);
        cbc_decrypt_blocks(key, iv, front) + xor_bytes(
            aes192_decrypt_of(key, c.subrange(c.len() - 16, c.len() as int)),
            last_block(iv, front),
        )
    }
}

/// Number of padding bytes appended to a message of `n` bytes: 1 to 16.
pub open spec fn pad_len(n: nat) -> nat {
    (16 - n % 16) as nat
}

/// PKCS#7 padding: `pad_len` bytes, each equal to that count.
pub open spec fn pkcs7_pad(m: Seq<u8>) -> Seq<u8> {
    m + Seq::new(pad_len(m.len()), |i: int| pad_len(m.len()) as u8)
}

/// A final plaintext block whose last byte `n` lies in 1..=16 and whose last
/// `n` bytes all equal `n`.
pub open spec fn padding_valid(b: Seq<u8>) -> bool {
    &&& b.len() == 16
    &&& 1 <= b[15] <= 16
    &&& forall|i: int| 16 - b[15] <= i < 16 ==> #[trigger] b[i] == b[15]
}

/// The ciphertext of message `m`: CBC encryption of its padded form.
pub open spec fn encrypt_spec(key: Seq<u8>, iv: Seq<u8>, m: Seq<u8>) -> Seq<u8> {
    cbc_encrypt_blocks(key, iv, pkcs7_pad(m))
}

/// The message of ciphertext `c`, or why there is none.
pub open spec fn decrypt_spec(key: Seq<u8>, iv: Seq<u8>, c: Seq<u8>) -> Result<Seq<u8>, MagicCryptError> {
    if c.len() % 16 != 0 {
        Err(MagicCryptError::TruncatedCiphertext)
    } else if c.len() == 0 {
        Err(MagicCryptError::BadPadding)
    } else {
        let p = cbc_decrypt_blocks(key, iv, c);
        let last = p.subrange(p.len() - 16, p.len() as int);
        if padding_valid(last) {
            Ok(p.subrange(0, p.len() - last[15]))
        } else {
            Err(MagicCryptError::BadPadding)
        }
    }
}

/// AES-192 under `key` permutes the 16-byte blocks, and decryption is the
/// inverse of encryption.
pub open spec fn block_cipher_inverts(key: Seq<u8>) -> bool {
    &&& forall|b: Seq<u8>|
        b.len() == 16 ==> (#[trigger] aes192_encrypt_of(key, b)).len() == 16
            && aes192_decrypt_of(key, aes192_encrypt_of(key, b)) == b
    &&& forall|c: Seq<u8>|
        c.len() == 16 ==> (#[trigger] aes192_decrypt_of(key, c)).len() == 16
            && aes192_encrypt_of(key, aes192_decrypt_of(key, c)) == c
}

proof fn lemma_xor_twice(a: Seq<u8>, b: Seq<u8>)
    requires
        a.len() == 16,
        b.len() == 16,
    ensures
        xor_bytes(xor_bytes(a, b), b) == a,
{
    assert forall|i: int| 0 <= i < 16 implies #[trigger] xor_bytes(xor_bytes(a, b), b)[i] == a[i] by {
        let x = a[i];
        let y = b[i];
        assert((x ^ y) ^ y == x) by (bit_vector);
    }
    assert(xor_bytes(xor_bytes(a, b), b) =~= a);
}

proof fn lemma_cbc_round_trip(key: Seq<u8>, iv: Seq<u8>, p: Seq<u8>)
    requires
        block_cipher_inverts(key),
        iv.len() == 16,
        p.len() % 16 == 0,
    ensures
        cbc_encrypt_blocks(key, iv, p).len() == p.len(),
        cbc_decrypt_blocks(key, iv, cbc_encrypt_blocks(key, iv, p)) == p,
    decreases p.len(),
{
    if p.len() >= 16 {
        let p1 = p.subrange(0, p.len() - 16);
        let blk = p.subrange(p.len() - 16, p.len() as int);
        lemma_cbc_round_trip(key, iv, p1);
        let c1 = cbc_encrypt_blocks(key, iv, p1);
        let lb = last_block(iv, c1);
        let x = xor_bytes(blk, lb);
        let cb = aes192_encrypt_of(key, x);
        let c = cbc_encrypt_blocks(key, iv, p);
        assert(c == c1 + cb);
        assert(c.subrange(0, c.len() - 16) =~= c1);
        assert(c.subrange(c.len() - 16, c.len() as int) =~= cb);
        lemma_xor_twice(blk, lb);
        assert(cbc_decrypt_blocks(key, iv, c) =~= p1 + blk);
        assert(p1 + blk =~= p);
    }
}

/// Decryption undoes encryption: for every message, decrypting its
/// ciphertext under the same key and IV gives the message back.
pub proof fn lemma_decrypt_encrypt(key: Seq<u8>, iv: Seq<u8>, m: Seq<u8>)
    requires
        block_cipher_inverts(key),
        iv.len() == 16,
    ensures
        decrypt_spec(key, iv, encrypt_spec(key, iv, m)) == Ok::<Seq<u8>, MagicCryptError>(m),
{
    let pl = pad_len(m.len());
    let p = pkcs7_pad(m);
    assert(p.len() % 16 == 0);
    lemma_cbc_round_trip(key, iv, p);
    let last = p.subrange(p.len() - 16, p.len() as int);
    assert(last[15] == pl);
    assert(padding_valid(last));
    assert(p.subrange(0, p.len() - last[15]) =~= m);
}

/// Tampering with the last byte of a ciphertext never goes unnoticed:
/// decryption then fails, or gives something other than the message.
pub proof fn lemma_tampered_last_byte(key: Seq<u8>, iv: Seq<u8>, m: Seq<u8>, x: u8)
    requires
        block_cipher_inverts(key),
        iv.len() == 16,
        x != encrypt_spec(key, iv, m).last(),
    ensures
        decrypt_spec(
            key,
            iv,
            encrypt_spec(key, iv, m).update(encrypt_spec(key, iv, m).len() - 1, x),
        ) != Ok::<Seq<u8>, MagicCryptError>(m),
{
    let pl = pad_len(m.len());
    let p = pkcs7_pad(m);
    let n = p.len();
    lemma_cbc_round_trip(key, iv, p);
    let c = encrypt_spec(key, iv, m);
    let c2 = c.update(n - 1, x);
    let front = c.subrange(0, n - 16);
    assert(c2.subrange(0, n - 16) =~= front);
    let cl = c.subrange(n - 16, n as int);
    let cl2 = c2.subrange(n - 16, n as int);
    let lb = last_block(iv, front);
    let f = cbc_decrypt_blocks(key, iv, front);
    let q = xor_bytes(aes192_decrypt_of(key, cl), lb);
    let q2 = xor_bytes(aes192_decrypt_of(key, cl2), lb);
    assert(cbc_decrypt_blocks(key, iv, c) == f + q);
    assert(cbc_decrypt_blocks(key, iv, c2) == f + q2);
    assert(f.len() == n - 16);
    assert(cl[15] != cl2[15]);
    if decrypt_spec(key, iv, c2) == Ok::<Seq<u8>, MagicCryptError>(m) {
        let p2 = f + q2;
        assert(p2.subrange(n - 16, n as int) =~= q2);
        assert(padding_valid(q2));
        assert(m == p2.subrange(0, n - q2[15]));
        assert(q2[15] == pl);
        assert(p.subrange(n - 16, n as int) =~= q);
        assert forall|i: int| 0 <= i < 16 implies q2[i] == q[i] by {
            if i < 16 - pl {
                assert(q2[i] == p2[n - 16 + i]);
                assert(q[i] == p[n - 16 + i]);
            } else {
                assert(q[i] == p[n - 16 + i]);
            }
        }
        assert(q2 =~= q);
        lemma_xor_twice(aes192_decrypt_of(key, cl), lb);
        lemma_xor_twice(aes192_decrypt_of(key, cl2), lb);
        assert(aes192_decrypt_of(key, cl2) == aes192_decrypt_of(key, cl));
        assert(cl2 == cl);
    }
}

/// Bytewise exclusive or of two blocks.
pub fn xor_block(a: &[u8], b: &[u8]) -> (r: Vec<u8>)
    requires
        a@.len() == 16,
        b@.len() == 16,
    ensures
        r@ == xor_bytes(a@, b@),
{
    let mut r: Vec<u8> = Vec::with_capacity(16);
    let mut i: usize = 0;
    while i < 16
        invariant
            i <= 16,
            a@.len() == 16,
            b@.len() == 16,
            r@ == xor_bytes(a@, b@).subrange(0, i as int),
        decreases 16 - i,
    {
        r.push(a[i] ^ b[i]);
        i += 1;
        assert(r@ =~= xor_bytes(a@, b@).subrange(0, i as int));
    }
    assert(r@ =~= xor_bytes(a@, b@));
    r
}

/// Completes the partial block `tail` (under 16 bytes) with PKCS#7 padding.
pub fn pad_block(tail: &[u8]) -> (r: Vec<u8>)
    requires
        tail@.len() < 16,
    ensures
        r@ == tail@ + Seq::new(pad_len(tail@.len()), |i: int| pad_len(tail@.len()) as u8),
        r@.len() == 16,
{
    let n: u8 = (16 - tail.len()) as u8;
    let mut r: Vec<u8> = Vec::with_capacity(16);
    r.extend_from_slice(tail);
    let ghost pad = Seq::new(pad_len(tail@.len()), |i: int| pad_len(tail@.len()) as u8);
    assert(pad_len(tail@.len()) == n as nat);
    assert(forall|i: int| 0 <= i < pad.len() ==> pad[i] == n);
    while r.len() < 16
        invariant
            tail@.len() <= r@.len() <= 16,
            n == pad_len(tail@.len()),
            pad.len() == n,
            forall|i: int| 0 <= i < pad.len() ==> pad[i] == n,
            r@ == tail@ + pad.subrange(0, r@.len() - tail@.len()),
        decreases 16 - r@.len(),
    {
        let ghost k = r@.len() - tail@.len();
        assert(pad[k] == n);
        r.push(n);
        assert(r@ =~= tail@ + pad.subrange(0, r@.len() - tail@.len()));
    }
    assert(r@ =~= tail@ + pad);
    r
}

/// Whether a final plaintext block carries valid padding.
pub fn check_padding(b: &[u8]) -> (r: bool)
    requires
        b@.len() == 16,
    ensures
        r == padding_valid(b@),
{
    let n: u8 = b[15];
    if n < 1 || n > 16 {
        return false;
    }
    let mut i: usize = 16 - n as usize;
    while i < 16
        invariant
            b@.len() == 16,
            1 <= n <= 16,
            n == b@[15],
            16 - n <= i <= 16,
            forall|j: int| 16 - n <= j < i ==> b@[j] == n,
        decreases 16 - i,
    {
        if b[i] != n {
            return false;
        }
        i += 1;
    }
    true
}

} // verus!
