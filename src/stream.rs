//! Bounded-memory CBC stream processors. Each holds the chaining block and
//! at most one block of input; input is fed in chunks of any size and output
//! is returned as soon as it is certain.
use vstd::prelude::*;
use vstd::slice::slice_to_vec;
use crate::cbc::{
    cbc_decrypt_blocks, cbc_encrypt_blocks, check_padding, decrypt_spec, encrypt_spec,
    last_block, pad_block, pkcs7_pad, xor_block, xor_bytes, MagicCryptError,
};
use crate::cipher::{aes192_decrypt_block, aes192_decrypt_of, aes192_encrypt_block, aes192_encrypt_of};

verus! {

/// Length of the whole-block prefix of a plaintext stream of `n` bytes: the
/// part an encryptor has already encrypted.
pub open spec fn whole_len(n: nat) -> nat {
    (n - n % 16) as nat
}

/// Ciphertext an encryptor has emitted once it has consumed `t`.
pub open spec fn enc_emitted(key: Seq<u8>, iv: Seq<u8>, t: Seq<u8>) -> Seq<u8> {
    cbc_encrypt_blocks(key, iv, t.subrange(0, whole_len(t.len()) as int))
}

/// What an encryptor emits when it consumes `d` after `t`.
pub open spec fn enc_step(key: Seq<u8>, iv: Seq<u8>, t: Seq<u8>, d: Seq<u8>) -> Seq<u8> {
    let before = enc_emitted(key, iv, t);
    let after = enc_emitted(key, iv, t + d);
    after.subrange(before.len() as int, after.len() as int)
}

/// What an encryptor emits when the stream `t` ends.
pub open spec fn enc_last(key: Seq<u8>, iv: Seq<u8>, t: Seq<u8>) -> Seq<u8> {
    let before = enc_emitted(key, iv, t);
    let all = encrypt_spec(key, iv, t);
    all.subrange(before.len() as int, all.len() as int)
}

/// Length of the prefix of a ciphertext stream of `n` bytes that is known not
/// to hold the final block: every whole block but the last one seen.
pub open spec fn held_len(n: nat) -> nat {
    if n == 0 {
        0
    } else if n % 16 == 0 {
        (n - 16) as nat
    } else {
        (n - n % 16) as nat
    }
}

/// Plaintext a decryptor has emitted once it has consumed `t`.
pub open spec fn dec_emitted(key: Seq<u8>, iv: Seq<u8>, t: Seq<u8>) -> Seq<u8> {
    cbc_decrypt_blocks(key, iv, t.subrange(0, held_len(t.len()) as int))
}

/// What a decryptor emits when it consumes `d` after `t`.
pub open spec fn dec_step(key: Seq<u8>, iv: Seq<u8>, t: Seq<u8>, d: Seq<u8>) -> Seq<u8> {
    let before = dec_emitted(key, iv, t);
    let after = dec_emitted(key, iv, t + d);
    after.subrange(before.len() as int, after.len() as int)
}

proof fn lemma_enc_emitted_push(key: Seq<u8>, iv: Seq<u8>, t: Seq<u8>, b: u8)
    ensures
        ({
            let t2 = t.push(b);
            if t2.len() % 16 == 0 {
                enc_emitted(key, iv, t2) == enc_emitted(key, iv, t) + aes192_encrypt_of(
                    key,
                    xor_bytes(t2.subrange(t2.len() - 16, t2.len() as int), last_block(iv, enc_emitted(key, iv, t))),
                )
            } else {
                enc_emitted(key, iv, t2) == enc_emitted(key, iv, t)
            }
        }),
{
    let t2 = t.push(b);
    if t2.len() % 16 == 0 {
        assert(t2.subrange(0, whole_len(t2.len()) as int) =~= t2);
        assert(t2.subrange(0, t2.len() - 16) =~= t.subrange(0, whole_len(t.len()) as int));
    } else {
        assert(t2.subrange(0, whole_len(t2.len()) as int) =~= t.subrange(0, whole_len(t.len()) as int));
    }
}

proof fn lemma_dec_emitted_push(key: Seq<u8>, iv: Seq<u8>, t: Seq<u8>, b: u8)
    ensures
        t.len() > 0 && t.len() % 16 == 0 ==> dec_emitted(key, iv, t.push(b)) == dec_emitted(key, iv, t)
            + xor_bytes(
            aes192_decrypt_of(key, t.subrange(t.len() - 16, t.len() as int)),
            last_block(iv, t.subrange(0, t.len() - 16)),
        ),
        !(t.len() > 0 && t.len() % 16 == 0) ==> dec_emitted(key, iv, t.push(b)) == dec_emitted(key, iv, t),
{
    let t2 = t.push(b);
    if t.len() > 0 && t.len() % 16 == 0 {
        assert(t2.subrange(0, held_len(t2.len()) as int) =~= t);
        assert(t.subrange(0, t.len() - 16) =~= t.subrange(0, held_len(t.len()) as int));
    } else {
        assert(t2.subrange(0, held_len(t2.len()) as int) =~= t.subrange(0, held_len(t.len()) as int));
    }
}

/// Concatenated output of an encryptor that has consumed `t` and is then fed
/// `chunks` one update at a time.
pub open spec fn enc_steps(key: Seq<u8>, iv: Seq<u8>, t: Seq<u8>, chunks: Seq<Seq<u8>>) -> Seq<u8>
    decreases chunks.len(),
{
    if chunks.len() == 0 {
        Seq::empty()
    } else {
        enc_step(key, iv, t, chunks[0]) + enc_steps(key, iv, t + chunks[0], chunks.drop_first())
    }
}

/// Concatenated output of a decryptor that has consumed `t` and is then fed
/// `chunks` one update at a time.
pub open spec fn dec_steps(key: Seq<u8>, iv: Seq<u8>, t: Seq<u8>, chunks: Seq<Seq<u8>>) -> Seq<u8>
    decreases chunks.len(),
{
    if chunks.len() == 0 {
        Seq::empty()
    } else {
        dec_step(key, iv, t, chunks[0]) + dec_steps(key, iv, t + chunks[0], chunks.drop_first())
    }
}

proof fn lemma_enc_blocks_prefix(key: Seq<u8>, iv: Seq<u8>, p: Seq<u8>, q: Seq<u8>)
    requires
        p.len() <= q.len(),
        p.len() % 16 == 0,
        q.len() % 16 == 0,
        p == q.subrange(0, p.len() as int),
    ensures
        cbc_encrypt_blocks(key, iv, p).len() <= cbc_encrypt_blocks(key, iv, q).len(),
        cbc_encrypt_blocks(key, iv, q).subrange(0, cbc_encrypt_blocks(key, iv, p).len() as int)
            == cbc_encrypt_blocks(key, iv, p),
    decreases q.len(),
{
    let a = cbc_encrypt_blocks(key, iv, p);
    if p.len() == q.len() {
        assert(p =~= q);
        assert(a.subrange(0, a.len() as int) =~= a);
    } else {
        let q1 = q.subrange(0, q.len() - 16);
        assert(p =~= q1.subrange(0, p.len() as int));
        lemma_enc_blocks_prefix(key, iv, p, q1);
        let b = cbc_encrypt_blocks(key, iv, q1);
        let c = cbc_encrypt_blocks(key, iv, q);
        assert(c.subrange(0, a.len() as int) =~= b.subrange(0, a.len() as int));
    }
}

proof fn lemma_dec_blocks_prefix(key: Seq<u8>, iv: Seq<u8>, p: Seq<u8>, q: Seq<u8>)
    requires
        p.len() <= q.len(),
        p.len() % 16 == 0,
        q.len() % 16 == 0,
        p == q.subrange(0, p.len() as int),
    ensures
        cbc_decrypt_blocks(key, iv, p).len() <= cbc_decrypt_blocks(key, iv, q).len(),
        cbc_decrypt_blocks(key, iv, q).subrange(0, cbc_decrypt_blocks(key, iv, p).len() as int)
            == cbc_decrypt_blocks(key, iv, p),
    decreases q.len(),
{
    let a = cbc_decrypt_blocks(key, iv, p);
    if p.len() == q.len() {
        assert(p =~= q);
        assert(a.subrange(0, a.len() as int) =~= a);
    } else {
        let q1 = q.subrange(0, q.len() - 16);
        assert(p =~= q1.subrange(0, p.len() as int));
        lemma_dec_blocks_prefix(key, iv, p, q1);
        let b = cbc_decrypt_blocks(key, iv, q1);
        let c = cbc_decrypt_blocks(key, iv, q);
        assert(c.subrange(0, a.len() as int) =~= b.subrange(0, a.len() as int));
    }
}

proof fn lemma_enc_emitted_prefix(key: Seq<u8>, iv: Seq<u8>, t: Seq<u8>, d: Seq<u8>)
    ensures
        enc_emitted(key, iv, t) + enc_step(key, iv, t, d) == enc_emitted(key, iv, t + d),
{
    let u = t + d;
    let p = t.subrange(0, whole_len(t.len()) as int);
    let q = u.subrange(0, whole_len(u.len()) as int);
    assert(whole_len(t.len()) <= whole_len(u.len())) by (nonlinear_arith)
        requires u.len() >= t.len();
    assert(p =~= q.subrange(0, p.len() as int));
    lemma_enc_blocks_prefix(key, iv, p, q);
    let a = enc_emitted(key, iv, t);
    let b = enc_emitted(key, iv, u);
    assert(a + b.subrange(a.len() as int, b.len() as int) =~= b);
}

proof fn lemma_dec_emitted_prefix(key: Seq<u8>, iv: Seq<u8>, t: Seq<u8>, d: Seq<u8>)
    ensures
        dec_emitted(key, iv, t) + dec_step(key, iv, t, d) == dec_emitted(key, iv, t + d),
{
    let u = t + d;
    let p = t.subrange(0, held_len(t.len()) as int);
    let q = u.subrange(0, held_len(u.len()) as int);
    assert(held_len(t.len()) <= held_len(u.len())) by (nonlinear_arith)
        requires u.len() >= t.len();
    assert(p =~= q.subrange(0, p.len() as int));
    lemma_dec_blocks_prefix(key, iv, p, q);
    let a = dec_emitted(key, iv, t);
    let b = dec_emitted(key, iv, u);
    assert(a + b.subrange(a.len() as int, b.len() as int) =~= b);
}

/// Chunking does not matter to encryption: feeding a stream to an encryptor
/// in any sequence of chunks and then ending it yields exactly the ciphertext
/// of the whole stream.
pub proof fn lemma_encrypt_chunking(key: Seq<u8>, iv: Seq<u8>, chunks: Seq<Seq<u8>>)
    ensures
        enc_steps(key, iv, Seq::empty(), chunks) + enc_last(key, iv, chunks.flatten())
            == encrypt_spec(key, iv, chunks.flatten()),
{
    lemma_enc_steps(key, iv, Seq::empty(), chunks);
    let e0 = enc_emitted(key, iv, Seq::empty());
    assert(Seq::<u8>::empty().subrange(0, 0) =~= Seq::<u8>::empty());
    assert(e0 =~= Seq::<u8>::empty());
    assert(Seq::<u8>::empty() + chunks.flatten() =~= chunks.flatten());
    assert(enc_steps(key, iv, Seq::empty(), chunks) == enc_emitted(key, iv, chunks.flatten()));
    let t = chunks.flatten();
    let p = pkcs7_pad(t);
    let w = whole_len(t.len());
    assert(p.len() == w + 16);
    assert(t.subrange(0, w as int) =~= p.subrange(0, w as int));
    lemma_enc_blocks_prefix(key, iv, t.subrange(0, w as int), p);
    let a = enc_emitted(key, iv, t);
    let b = encrypt_spec(key, iv, t);
    assert(a + b.subrange(a.len() as int, b.len() as int) =~= b);
}

/// Chunking does not matter to decryption: the plaintext that a decryptor
/// releases while it is fed a stream in any sequence of chunks is exactly
/// what it releases when fed the whole stream at once.
pub proof fn lemma_decrypt_chunking(key: Seq<u8>, iv: Seq<u8>, chunks: Seq<Seq<u8>>)
    ensures
        dec_steps(key, iv, Seq::empty(), chunks) == dec_step(key, iv, Seq::empty(), chunks.flatten()),
        dec_steps(key, iv, Seq::empty(), chunks) == dec_emitted(key, iv, chunks.flatten()),
{
    lemma_dec_steps(key, iv, Seq::empty(), chunks);
    lemma_dec_emitted_prefix(key, iv, Seq::empty(), chunks.flatten());
    assert(Seq::<u8>::empty().subrange(0, 0) =~= Seq::<u8>::empty());
    assert(dec_emitted(key, iv, Seq::empty()) =~= Seq::<u8>::empty());
    assert(Seq::<u8>::empty() + chunks.flatten() =~= chunks.flatten());
    assert(Seq::<u8>::empty() + dec_steps(key, iv, Seq::empty(), chunks) =~= dec_steps(key, iv, Seq::empty(), chunks));
    assert(Seq::<u8>::empty() + dec_step(key, iv, Seq::empty(), chunks.flatten()) =~= dec_step(key, iv, Seq::empty(), chunks.flatten()));
}

proof fn lemma_enc_steps(key: Seq<u8>, iv: Seq<u8>, t: Seq<u8>, chunks: Seq<Seq<u8>>)
    ensures
        enc_emitted(key, iv, t) + enc_steps(key, iv, t, chunks) == enc_emitted(key, iv, t + chunks.flatten()),
    decreases chunks.len(),
{
    if chunks.len() == 0 {
        assert(t + chunks.flatten() =~= t);
        assert(enc_emitted(key, iv, t) + Seq::<u8>::empty() =~= enc_emitted(key, iv, t));
    } else {
        let c0 = chunks[0];
        let rest = chunks.drop_first();
        lemma_enc_emitted_prefix(key, iv, t, c0);
        lemma_enc_steps(key, iv, t + c0, rest);
        assert(chunks.flatten() == c0 + rest.flatten());
        assert(t + c0 + rest.flatten() =~= t + chunks.flatten());
        assert(enc_emitted(key, iv, t) + enc_steps(key, iv, t, chunks) =~= enc_emitted(key, iv, t) + enc_step(
            key,
            iv,
            t,
            c0,
        ) + enc_steps(key, iv, t + c0, rest));
    }
}

proof fn lemma_dec_steps(key: Seq<u8>, iv: Seq<u8>, t: Seq<u8>, chunks: Seq<Seq<u8>>)
    ensures
        dec_emitted(key, iv, t) + dec_steps(key, iv, t, chunks) == dec_emitted(key, iv, t + chunks.flatten()),
    decreases chunks.len(),
{
    if chunks.len() == 0 {
        assert(t + chunks.flatten() =~= t);
        assert(dec_emitted(key, iv, t) + Seq::<u8>::empty() =~= dec_emitted(key, iv, t));
    } else {
        let c0 = chunks[0];
        let rest = chunks.drop_first();
        lemma_dec_emitted_prefix(key, iv, t, c0);
        lemma_dec_steps(key, iv, t + c0, rest);
        assert(chunks.flatten() == c0 + rest.flatten());
        assert(t + c0 + rest.flatten() =~= t + chunks.flatten());
        assert(dec_emitted(key, iv, t) + dec_steps(key, iv, t, chunks) =~= dec_emitted(key, iv, t) + dec_step(
            key,
            iv,
            t,
            c0,
        ) + dec_steps(key, iv, t + c0, rest));
    }
}

/// Streaming CBC encryptor with PKCS#7 padding.
pub struct CbcEncryptor {
    key: Vec<u8>,
    chain: Vec<u8>,
    pending: Vec<u8>,
    iv: Ghost<Seq<u8>>,
    consumed: Ghost<Seq<u8>>,
}

impl CbcEncryptor {
    /// The 24-byte key.
    pub closed spec fn key_view(&self) -> Seq<u8> {
        self.key@
    }

    /// The 16-byte initialisation vector.
    pub closed spec fn iv_view(&self) -> Seq<u8> {
        self.iv@
    }

    /// Every plaintext byte fed so far.
    pub closed spec fn consumed(&self) -> Seq<u8> {
        self.consumed@
    }

    /// Number of plaintext bytes held back, waiting for a whole block.
    pub closed spec fn buffered(&self) -> nat {
        self.pending@.len()
    }

    /// The buffered bytes are the partial block at the end of the input, and
    /// the chaining block is the last ciphertext block emitted (or the IV).
    pub closed spec fn wf(&self) -> bool {
        &&& self.key@.len() == 24
        &&& self.iv@.len() == 16
        &&& self.chain@.len() == 16
        &&& self.pending@ == self.consumed@.subrange(
            whole_len(self.consumed@.len()) as int,
            self.consumed@.len() as int,
        )
        &&& self.chain@ == last_block(self.iv@, enc_emitted(self.key@, self.iv@, self.consumed@))
        &&& enc_emitted(self.key@, self.iv@, self.consumed@).len() == whole_len(self.consumed@.len())
    }

    /// An encryptor that has consumed nothing.
    pub fn new(key: &[u8], iv: &[u8]) -> (r: Self)
        requires
            key@.len() == 24,
            iv@.len() == 16,
        ensures
            r.wf(),
            r.key_view() == key@,
            r.iv_view() == iv@,
            r.consumed() == Seq::<u8>::empty(),
            r.buffered() == 0,
            enc_emitted(key@, iv@, Seq::empty()) == Seq::<u8>::empty(),
    {
        let r = CbcEncryptor {
            key: slice_to_vec(key),
            chain: slice_to_vec(iv),
            pending: Vec::new(),
            iv: Ghost(iv@),
            consumed: Ghost(Seq::empty()),
        };
        assert(r.consumed@.subrange(0, 0) =~= Seq::<u8>::empty());
        r
    }

    /// Consumes `data` and returns the ciphertext of every block it completes.
    /// At most one partial block stays buffered.
    pub fn update(&mut self, data: &[u8]) -> (out: Vec<u8>)
        requires
            old(self).wf(),
        ensures
            final(self).wf(),
            final(self).key_view() == old(self).key_view(),
            final(self).iv_view() == old(self).iv_view(),
            final(self).consumed() == old(self).consumed() + data@,
            out@ == enc_step(old(self).key_view(), old(self).iv_view(), old(self).consumed(), data@),
            enc_emitted(old(self).key_view(), old(self).iv_view(), old(self).consumed()) + out@
                == enc_emitted(final(self).key_view(), final(self).iv_view(), final(self).consumed()),
            enc_emitted(final(self).key_view(), final(self).iv_view(), final(self).consumed()).len()
                == whole_len(final(self).consumed().len()),
            final(self).buffered() == final(self).consumed().len() % 16,
            final(self).buffered() < 16,
    {
        let ghost key = self.key@;
        let ghost iv = self.iv@;
        let ghost t0 = self.consumed@;
        let mut out: Vec<u8> = Vec::new();
        let mut i: usize = 0;
        while i < data.len()
            invariant
                self.wf(),
                self.key@ == key,
                self.iv@ == iv,
                i <= data@.len(),
                self.consumed@ == t0 + data@.subrange(0, i as int),
                enc_emitted(key, iv, t0) + out@ == enc_emitted(key, iv, self.consumed@),
            decreases data@.len() - i,
        {
            let ghost t = self.consumed@;
            proof {
                lemma_enc_emitted_push(key, iv, t, data@[i as int]);
            }
            self.pending.push(data[i]);
            self.consumed = Ghost(t.push(data@[i as int]));
            if self.pending.len() == 16 {
                let x = xor_block(&self.pending, &self.chain);
                let mut c = aes192_encrypt_block(&self.key, &x);
                let ghost cv = c@;
                self.chain = slice_to_vec(&c);
                out.append(&mut c);
                self.pending = Vec::new();
                proof {
                    let t2 = self.consumed@;
                    assert(t2.subrange(t2.len() - 16, t2.len() as int) =~= t.subrange(
                        whole_len(t.len()) as int,
                        t.len() as int,
                    ).push(data@[i as int]));
                    let e2 = enc_emitted(key, iv, t2);
                    assert(e2.subrange(e2.len() - 16, e2.len() as int) =~= cv);
                    assert(t2.subrange(whole_len(t2.len()) as int, t2.len() as int) =~= Seq::<u8>::empty());
                }
            } else {
                proof {
                    let t2 = self.consumed@;
                    assert(t2.subrange(whole_len(t2.len()) as int, t2.len() as int) =~= t.subrange(
                        whole_len(t.len()) as int,
                        t.len() as int,
                    ).push(data@[i as int]));
                }
            }
            i += 1;
            assert(t0 + data@.subrange(0, i as int) =~= self.consumed@);
        }
        proof {
            assert(data@.subrange(0, data@.len() as int) =~= data@);
            let before = enc_emitted(key, iv, t0);
            assert((before + out@).subrange(before.len() as int, (before + out@).len() as int) =~= out@);
        }
        out
    }

    /// Ends the stream: pads the buffered bytes and returns the final block of
    /// ciphertext.
    pub fn finish(self) -> (r: Vec<u8>)
        requires
            self.wf(),
        ensures
            r@ == enc_last(self.key_view(), self.iv_view(), self.consumed()),
            enc_emitted(self.key_view(), self.iv_view(), self.consumed()) + r@
                == encrypt_spec(self.key_view(), self.iv_view(), self.consumed()),
            r@.len() == 16,
    {
        let blk = pad_block(&self.pending);
        let x = xor_block(&blk, &self.chain);
        let r = aes192_encrypt_block(&self.key, &x);
        proof {
            let key = self.key@;
            let iv = self.iv@;
            let t = self.consumed@;
            let w = whole_len(t.len());
            let p = pkcs7_pad(t);
            assert(p.len() == w + 16);
            assert(p.subrange(0, p.len() - 16) =~= t.subrange(0, w as int));
            assert(p.subrange(p.len() - 16, p.len() as int) =~= blk@);
            let before = enc_emitted(key, iv, t);
            let all = encrypt_spec(key, iv, t);
            assert(all == before + r@);
            assert(all.subrange(before.len() as int, all.len() as int) =~= r@);
        }
        r
    }
}

/// Streaming CBC decryptor that strips PKCS#7 padding. It decrypts a block
/// only once a byte past it has arrived, so that the final block, the one
/// that carries the padding, is only ever decrypted by `finish`.
pub struct CbcDecryptor {
    key: Vec<u8>,
    chain: Vec<u8>,
    pending: Vec<u8>,
    iv: Ghost<Seq<u8>>,
    consumed: Ghost<Seq<u8>>,
}

impl CbcDecryptor {
    /// The 24-byte key.
    pub closed spec fn key_view(&self) -> Seq<u8> {
        self.key@
    }

    /// The 16-byte initialisation vector.
    pub closed spec fn iv_view(&self) -> Seq<u8> {
        self.iv@
    }

    /// Every ciphertext byte fed so far.
    pub closed spec fn consumed(&self) -> Seq<u8> {
        self.consumed@
    }

    /// Number of ciphertext bytes held back: at most one block.
    pub closed spec fn buffered(&self) -> nat {
        self.pending@.len()
    }

    /// The buffered bytes are the input after the last block known not to
    /// be final, and the chaining block is the ciphertext block before them
    /// (or the IV).
    pub closed spec fn wf(&self) -> bool {
        &&& self.key@.len() == 24
        &&& self.iv@.len() == 16
        &&& self.chain@.len() == 16
        &&& self.pending@ == self.consumed@.subrange(
            held_len(self.consumed@.len()) as int,
            self.consumed@.len() as int,
        )
        &&& self.chain@ == last_block(self.iv@, self.consumed@.subrange(0, held_len(self.consumed@.len()) as int))
        &&& dec_emitted(self.key@, self.iv@, self.consumed@).len() == held_len(self.consumed@.len())
    }

    /// A decryptor that has consumed nothing.
    pub fn new(key: &[u8], iv: &[u8]) -> (r: Self)
        requires
            key@.len() == 24,
            iv@.len() == 16,
        ensures
            r.wf(),
            r.key_view() == key@,
            r.iv_view() == iv@,
            r.consumed() == Seq::<u8>::empty(),
            r.buffered() == 0,
            dec_emitted(key@, iv@, Seq::empty()) == Seq::<u8>::empty(),
    {
        let r = CbcDecryptor {
            key: slice_to_vec(key),
            chain: slice_to_vec(iv),
            pending: Vec::new(),
            iv: Ghost(iv@),
            consumed: Ghost(Seq::empty()),
        };
        assert(r.consumed@.subrange(0, 0) =~= Seq::<u8>::empty());
        r
    }

    /// Consumes `data` and returns the plaintext of every block that is now
    /// known not to be the final one. At most one block stays buffered.
    #[verifier::rlimit(40)]
    pub fn update(&mut self, data: &[u8]) -> (out: Vec<u8>)
        requires
            old(self).wf(),
        ensures
            final(self).wf(),
            final(self).key_view() == old(self).key_view(),
            final(self).iv_view() == old(self).iv_view(),
            final(self).consumed() == old(self).consumed() + data@,
            out@ == dec_step(old(self).key_view(), old(self).iv_view(), old(self).consumed(), data@),
            dec_emitted(old(self).key_view(), old(self).iv_view(), old(self).consumed()) + out@
                == dec_emitted(final(self).key_view(), final(self).iv_view(), final(self).consumed()),
            final(self).buffered() == final(self).consumed().len() - held_len(final(self).consumed().len()),
            final(self).buffered() <= 16,
    {
        let ghost key = self.key@;
        let ghost iv = self.iv@;
        let ghost t0 = self.consumed@;
        let mut out: Vec<u8> = Vec::new();
        let mut i: usize = 0;
        while i < data.len()
            invariant
                self.wf(),
                self.key@ == key,
                self.iv@ == iv,
                i <= data@.len(),
                self.consumed@ == t0 + data@.subrange(0, i as int),
                dec_emitted(key, iv, t0) + out@ == dec_emitted(key, iv, self.consumed@),
            decreases data@.len() - i,
        {
            let ghost t = self.consumed@;
            proof {
                lemma_dec_emitted_push(key, iv, t, data@[i as int]);
            }
            if self.pending.len() == 16 {
                let d = aes192_decrypt_block(&self.key, &self.pending);
                let mut p = xor_block(&d, &self.chain);
                out.append(&mut p);
                self.chain = slice_to_vec(&self.pending);
                self.pending = Vec::new();
                proof {
                    assert(t.subrange(t.len() - 16, t.len() as int) =~= self.chain@);
                    assert(t.subrange(0, held_len(t.len()) as int) =~= t.subrange(0, t.len() - 16));
                }
            }
            self.pending.push(data[i]);
            self.consumed = Ghost(t.push(data@[i as int]));
            proof {
                let t2 = self.consumed@;
                assert(t2.subrange(held_len(t2.len()) as int, t2.len() as int) =~= self.pending@);
                if t.len() > 0 && t.len() % 16 == 0 {
                    assert(t2.subrange(0, held_len(t2.len()) as int) =~= t);
                } else {
                    assert(t2.subrange(0, held_len(t2.len()) as int) =~= t.subrange(0, held_len(t.len()) as int));
                }
            }
            i += 1;
            assert(t0 + data@.subrange(0, i as int) =~= self.consumed@);
        }
        proof {
            assert(data@.subrange(0, data@.len() as int) =~= data@);
            let before = dec_emitted(key, iv, t0);
            assert((before + out@).subrange(before.len() as int, (before + out@).len() as int) =~= out@);
        }
        out
    }

    /// Ends the stream: decrypts the final block and strips its padding.
    /// Fails when the stream is empty, ends inside a block, or its final
    /// block carries invalid padding.
    pub fn finish(self) -> (r: Result<Vec<u8>, MagicCryptError>)
        requires
            self.wf(),
        ensures
            r matches Ok(v) ==> decrypt_spec(self.key_view(), self.iv_view(), self.consumed())
                == Ok::<Seq<u8>, MagicCryptError>(dec_emitted(self.key_view(), self.iv_view(), self.consumed()) + v@),
            r matches Err(e) ==> decrypt_spec(self.key_view(), self.iv_view(), self.consumed())
                == Err::<Seq<u8>, MagicCryptError>(e),
    {
        if self.pending.len() == 0 {
            return Err(MagicCryptError::BadPadding);
        }
        if self.pending.len() < 16 {
            return Err(MagicCryptError::TruncatedCiphertext);
        }
        let d = aes192_decrypt_block(&self.key, &self.pending);
        let mut p = xor_block(&d, &self.chain);
        let ghost key = self.key@;
        let ghost iv = self.iv@;
        let ghost t = self.consumed@;
        let ghost before = dec_emitted(key, iv, t);
        let ghost full = cbc_decrypt_blocks(key, iv, t);
        proof {
            assert(t.subrange(t.len() - 16, t.len() as int) =~= self.pending@);
            assert(t.subrange(0, held_len(t.len()) as int) =~= t.subrange(0, t.len() - 16));
            assert(full == before + p@);
            assert(full.subrange(full.len() - 16, full.len() as int) =~= p@);
        }
        if check_padding(&p) {
            let n: u8 = p[15];
            p.truncate(16 - n as usize);
            proof {
                assert(full.subrange(0, full.len() - n) =~= before + p@);
            }
            Ok(p)
        } else {
            Err(MagicCryptError::BadPadding)
        }
    }
}

} // verus!
