use magic_crypt::{CbcDecryptor, CbcEncryptor, MagicCrypt192, MagicCryptError, BLOCK_SIZE};

fn sample(n: usize) -> Vec<u8> {
    (0..n).map(|i| (i * 37 + 11) as u8).collect()
}

fn crypt() -> MagicCrypt192 {
    MagicCrypt192::new("magickey", Some("tw"))
}

fn hex(bytes: &[u8]) -> String {
    bytes.iter().map(|b| format!("{:02x}", b)).collect()
}

#[test]
fn round_trip_all_short_lengths() {
    let mc = crypt();
    for n in 0..70 {
        let m = sample(n);
        let c = mc.encrypt_to_bytes(&m);
        assert_eq!(mc.decrypt_bytes_to_bytes(&c), Ok(m));
    }
}

#[test]
fn round_trip_without_iv() {
    let mc = MagicCrypt192::new("another key", None);
    let m = b"http://magiclen.org".to_vec();
    let c = mc.encrypt_to_bytes(&m);
    assert_eq!(mc.decrypt_bytes_to_bytes(&c), Ok(m));
}

#[test]
fn ciphertext_length_adds_one_to_sixteen() {
    let mc = crypt();
    for n in 0..70 {
        let c = mc.encrypt_to_bytes(&sample(n));
        let p = c.len() - n;
        assert!(1 <= p && p <= BLOCK_SIZE);
        assert_eq!(c.len() % BLOCK_SIZE, 0);
        assert_eq!(p, 16 - n % 16);
    }
}

#[test]
fn one_byte_chunks_match_one_chunk() {
    let mc = crypt();
    let m = sample(100);
    let whole = mc.encrypt_to_bytes(&m);

    let mut enc = mc.encryptor();
    let mut c = Vec::new();
    for b in &m {
        c.extend(enc.update(&[*b]));
    }
    c.extend(enc.finish());
    assert_eq!(c, whole);

    let mut dec = mc.decryptor();
    let mut p = Vec::new();
    for b in &whole {
        p.extend(dec.update(&[*b]));
    }
    p.extend(dec.finish().unwrap());
    assert_eq!(p, m);
}

#[test]
fn uneven_chunks_match_one_chunk() {
    let mc = crypt();
    let m = sample(333);
    let whole = mc.encrypt_to_bytes(&m);
    let sizes = [0usize, 1, 15, 16, 17, 31, 33, 64, 0, 100];

    let mut enc = mc.encryptor();
    let mut c = Vec::new();
    let mut at = 0;
    for s in sizes.iter().cycle() {
        if at >= m.len() {
            break;
        }
        let end = (at + s).min(m.len());
        c.extend(enc.update(&m[at..end]));
        at = end;
    }
    c.extend(enc.finish());
    assert_eq!(c, whole);

    let mut dec = mc.decryptor();
    let mut p = Vec::new();
    let mut at = 0;
    for s in sizes.iter().cycle() {
        if at >= whole.len() {
            break;
        }
        let end = (at + s).min(whole.len());
        p.extend(dec.update(&whole[at..end]));
        at = end;
    }
    p.extend(dec.finish().unwrap());
    assert_eq!(p, m);
}

#[test]
fn decryptor_holds_back_the_last_block() {
    let mc = crypt();
    let whole = mc.encrypt_to_bytes(&sample(40));
    assert_eq!(whole.len(), 48);
    let mut dec = mc.decryptor();
    assert_eq!(dec.update(&whole[..16]).len(), 0);
    assert_eq!(dec.update(&whole[16..32]).len(), 16);
    assert_eq!(dec.update(&whole[32..]).len(), 16);
    assert_eq!(dec.finish(), Ok(sample(40)[32..].to_vec()));
}

#[test]
fn empty_input_is_one_block_of_padding() {
    let mc = crypt();
    let c = mc.encrypt_to_bytes(b"");
    assert_eq!(c.len(), 16);
    let full_pad = mc.encrypt_to_bytes(&[16u8; 16]);
    assert_eq!(&full_pad[..16], &c[..]);
    assert_eq!(mc.decrypt_bytes_to_bytes(&c), Ok(Vec::new()));
}

#[test]
fn whole_block_input_gains_a_padding_block() {
    let mc = crypt();
    let m = sample(16);
    let c = mc.encrypt_to_bytes(&m);
    assert_eq!(c.len(), 32);
    let c32 = mc.encrypt_to_bytes(&sample(32));
    assert_eq!(c32.len(), 48);
    assert_eq!(&c32[..16], &c[..16]);
}

#[test]
fn corrupted_last_byte_is_noticed() {
    let mc = crypt();
    for n in [0usize, 1, 15, 16, 17, 40] {
        let m = sample(n);
        let c = mc.encrypt_to_bytes(&m);
        for flip in [1u8, 0x80, 0xff] {
            let mut bad = c.clone();
            let last = bad.len() - 1;
            bad[last] ^= flip;
            match mc.decrypt_bytes_to_bytes(&bad) {
                Ok(p) => assert_ne!(p, m),
                Err(e) => assert_eq!(e, MagicCryptError::BadPadding),
            }
        }
    }
}

#[test]
fn truncated_ciphertext_is_rejected() {
    let mc = crypt();
    let c = mc.encrypt_to_bytes(&sample(20));
    for cut in [1usize, 5, 15, 17] {
        assert_eq!(
            mc.decrypt_bytes_to_bytes(&c[..c.len() - cut]),
            Err(MagicCryptError::TruncatedCiphertext)
        );
    }
    assert_eq!(
        mc.decrypt_bytes_to_bytes(&c[..16]).is_err(),
        true
    );
}

#[test]
fn empty_ciphertext_is_bad_padding() {
    let mc = crypt();
    assert_eq!(mc.decrypt_bytes_to_bytes(b""), Err(MagicCryptError::BadPadding));
    assert_eq!(mc.decryptor().finish(), Err(MagicCryptError::BadPadding));
}

#[test]
fn invalid_padding_is_rejected() {
    let key = [7u8; 24];
    let iv = [9u8; 16];
    for last in [0u8, 17, 200] {
        let mut block = [3u8; 16];
        block[15] = last;
        let mut enc = CbcEncryptor::new(&key, &iv);
        let c = enc.update(&block);
        assert_eq!(c.len(), 16);
        let mut dec = CbcDecryptor::new(&key, &iv);
        assert_eq!(dec.update(&c).len(), 0);
        assert_eq!(dec.finish(), Err(MagicCryptError::BadPadding));
    }
    let mut block = [3u8; 16];
    block[15] = 4;
    let mut enc = CbcEncryptor::new(&key, &iv);
    let c = enc.update(&block);
    let mut dec = CbcDecryptor::new(&key, &iv);
    dec.update(&c);
    assert_eq!(dec.finish(), Err(MagicCryptError::BadPadding));
    block[12] = 4;
    block[13] = 4;
    block[14] = 4;
    let mut enc = CbcEncryptor::new(&key, &iv);
    let c = enc.update(&block);
    let mut dec = CbcDecryptor::new(&key, &iv);
    dec.update(&c);
    assert_eq!(dec.finish(), Ok(vec![3u8; 12]));
}

#[test]
fn aes192_known_answer() {
    let key: Vec<u8> = (0u8..24).collect();
    let pt: Vec<u8> = (0u8..16).map(|i| i * 0x11).collect();
    let mut enc = CbcEncryptor::new(&key, &[0u8; 16]);
    let c = enc.update(&pt);
    assert_eq!(hex(&c), "dda97ca4864cdfe06eaf70a0ec0d7191");
    let mut dec = CbcDecryptor::new(&key, &[0u8; 16]);
    assert_eq!(dec.update(&c).len(), 0);
    assert_eq!(dec.update(&[0u8]).len(), 16);
}

#[test]
fn keys_are_derived_by_hashing() {
    let tiger_empty: Vec<u8> = (0..24)
        .map(|i| u8::from_str_radix(&"3293ac630c13f0245f92bbb1766e16167a4e58492dde73f3"[2 * i..2 * i + 2], 16).unwrap())
        .collect();
    let md5_empty: Vec<u8> = (0..16)
        .map(|i| u8::from_str_radix(&"d41d8cd98f00b204e9800998ecf8427e"[2 * i..2 * i + 2], 16).unwrap())
        .collect();
    let m = sample(50);
    let mc = MagicCrypt192::new("", Some(""));
    let mut enc = CbcEncryptor::new(&tiger_empty, &md5_empty);
    let mut c = enc.update(&m);
    c.extend(enc.finish());
    assert_eq!(mc.encrypt_to_bytes(&m), c);

    let no_iv = MagicCrypt192::new("", None);
    let mut enc = CbcEncryptor::new(&tiger_empty, &[0u8; 16]);
    let mut c = enc.update(&m);
    c.extend(enc.finish());
    assert_eq!(no_iv.encrypt_to_bytes(&m), c);
}

#[test]
fn different_keys_give_different_ciphertext() {
    let m = sample(32);
    let a = MagicCrypt192::new("key one", Some("iv")).encrypt_to_bytes(&m);
    let b = MagicCrypt192::new("key two", Some("iv")).encrypt_to_bytes(&m);
    let c = MagicCrypt192::new("key one", Some("iv2")).encrypt_to_bytes(&m);
    assert_ne!(a, b);
    assert_ne!(a, c);
    assert_ne!(&a[..m.len()], &m[..]);
}

#[test]
fn empty_update_changes_nothing() {
    // Stream drivers read until a read returns zero bytes; feeding such an
    // empty read must neither emit output nor disturb the buffered block.
    let mc = crypt();
    let m = sample(21);
    let mut enc = mc.encryptor();
    assert_eq!(enc.update(&[]).len(), 0);
    let mut c = enc.update(&m);
    assert_eq!(enc.update(&[]).len(), 0);
    c.extend(enc.finish());
    assert_eq!(c, mc.encrypt_to_bytes(&m));

    let mut dec = mc.decryptor();
    assert_eq!(dec.update(&[]).len(), 0);
    let mut p = dec.update(&c[..16]);
    assert_eq!(dec.update(&[]).len(), 0);
    p.extend(dec.update(&c[16..]));
    assert_eq!(dec.update(&[]).len(), 0);
    p.extend(dec.finish().unwrap());
    assert_eq!(p, m);
}
