use harpocrates::bulk::partition_chunks;
use harpocrates::{decrypt, decrypt_data, encrypt, encrypt_data, generate_ilut, generate_lut};
use rand::{thread_rng, RngCore};

/// A fixed substitution table for deterministic tests: multiplication by an
/// odd constant plus an offset is a permutation of the byte space.
fn fixed_lut() -> Vec<u8> {
    let mut lut = vec![0u8; 256];
    for i in 0..256 {
        lut[i] = ((i * 167 + 89) % 256) as u8;
    }
    lut
}

fn inverse_of(lut: &Vec<u8>) -> Vec<u8> {
    let mut ilut = vec![0u8; 256];
    generate_ilut(lut, &mut ilut);
    ilut
}

#[test]
fn harpocrates_cipher() {
    let mut lut = vec![0u8; 256];
    let mut ilut = vec![0u8; 256];
    let mut txt = vec![0u8; 16];
    let mut enc = vec![0u8; 16];
    let mut dec = vec![0u8; 16];

    generate_lut(&mut lut);
    generate_ilut(&lut, &mut ilut);

    let mut rng = thread_rng();

    rng.fill_bytes(&mut txt);
    enc.fill(0u8);
    dec.fill(0u8);

    encrypt(&lut, &txt, &mut enc);
    decrypt(&ilut, &enc, &mut dec);

    for i in 0..16 {
        assert_eq!(txt[i], dec[i]);
    }
}

#[test]
fn harpocrates_cipher_with_large_data_block() {
    let ct_len: usize = 1 << 20;
    assert!(ct_len & 15 == 0);

    let mut lut = vec![0u8; 256];
    let mut ilut = vec![0u8; 256];
    let mut txt = vec![0u8; ct_len];
    let mut enc = vec![0u8; ct_len];
    let mut dec = vec![0u8; ct_len];

    generate_lut(&mut lut);
    generate_ilut(&lut, &mut ilut);

    let mut rng = thread_rng();

    rng.fill_bytes(&mut txt);
    enc.fill(0u8);
    dec.fill(0u8);

    encrypt_data(&lut, &txt, &mut enc);
    decrypt_data(&ilut, &enc, &mut dec);

    for i in 0..ct_len {
        assert_eq!(txt[i], dec[i]);
    }
}

#[test]
fn generated_lut_is_a_byte_permutation() {
    let mut lut = vec![0u8; 256];
    generate_lut(&mut lut);
    assert_eq!(lut.len(), 256);
    let mut seen = vec![false; 256];
    for &v in lut.iter() {
        assert!(!seen[v as usize], "value {} occurs twice", v);
        seen[v as usize] = true;
    }
    assert!(seen.iter().all(|&s| s), "some byte value is missing");
}

#[test]
fn ilut_inverts_lut_at_every_byte() {
    let mut lut = vec![0u8; 256];
    generate_lut(&mut lut);
    let ilut = inverse_of(&lut);
    for x in 0..256 {
        assert_eq!(ilut[lut[x] as usize] as usize, x);
    }
}

#[test]
fn ilut_of_rotation_lut_is_exact() {
    // lut maps i to i + 1 mod 256, so its inverse maps i to i - 1 mod 256.
    let mut lut = vec![0u8; 256];
    for i in 0..256 {
        lut[i] = ((i + 1) % 256) as u8;
    }
    let ilut = inverse_of(&lut);
    for i in 0..256 {
        assert_eq!(ilut[i] as usize, (i + 255) % 256);
    }
}

#[test]
fn block_round_trip_on_fixed_table() {
    let lut = fixed_lut();
    let ilut = inverse_of(&lut);
    let txt: Vec<u8> = (0u8..16u8).collect();
    let mut enc = vec![0u8; 16];
    let mut dec = vec![0u8; 16];
    encrypt(&lut, &txt, &mut enc);
    assert_ne!(enc, txt);
    decrypt(&ilut, &enc, &mut dec);
    assert_eq!(dec, txt);
}

#[test]
fn encryption_is_deterministic() {
    let lut = fixed_lut();
    let txt = vec![0xabu8; 16];
    let mut enc1 = vec![0u8; 16];
    let mut enc2 = vec![0u8; 16];
    encrypt(&lut, &txt, &mut enc1);
    encrypt(&lut, &txt, &mut enc2);
    assert_eq!(enc1, enc2);
}

#[test]
fn buffer_round_trip_on_fixed_table() {
    let lut = fixed_lut();
    let ilut = inverse_of(&lut);
    let txt: Vec<u8> = (0..64).map(|i| (i * 7 % 256) as u8).collect();
    let mut enc = vec![0u8; 64];
    let mut dec = vec![0u8; 64];
    encrypt_data(&lut, &txt, &mut enc);
    decrypt_data(&ilut, &enc, &mut dec);
    assert_eq!(dec, txt);
}

#[test]
fn empty_buffer_round_trip() {
    let lut = fixed_lut();
    let ilut = inverse_of(&lut);
    let txt: Vec<u8> = Vec::new();
    let mut enc: Vec<u8> = Vec::new();
    let mut dec: Vec<u8> = Vec::new();
    encrypt_data(&lut, &txt, &mut enc);
    decrypt_data(&ilut, &enc, &mut dec);
    assert_eq!(enc.len(), 0);
    assert_eq!(dec.len(), 0);
}

#[test]
fn chunked_encryption_matches_sequential() {
    let lut = fixed_lut();
    let ilut = inverse_of(&lut);
    let n: usize = 4096;
    let mut txt = vec![0u8; n];
    thread_rng().fill_bytes(&mut txt);

    let mut whole = vec![0u8; n];
    encrypt_data(&lut, &txt, &mut whole);

    for workers in [1usize, 2, 3, 5, 16] {
        let lens = partition_chunks(n, workers);
        assert_eq!(lens.len(), workers);
        assert_eq!(lens.iter().sum::<usize>(), n);
        assert!(lens.iter().all(|l| l % 16 == 0));

        let mut pieced: Vec<u8> = Vec::new();
        let mut off = 0;
        for &len in lens.iter() {
            let chunk: Vec<u8> = txt[off..off + len].to_vec();
            let mut echunk = vec![0u8; len];
            encrypt_data(&lut, &chunk, &mut echunk);
            pieced.extend_from_slice(&echunk);
            off += len;
        }
        assert_eq!(pieced, whole);

        // decrypt analog: piece-wise decryption of the ciphertext
        let mut dec_pieced: Vec<u8> = Vec::new();
        let mut off = 0;
        for &len in lens.iter() {
            let chunk: Vec<u8> = whole[off..off + len].to_vec();
            let mut dchunk = vec![0u8; len];
            decrypt_data(&ilut, &chunk, &mut dchunk);
            dec_pieced.extend_from_slice(&dchunk);
            off += len;
        }
        assert_eq!(dec_pieced, txt);
    }
}

#[test]
fn single_bit_flip_avalanches() {
    let lut = fixed_lut();
    let txt = vec![0x5cu8; 16];
    let mut base = vec![0u8; 16];
    encrypt(&lut, &txt, &mut base);

    let mut flipped = txt.clone();
    flipped[3] ^= 0x10;
    let mut enc = vec![0u8; 16];
    encrypt(&lut, &flipped, &mut enc);

    let differing: u32 = base.iter().zip(enc.iter()).map(|(a, b)| (a ^ b).count_ones()).sum();
    assert!(
        differing >= 25,
        "only {} of 128 output bits changed after a single-bit flip",
        differing
    );
}

#[test]
fn identity_lut_still_changes_zero_block() {
    // A degenerate identity table makes the substitution a no-op; the cipher
    // must still not map a block to itself.
    let mut lut = vec![0u8; 256];
    for i in 0..256 {
        lut[i] = i as u8;
    }
    let txt = vec![0u8; 16];
    let mut enc = vec![0u8; 16];
    encrypt(&lut, &txt, &mut enc);
    assert_ne!(enc, txt);
}
