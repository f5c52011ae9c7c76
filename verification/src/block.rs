//! Single-block encryption and decryption.
//!
//! A block is exactly 16 bytes. Each encryption round substitutes every byte
//! through the lookup table, whitens with a round constant, diffuses by a
//! running XOR across the byte positions, and rotates the positions by one.
//! Decryption applies the inverse steps in reverse order, so a block
//! encrypted under a table and decrypted under its structural inverse comes
//! back byte-for-byte.

use crate::tables::inverts;
use vstd::prelude::*;

verus! {

/// Number of substitution/diffusion rounds.
pub const ROUNDS: usize = 8;

/// Round constant whitening the byte at position `i` in round `r`.
pub open spec fn rc(r: int, i: int) -> u8 {
    ((r * 37 + i * 11 + 90) % 256) as u8
}

fn round_const(r: usize, i: usize) -> (b: u8)
    requires
        r < ROUNDS,
        i < 16,
    ensures
        b == rc(r as int, i as int),
{
    ((r * 37 + i * 11 + 90) % 256) as u8
}

/// Every byte substituted through the table `t`.
pub open spec fn sub_bytes(t: Seq<u8>, s: Seq<u8>) -> Seq<u8> {
    Seq::new(s.len(), |i: int| t[s[i] as int])
}

/// Every byte XORed with its round constant.
pub open spec fn add_round_const(r: int, s: Seq<u8>) -> Seq<u8> {
    Seq::new(s.len(), |i: int| s[i] ^ rc(r, i))
}

/// XOR of the bytes of `s` at positions `0..=i`.
pub open spec fn prefix_xor(s: Seq<u8>, i: int) -> u8
    decreases i,
{
    if i <= 0 {
        s[0]
    } else {
        s[i] ^ prefix_xor(s, i - 1)
    }
}

/// Diffusion: each byte becomes the running XOR of all bytes up to it.
pub open spec fn mix(s: Seq<u8>) -> Seq<u8> {
    Seq::new(s.len(), |i: int| prefix_xor(s, i))
}

/// Inverse of `mix`: each byte XORed with its predecessor.
pub open spec fn unmix(s: Seq<u8>) -> Seq<u8> {
    Seq::new(s.len(), |i: int| if i == 0 { s[0] } else { s[i] ^ s[i - 1] })
}

/// Byte positions rotated by one: each position takes the byte after it, and
/// the last position takes the first byte.
pub open spec fn rotate(s: Seq<u8>) -> Seq<u8> {
    Seq::new(s.len(), |i: int| s[if i + 1 == s.len() { 0int } else { i + 1 }])
}

/// Inverse of `rotate`: byte positions rotated up by one.
pub open spec fn unrotate(s: Seq<u8>) -> Seq<u8> {
    Seq::new(s.len(), |i: int| s[if i == 0 { s.len() - 1 } else { i - 1 }])
}

/// One encryption round.
pub open spec fn enc_round(lut: Seq<u8>, r: int, s: Seq<u8>) -> Seq<u8> {
    rotate(mix(add_round_const(r, sub_bytes(lut, s))))
}

/// One decryption round: the inverse steps of `enc_round`, innermost last.
pub open spec fn dec_round(ilut: Seq<u8>, r: int, s: Seq<u8>) -> Seq<u8> {
    sub_bytes(ilut, add_round_const(r, unmix(unrotate(s))))
}

/// Encryption rounds `0..n` applied in order.
pub open spec fn enc_rounds(lut: Seq<u8>, s: Seq<u8>, n: nat) -> Seq<u8>
    decreases n,
{
    if n == 0 {
        s
    } else {
        enc_round(lut, n - 1, enc_rounds(lut, s, (n - 1) as nat))
    }
}

/// Decryption rounds `n-1..=0` applied in order (round `n-1` first).
pub open spec fn dec_rounds(ilut: Seq<u8>, s: Seq<u8>, n: nat) -> Seq<u8>
    decreases n,
{
    if n == 0 {
        s
    } else {
        dec_rounds(ilut, dec_round(ilut, n - 1, s), (n - 1) as nat)
    }
}

/// The ciphertext block produced from plaintext block `p` under table `lut`.
pub open spec fn encrypt_block_spec(lut: Seq<u8>, p: Seq<u8>) -> Seq<u8> {
    enc_rounds(lut, p, ROUNDS as nat)
}

/// The plaintext block recovered from ciphertext block `c` under the inverse
/// table `ilut`.
pub open spec fn decrypt_block_spec(ilut: Seq<u8>, c: Seq<u8>) -> Seq<u8> {
    dec_rounds(ilut, c, ROUNDS as nat)
}

proof fn lemma_unmix_mix(s: Seq<u8>)
    requires
        s.len() == 16,
    ensures
        unmix(mix(s)) == s,
{
    let m = mix(s);
    assert forall|i: int| 0 <= i < 16 implies unmix(m)[i] == s[i] by {
        if i > 0 {
            let p = prefix_xor(s, i - 1);
            let a = s[i];
            assert(prefix_xor(s, i) == a ^ p);
            assert((a ^ p) ^ p == a) by (bit_vector);
        }
    }
    assert(unmix(mix(s)) =~= s);
}

proof fn lemma_unrotate_rotate(s: Seq<u8>)
    requires
        s.len() == 16,
    ensures
        unrotate(rotate(s)) == s,
{
    assert(unrotate(rotate(s)) =~= s);
}

proof fn lemma_add_round_const_involutive(r: int, s: Seq<u8>)
    requires
        s.len() == 16,
    ensures
        add_round_const(r, add_round_const(r, s)) == s,
{
    assert forall|i: int| 0 <= i < 16 implies add_round_const(r, add_round_const(r, s))[i]
        == s[i] by {
        let a = s[i];
        let k = rc(r, i);
        assert((a ^ k) ^ k == a) by (bit_vector);
    }
    assert(add_round_const(r, add_round_const(r, s)) =~= s);
}

proof fn lemma_sub_bytes_inverse(lut: Seq<u8>, ilut: Seq<u8>, s: Seq<u8>)
    requires
        inverts(ilut, lut),
        s.len() == 16,
    ensures
        sub_bytes(ilut, sub_bytes(lut, s)) == s,
{
    assert forall|i: int| 0 <= i < 16 implies sub_bytes(ilut, sub_bytes(lut, s))[i] == s[i] by {
        let x = s[i] as int;
        assert(ilut[lut[x] as int] == x as u8);
    }
    assert(sub_bytes(ilut, sub_bytes(lut, s)) =~= s);
}

proof fn lemma_dec_round_undoes_enc_round(lut: Seq<u8>, ilut: Seq<u8>, r: int, s: Seq<u8>)
    requires
        inverts(ilut, lut),
        s.len() == 16,
    ensures
        dec_round(ilut, r, enc_round(lut, r, s)) == s,
{
    let t1 = sub_bytes(lut, s);
    let t2 = add_round_const(r, t1);
    let t3 = mix(t2);
    assert(enc_round(lut, r, s) == rotate(t3));
    lemma_unrotate_rotate(t3);
    assert(unrotate(rotate(t3)) == t3);
    lemma_unmix_mix(t2);
    assert(unmix(t3) == t2);
    lemma_add_round_const_involutive(r, t1);
    assert(add_round_const(r, t2) == t1);
    lemma_sub_bytes_inverse(lut, ilut, s);
    assert(sub_bytes(ilut, t1) == s);
    assert(dec_round(ilut, r, enc_round(lut, r, s))
        == sub_bytes(ilut, add_round_const(r, unmix(unrotate(rotate(t3))))));
}

proof fn lemma_enc_rounds_len(lut: Seq<u8>, s: Seq<u8>, n: nat)
    requires
        s.len() == 16,
    ensures
        enc_rounds(lut, s, n).len() == 16,
    decreases n,
{
    if n > 0 {
        lemma_enc_rounds_len(lut, s, (n - 1) as nat);
    }
}

proof fn lemma_dec_rounds_undo_enc_rounds(lut: Seq<u8>, ilut: Seq<u8>, p: Seq<u8>, n: nat)
    requires
        inverts(ilut, lut),
        p.len() == 16,
    ensures
        dec_rounds(ilut, enc_rounds(lut, p, n), n) == p,
    decreases n,
{
    if n > 0 {
        let e = enc_rounds(lut, p, (n - 1) as nat);
        lemma_enc_rounds_len(lut, p, (n - 1) as nat);
        lemma_dec_round_undoes_enc_round(lut, ilut, n - 1, e);
        lemma_dec_rounds_undo_enc_rounds(lut, ilut, p, (n - 1) as nat);
    }
}

/// Round-trip law for a single block: whenever `ilut` is the structural
/// inverse of `lut`, decrypting an encrypted 16-byte block restores it.
pub proof fn lemma_block_round_trip(lut: Seq<u8>, ilut: Seq<u8>, p: Seq<u8>)
    requires
        inverts(ilut, lut),
        p.len() == 16,
    ensures
        decrypt_block_spec(ilut, encrypt_block_spec(lut, p)) == p,
{
    lemma_dec_rounds_undo_enc_rounds(lut, ilut, p, ROUNDS as nat);
}

fn step_sub(t: &Vec<u8>, s: &mut Vec<u8>)
    requires
        t@.len() == 256,
        old(s)@.len() == 16,
    ensures
        final(s)@ == sub_bytes(t@, old(s)@),
{
    let mut i: usize = 0;
    while i < 16
        invariant
            t@.len() == 256,
            s@.len() == 16,
            i <= 16,
            forall|j: int| 0 <= j < i ==> s@[j] == t@[old(s)@[j] as int],
            forall|j: int| i <= j < 16 ==> s@[j] == old(s)@[j],
        decreases 16 - i,
    {
        let b = s[i];
        s[i] = t[b as usize];
        i = i + 1;
    }
    assert(s@ =~= sub_bytes(t@, old(s)@));
}

fn step_rc(r: usize, s: &mut Vec<u8>)
    requires
        r < ROUNDS,
        old(s)@.len() == 16,
    ensures
        final(s)@ == add_round_const(r as int, old(s)@),
{
    let mut i: usize = 0;
    while i < 16
        invariant
            r < ROUNDS,
            s@.len() == 16,
            i <= 16,
            forall|j: int| 0 <= j < i ==> s@[j] == (old(s)@[j] ^ rc(r as int, j)),
            forall|j: int| i <= j < 16 ==> s@[j] == old(s)@[j],
        decreases 16 - i,
    {
        let k = round_const(r, i);
        s[i] = s[i] ^ k;
        i = i + 1;
    }
    assert(s@ =~= add_round_const(r as int, old(s)@));
}

fn step_mix(s: &mut Vec<u8>)
    requires
        old(s)@.len() == 16,
    ensures
        final(s)@ == mix(old(s)@),
{
    let mut i: usize = 1;
    while i < 16
        invariant
            s@.len() == 16,
            1 <= i <= 16,
            s@[0] == old(s)@[0],
            forall|j: int| 0 <= j < i ==> s@[j] == prefix_xor(old(s)@, j),
            forall|j: int| i <= j < 16 ==> s@[j] == old(s)@[j],
        decreases 16 - i,
    {
        s[i] = s[i] ^ s[i - 1];
        i = i + 1;
    }
    assert(s@ =~= mix(old(s)@));
}

fn step_unmix(s: &mut Vec<u8>)
    requires
        old(s)@.len() == 16,
    ensures
        final(s)@ == unmix(old(s)@),
{
    let mut i: usize = 15;
    while 1 <= i
        invariant
            s@.len() == 16,
            i <= 15,
            forall|j: int| i < j < 16 ==> s@[j] == (old(s)@[j] ^ old(s)@[j - 1]),
            forall|j: int| 0 <= j <= i ==> s@[j] == old(s)@[j],
        decreases i,
    {
        s[i] = s[i] ^ s[i - 1];
        i = i - 1;
    }
    assert(s@ =~= unmix(old(s)@));
}

fn step_rotate(s: &mut Vec<u8>)
    requires
        old(s)@.len() == 16,
    ensures
        final(s)@ == rotate(old(s)@),
{
    let first = s[0];
    let mut i: usize = 0;
    while i < 15
        invariant
            s@.len() == 16,
            i <= 15,
            first == old(s)@[0],
            forall|j: int| 0 <= j < i ==> s@[j] == old(s)@[j + 1],
            forall|j: int| i <= j < 16 ==> s@[j] == old(s)@[j],
        decreases 15 - i,
    {
        s[i] = s[i + 1];
        i = i + 1;
    }
    s[15] = first;
    assert(s@ =~= rotate(old(s)@));
}

fn step_unrotate(s: &mut Vec<u8>)
    requires
        old(s)@.len() == 16,
    ensures
        final(s)@ == unrotate(old(s)@),
{
    let last = s[15];
    let mut i: usize = 15;
    while 1 <= i
        invariant
            s@.len() == 16,
            i <= 15,
            last == old(s)@[15],
            forall|j: int| i < j < 16 ==> s@[j] == old(s)@[j - 1],
            forall|j: int| 0 <= j <= i ==> s@[j] == old(s)@[j],
        decreases i,
    {
        s[i] = s[i - 1];
        i = i - 1;
    }
    s[0] = last;
    assert(s@ =~= unrotate(old(s)@));
}

/// Encrypts the 16-byte block `txt` under the 256-byte table `lut`, writing
/// the ciphertext block over `enc`. Deterministic: the output is exactly the
/// block named by `encrypt_block_spec`.
pub fn encrypt(lut: &Vec<u8>, txt: &Vec<u8>, enc: &mut Vec<u8>)
    requires
        lut@.len() == 256,
        txt@.len() == 16,
        old(enc)@.len() == 16,
    ensures
        final(enc)@ == encrypt_block_spec(lut@, txt@),
        final(enc)@.len() == 16,
{
    let mut i: usize = 0;
    while i < 16
        invariant
            txt@.len() == 16,
            enc@.len() == 16,
            i <= 16,
            forall|j: int| 0 <= j < i ==> enc@[j] == txt@[j],
        decreases 16 - i,
    {
        enc[i] = txt[i];
        i = i + 1;
    }
    assert(enc@ =~= txt@);

    let mut r: usize = 0;
    while r < ROUNDS
        invariant
            lut@.len() == 256,
            enc@.len() == 16,
            r <= ROUNDS,
            enc@ == enc_rounds(lut@, txt@, r as nat),
        decreases ROUNDS - r,
    {
        let ghost before = enc@;
        step_sub(lut, enc);
        step_rc(r, enc);
        step_mix(enc);
        step_rotate(enc);
        proof {
            assert(enc@ == enc_round(lut@, r as int, before));
            assert(enc_rounds(lut@, txt@, (r + 1) as nat)
                == enc_round(lut@, r as int, enc_rounds(lut@, txt@, r as nat)));
        }
        r = r + 1;
    }
}

/// Decrypts the 16-byte block `enc` under the 256-byte inverse table `ilut`,
/// writing the plaintext block over `dec`. The output is exactly the block
/// named by `decrypt_block_spec`, so with a matching table pair it restores
/// what `encrypt` was given.
pub fn decrypt(ilut: &Vec<u8>, enc: &Vec<u8>, dec: &mut Vec<u8>)
    requires
        ilut@.len() == 256,
        enc@.len() == 16,
        old(dec)@.len() == 16,
    ensures
        final(dec)@ == decrypt_block_spec(ilut@, enc@),
        final(dec)@.len() == 16,
{
    let mut i: usize = 0;
    while i < 16
        invariant
            enc@.len() == 16,
            dec@.len() == 16,
            i <= 16,
            forall|j: int| 0 <= j < i ==> dec@[j] == enc@[j],
        decreases 16 - i,
    {
        dec[i] = enc[i];
        i = i + 1;
    }
    assert(dec@ =~= enc@);

    let mut r: usize = ROUNDS;
    while 0 < r
        invariant
            ilut@.len() == 256,
            dec@.len() == 16,
            r <= ROUNDS,
            dec_rounds(ilut@, dec@, r as nat) == decrypt_block_spec(ilut@, enc@),
        decreases r,
    {
        r = r - 1;
        let ghost before = dec@;
        step_unrotate(dec);
        step_unmix(dec);
        step_rc(r, dec);
        step_sub(ilut, dec);
        proof {
            assert(dec@ == dec_round(ilut@, r as int, before));
            assert(dec_rounds(ilut@, before, (r + 1) as nat)
                == dec_rounds(ilut@, dec_round(ilut@, r as int, before), r as nat));
        }
    }
}

} // verus!
