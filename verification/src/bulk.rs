//! Bulk block-wise processing of multi-block buffers.
//!
//! A buffer whose length is a multiple of 16 is treated as an ordered
//! sequence of independent 16-byte blocks; the block primitive is applied to
//! each in turn, with no state carried between blocks. Because the blocks are
//! independent, results computed for disjoint contiguous chunks concatenate
//! to the whole-buffer result, and that result is unique — so a partitioned
//! (parallel) run is byte-for-byte equal to the sequential one.

use crate::block::{decrypt, decrypt_block_spec, encrypt, encrypt_block_spec};
use crate::tables::inverts;
use vstd::arithmetic::div_mod::{
    lemma_div_nonincreasing, lemma_fundamental_div_mod, lemma_fundamental_div_mod_converse,
    lemma_mod_multiples_basic, lemma_mod_pos_bound,
};
use vstd::arithmetic::mul::lemma_mul_inequality;
use vstd::prelude::*;

verus! {

/// Number of whole 16-byte blocks in `s`.
pub open spec fn nblocks(s: Seq<u8>) -> int {
    s.len() as int / 16
}

/// The `b`-th 16-byte block of `s`.
pub open spec fn block_of(s: Seq<u8>, b: int) -> Seq<u8> {
    s.subrange(16 * b, 16 * b + 16)
}

/// Every block of `out` is the block encryption of the matching block of
/// `inp` under `lut`.
pub open spec fn buffer_encrypted(lut: Seq<u8>, inp: Seq<u8>, out: Seq<u8>) -> bool {
    &&& out.len() == inp.len()
    &&& forall|b: int|
        0 <= b < nblocks(inp) ==> #[trigger] block_of(out, b) == encrypt_block_spec(
            lut,
            block_of(inp, b),
        )
}

/// Every block of `out` is the block decryption of the matching block of
/// `inp` under `ilut`.
pub open spec fn buffer_decrypted(ilut: Seq<u8>, inp: Seq<u8>, out: Seq<u8>) -> bool {
    &&& out.len() == inp.len()
    &&& forall|b: int|
        0 <= b < nblocks(inp) ==> #[trigger] block_of(out, b) == decrypt_block_spec(
            ilut,
            block_of(inp, b),
        )
}

proof fn lemma_len_blocks(s: Seq<u8>)
    requires
        s.len() % 16 == 0,
    ensures
        s.len() == 16 * nblocks(s),
        0 <= nblocks(s),
{
    lemma_fundamental_div_mod(s.len() as int, 16);
}

/// Two buffers equal block by block are equal.
proof fn lemma_eq_by_blocks(a: Seq<u8>, b: Seq<u8>)
    requires
        a.len() == b.len(),
        a.len() % 16 == 0,
        forall|k: int| 0 <= k < nblocks(a) ==> #[trigger] block_of(a, k) == block_of(b, k),
    ensures
        a == b,
{
    lemma_len_blocks(a);
    assert forall|i: int| 0 <= i < a.len() implies a[i] == b[i] by {
        let q = i / 16;
        lemma_fundamental_div_mod(i, 16);
        lemma_mod_pos_bound(i, 16);
        assert(0 <= q < nblocks(a));
        assert(block_of(a, q) == block_of(b, q));
        assert(block_of(a, q)[i - 16 * q] == a[i]);
        assert(block_of(b, q)[i - 16 * q] == b[i]);
    }
    assert(a =~= b);
}

fn read_block(src: &Vec<u8>, frm: usize) -> (blk: Vec<u8>)
    requires
        frm + 16 <= src@.len(),
    ensures
        blk@ == src@.subrange(frm as int, frm as int + 16),
{
    let n = src.len();
    let mut blk: Vec<u8> = Vec::new();
    let mut k: usize = 0;
    while k < 16
        invariant
            frm + 16 <= n,
            n == src@.len(),
            k <= 16,
            blk@.len() == k,
            forall|j: int| 0 <= j < k ==> blk@[j] == src@[frm + j],
        decreases 16 - k,
    {
        blk.push(src[frm + k]);
        k = k + 1;
    }
    assert(blk@ =~= src@.subrange(frm as int, frm as int + 16));
    blk
}

fn zero_block() -> (blk: Vec<u8>)
    ensures
        blk@.len() == 16,
{
    let mut blk: Vec<u8> = Vec::new();
    let mut k: usize = 0;
    while k < 16
        invariant
            blk@.len() == k,
            k <= 16,
        decreases 16 - k,
    {
        blk.push(0u8);
        k = k + 1;
    }
    blk
}

fn append_block(dst: &mut Vec<u8>, blk: &Vec<u8>)
    requires
        blk@.len() == 16,
        old(dst)@.len() + 16 <= usize::MAX,
    ensures
        final(dst)@ == old(dst)@ + blk@,
{
    let mut k: usize = 0;
    while k < 16
        invariant
            blk@.len() == 16,
            k <= 16,
            dst@ == old(dst)@ + blk@.take(k as int),
        decreases 16 - k,
    {
        let ghost before = dst@;
        dst.push(blk[k]);
        proof {
            assert(dst@ =~= old(dst)@ + blk@.take(k + 1));
        }
        k = k + 1;
    }
    assert(dst@ =~= old(dst)@ + blk@);
}

/// Encrypts an `N`-byte buffer (`N` a multiple of 16) by applying the block
/// encryption independently to each successive 16-byte slice, writing the
/// ciphertext over `enc`. The output is pinned block by block, so it equals
/// the sequential result whatever order the blocks are computed in.
pub fn encrypt_data(lut: &Vec<u8>, txt: &Vec<u8>, enc: &mut Vec<u8>)
    requires
        lut@.len() == 256,
        txt@.len() % 16 == 0,
        old(enc)@.len() == txt@.len(),
    ensures
        buffer_encrypted(lut@, txt@, final(enc)@),
{
    let n = txt.len();
    let chunks = n / 16;
    proof {
        lemma_fundamental_div_mod(n as int, 16);
    }
    let mut out: Vec<u8> = Vec::new();
    let mut c: usize = 0;
    while c < chunks
        invariant
            lut@.len() == 256,
            txt@.len() == n,
            n % 16 == 0,
            n == 16 * chunks,
            c <= chunks,
            out@.len() == 16 * c,
            forall|b: int|
                0 <= b < c ==> #[trigger] block_of(out@, b) == encrypt_block_spec(
                    lut@,
                    block_of(txt@, b),
                ),
        decreases chunks - c,
    {
        let frm = c * 16;
        let blk = read_block(txt, frm);
        let mut eblk = zero_block();
        encrypt(lut, &blk, &mut eblk);
        let ghost out_old = out@;
        append_block(&mut out, &eblk);
        proof {
            assert(blk@ == block_of(txt@, c as int));
            assert forall|b: int|
                0 <= b < c + 1 implies #[trigger] block_of(out@, b) == encrypt_block_spec(
                lut@,
                block_of(txt@, b),
            ) by {
                if b < c {
                    assert(block_of(out@, b) =~= block_of(out_old, b));
                } else {
                    assert(block_of(out@, c as int) =~= eblk@);
                }
            }
        }
        c = c + 1;
    }
    proof {
        assert(nblocks(txt@) == chunks);
    }
    *enc = out;
}

/// Decrypts an `N`-byte buffer (`N` a multiple of 16) by applying the block
/// decryption independently to each successive 16-byte slice, writing the
/// plaintext over `dec`.
pub fn decrypt_data(ilut: &Vec<u8>, enc: &Vec<u8>, dec: &mut Vec<u8>)
    requires
        ilut@.len() == 256,
        enc@.len() % 16 == 0,
        old(dec)@.len() == enc@.len(),
    ensures
        buffer_decrypted(ilut@, enc@, final(dec)@),
{
    let n = enc.len();
    let chunks = n / 16;
    proof {
        lemma_fundamental_div_mod(n as int, 16);
    }
    let mut out: Vec<u8> = Vec::new();
    let mut c: usize = 0;
    while c < chunks
        invariant
            ilut@.len() == 256,
            enc@.len() == n,
            n % 16 == 0,
            n == 16 * chunks,
            c <= chunks,
            out@.len() == 16 * c,
            forall|b: int|
                0 <= b < c ==> #[trigger] block_of(out@, b) == decrypt_block_spec(
                    ilut@,
                    block_of(enc@, b),
                ),
        decreases chunks - c,
    {
        let frm = c * 16;
        let blk = read_block(enc, frm);
        let mut dblk = zero_block();
        decrypt(ilut, &blk, &mut dblk);
        let ghost out_old = out@;
        append_block(&mut out, &dblk);
        proof {
            assert(blk@ == block_of(enc@, c as int));
            assert forall|b: int|
                0 <= b < c + 1 implies #[trigger] block_of(out@, b) == decrypt_block_spec(
                ilut@,
                block_of(enc@, b),
            ) by {
                if b < c {
                    assert(block_of(out@, b) =~= block_of(out_old, b));
                } else {
                    assert(block_of(out@, c as int) =~= dblk@);
                }
            }
        }
        c = c + 1;
    }
    proof {
        assert(nblocks(enc@) == chunks);
    }
    *dec = out;
}

/// Round-trip law for a whole buffer: block-wise decryption of a block-wise
/// encryption under a matching table pair restores every byte.
pub proof fn lemma_buffer_round_trip(lut: Seq<u8>, ilut: Seq<u8>, p: Seq<u8>, c: Seq<u8>, d: Seq<u8>)
    requires
        inverts(ilut, lut),
        p.len() % 16 == 0,
        buffer_encrypted(lut, p, c),
        buffer_decrypted(ilut, c, d),
    ensures
        d == p,
{
    lemma_len_blocks(p);
    assert forall|b: int| 0 <= b < nblocks(d) implies #[trigger] block_of(d, b) == block_of(p, b) by {
        assert(block_of(c, b) == encrypt_block_spec(lut, block_of(p, b)));
        assert(block_of(d, b) == decrypt_block_spec(ilut, block_of(c, b)));
        crate::block::lemma_block_round_trip(lut, ilut, block_of(p, b));
    }
    lemma_eq_by_blocks(d, p);
}

/// Sequential/parallel equivalence, concatenation half: correct encryptions
/// of two adjacent chunks concatenate to a correct encryption of the whole
/// buffer.
pub proof fn lemma_encrypt_chunks_concat(
    lut: Seq<u8>,
    p1: Seq<u8>,
    c1: Seq<u8>,
    p2: Seq<u8>,
    c2: Seq<u8>,
)
    requires
        p1.len() % 16 == 0,
        p2.len() % 16 == 0,
        buffer_encrypted(lut, p1, c1),
        buffer_encrypted(lut, p2, c2),
    ensures
        buffer_encrypted(lut, p1 + p2, c1 + c2),
{
    lemma_len_blocks(p1);
    lemma_len_blocks(p2);
    let m = nblocks(p1);
    let k = nblocks(p2);
    let p = p1 + p2;
    let c = c1 + c2;
    lemma_fundamental_div_mod_converse(p.len() as int, 16, m + k, 0);
    assert(nblocks(p) == m + k);
    assert forall|b: int|
        0 <= b < nblocks(p) implies #[trigger] block_of(c, b) == encrypt_block_spec(
        lut,
        block_of(p, b),
    ) by {
        if b < m {
            assert(block_of(p, b) =~= block_of(p1, b));
            assert(block_of(c, b) =~= block_of(c1, b));
        } else {
            assert(block_of(p, b) =~= block_of(p2, b - m));
            assert(block_of(c, b) =~= block_of(c2, b - m));
        }
    }
}

/// Sequential/parallel equivalence, concatenation half, decryption analog.
pub proof fn lemma_decrypt_chunks_concat(
    ilut: Seq<u8>,
    c1: Seq<u8>,
    d1: Seq<u8>,
    c2: Seq<u8>,
    d2: Seq<u8>,
)
    requires
        c1.len() % 16 == 0,
        c2.len() % 16 == 0,
        buffer_decrypted(ilut, c1, d1),
        buffer_decrypted(ilut, c2, d2),
    ensures
        buffer_decrypted(ilut, c1 + c2, d1 + d2),
{
    lemma_len_blocks(c1);
    lemma_len_blocks(c2);
    let m = nblocks(c1);
    let k = nblocks(c2);
    let c = c1 + c2;
    let d = d1 + d2;
    lemma_fundamental_div_mod_converse(c.len() as int, 16, m + k, 0);
    assert(nblocks(c) == m + k);
    assert forall|b: int|
        0 <= b < nblocks(c) implies #[trigger] block_of(d, b) == decrypt_block_spec(
        ilut,
        block_of(c, b),
    ) by {
        if b < m {
            assert(block_of(c, b) =~= block_of(c1, b));
            assert(block_of(d, b) =~= block_of(d1, b));
        } else {
            assert(block_of(c, b) =~= block_of(c2, b - m));
            assert(block_of(d, b) =~= block_of(d2, b - m));
        }
    }
}

/// Sequential/parallel equivalence, uniqueness half: the block-wise
/// encryption of a buffer is unique, so any partitioning of the blocks
/// yields the same bytes.
pub proof fn lemma_encrypt_buffer_unique(lut: Seq<u8>, p: Seq<u8>, c1: Seq<u8>, c2: Seq<u8>)
    requires
        p.len() % 16 == 0,
        buffer_encrypted(lut, p, c1),
        buffer_encrypted(lut, p, c2),
    ensures
        c1 == c2,
{
    assert forall|b: int| 0 <= b < nblocks(c1) implies #[trigger] block_of(c1, b) == block_of(
        c2,
        b,
    ) by {
        assert(block_of(c1, b) == encrypt_block_spec(lut, block_of(p, b)));
        assert(block_of(c2, b) == encrypt_block_spec(lut, block_of(p, b)));
    }
    lemma_eq_by_blocks(c1, c2);
}

/// Sum of a sequence of chunk lengths.
pub open spec fn sum_of(s: Seq<usize>) -> int
    decreases s.len(),
{
    if s.len() == 0 {
        0
    } else {
        sum_of(s.drop_last()) + s.last()
    }
}

/// Every chunk length is a multiple of 16.
pub open spec fn all_aligned(s: Seq<usize>) -> bool {
    forall|i: int| 0 <= i < s.len() ==> #[trigger] (s[i] % 16) == 0
}

/// Splits `n` bytes (`n` a multiple of 16) into `workers` contiguous chunk
/// lengths: every chunk is a multiple of 16 and the chunks sum to `n`.
/// Slicing a buffer at these lengths assigns each of its blocks to exactly
/// one worker of a parallel run, so by the concatenation and uniqueness laws
/// the reassembled output equals the sequential one.
pub fn partition_chunks(n: usize, workers: usize) -> (lens: Vec<usize>)
    requires
        n % 16 == 0,
        1 <= workers,
    ensures
        lens@.len() == workers,
        all_aligned(lens@),
        sum_of(lens@) == n,
{
    let blocks = n / 16;
    let base = blocks / workers;
    proof {
        lemma_fundamental_div_mod(n as int, 16);
        lemma_fundamental_div_mod(blocks as int, workers as int);
        lemma_mod_pos_bound(blocks as int, workers as int);
        lemma_div_nonincreasing(blocks as int, workers as int);
        lemma_mul_inequality(base as int, blocks as int, 16);
    }
    let per = base * 16;
    proof {
        lemma_mod_multiples_basic(base as int, 16);
        assert(per % 16 == 0);
        assert(workers as int * per as int <= n as int) by (nonlinear_arith)
            requires
                per as int == base as int * 16,
                workers as int * base as int <= blocks as int,
                n as int == 16 * blocks as int,
        ;
    }
    let mut lens: Vec<usize> = Vec::new();
    let mut used: usize = 0;
    let mut i: usize = 0;
    while i + 1 < workers
        invariant
            i + 1 <= workers,
            lens@.len() == i,
            used as int == i as int * per as int,
            sum_of(lens@) == used,
            forall|j: int| 0 <= j < i ==> lens@[j] == per,
            per % 16 == 0,
            workers as int * per as int <= n as int,
        decreases workers - i,
    {
        proof {
            lemma_mul_inequality(i as int + 1, workers as int, per as int);
            assert((i as int + 1) * per as int == i as int * per as int + per as int)
                by (nonlinear_arith);
        }
        let ghost before = lens@;
        lens.push(per);
        proof {
            assert(lens@.drop_last() =~= before);
        }
        used = used + per;
        i = i + 1;
    }
    proof {
        lemma_mul_inequality(i as int, workers as int, per as int);
        assert(used <= n);
        assert((n - used) % 16 == 0) by {
            assert(used as int == 16 * (i as int * base as int)) by (nonlinear_arith)
                requires
                    used as int == i as int * per as int,
                    per as int == base as int * 16,
            ;
            let d = blocks as int - i as int * base as int;
            assert(n as int - used as int == d * 16);
            lemma_mod_multiples_basic(d, 16);
        }
    }
    let tail = n - used;
    let ghost before = lens@;
    lens.push(tail);
    proof {
        assert(lens@.drop_last() =~= before);
    }
    lens
}

/// Sequential/parallel equivalence, uniqueness half, decryption analog.
pub proof fn lemma_decrypt_buffer_unique(ilut: Seq<u8>, c: Seq<u8>, d1: Seq<u8>, d2: Seq<u8>)
    requires
        c.len() % 16 == 0,
        buffer_decrypted(ilut, c, d1),
        buffer_decrypted(ilut, c, d2),
    ensures
        d1 == d2,
{
    assert forall|b: int| 0 <= b < nblocks(d1) implies #[trigger] block_of(d1, b) == block_of(
        d2,
        b,
    ) by {
        assert(block_of(d1, b) == decrypt_block_spec(ilut, block_of(c, b)));
        assert(block_of(d2, b) == decrypt_block_spec(ilut, block_of(c, b)));
    }
    lemma_eq_by_blocks(d1, d2);
}

} // verus!
