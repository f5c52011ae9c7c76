//! Lookup-table generation: a random 256-entry byte permutation (the LUT) and
//! its structural inverse (the ILUT).

use rand::Rng;
use vstd::prelude::*;

verus! {

/// The entries of `s` are pairwise distinct.
pub open spec fn distinct(s: Seq<u8>) -> bool {
    forall|i: int, j: int|
        0 <= i < s.len() && 0 <= j < s.len() && i != j ==> s[i] != s[j]
}

/// Every byte value occurs in `s`.
pub open spec fn covers(s: Seq<u8>) -> bool {
    forall|v: u8| s.contains(v)
}

/// A valid lookup table: 256 entries forming a bijection on byte values.
pub open spec fn is_permutation(s: Seq<u8>) -> bool {
    s.len() == 256 && distinct(s) && covers(s)
}

/// `ilut` undoes `lut`: looking up a substituted byte gives back the original.
pub open spec fn inverts(ilut: Seq<u8>, lut: Seq<u8>) -> bool {
    &&& ilut.len() == 256
    &&& lut.len() == 256
    &&& forall|x: int| 0 <= x < 256 ==> #[trigger] ilut[lut[x] as int] == x as u8
}

/// Relies on rand::Rng::gen_range: returns a value drawn from the half-open
/// range `0..n`, hence strictly below `n`; panics only on an empty range,
/// which `1 <= n` rules out.
#[verifier::external_body]
fn random_below(n: usize) -> (r: usize)
    requires
        1 <= n,
    ensures
        r < n,
{
    rand::thread_rng().gen_range(0..n)
}

/// Swapping two entries of a byte permutation yields a byte permutation.
proof fn lemma_swap_preserves_permutation(s: Seq<u8>, x: int, y: int)
    requires
        is_permutation(s),
        0 <= x < 256,
        0 <= y < 256,
    ensures
        is_permutation(s.update(x, s[y]).update(y, s[x])),
{
    let t = s.update(x, s[y]).update(y, s[x]);
    assert forall|v: u8| t.contains(v) by {
        let w = choose|i: int| 0 <= i < s.len() && s[i] == v;
        assert(s.contains(v));
        if w == x {
            assert(t[y] == v);
        } else if w == y {
            assert(t[x] == v);
        } else {
            assert(t[w] == v);
        }
    }
}

/// Produces a uniformly shuffled substitution table: a random permutation of
/// the 256 byte values, written over the caller's 256-byte buffer.
pub fn generate_lut(lut: &mut Vec<u8>)
    requires
        old(lut)@.len() == 256,
    ensures
        is_permutation(final(lut)@),
{
    let mut i: usize = 0;
    while i < 256
        invariant
            lut@.len() == 256,
            i <= 256,
            forall|j: int| 0 <= j < i ==> lut@[j] == j as u8,
        decreases 256 - i,
    {
        lut[i] = i as u8;
        i = i + 1;
    }
    assert forall|v: u8| lut@.contains(v) by {
        assert(lut@[v as int] == v);
    }
    assert(is_permutation(lut@));

    let mut k: usize = 255;
    while 1 <= k
        invariant
            lut@.len() == 256,
            k <= 255,
            is_permutation(lut@),
        decreases k,
    {
        let j = random_below(k + 1);
        let a = lut[k];
        let b = lut[j];
        let ghost prev = lut@;
        lut[k] = b;
        lut[j] = a;
        proof {
            lemma_swap_preserves_permutation(prev, k as int, j as int);
            assert(lut@ =~= prev.update(k as int, prev[j as int]).update(j as int, prev[k as int]));
        }
        k = k - 1;
    }
}

/// Derives the structural inverse table by scatter-writing `ilut[lut[i]] = i`
/// for each index, in a single pass over the 256 entries.
pub fn generate_ilut(lut: &Vec<u8>, ilut: &mut Vec<u8>)
    requires
        lut@.len() == 256,
        distinct(lut@),
        old(ilut)@.len() == 256,
    ensures
        inverts(final(ilut)@, lut@),
{
    let mut i: usize = 0;
    while i < 256
        invariant
            lut@.len() == 256,
            distinct(lut@),
            ilut@.len() == 256,
            i <= 256,
            forall|j: int| 0 <= j < i ==> #[trigger] ilut@[lut@[j] as int] == j as u8,
        decreases 256 - i,
    {
        let v = lut[i];
        let ghost prev = ilut@;
        ilut[v as usize] = i as u8;
        assert forall|j: int| 0 <= j < i + 1 implies #[trigger] ilut@[lut@[j] as int] == j as u8 by {
            if j < i {
                assert(lut@[j] != lut@[i as int]);
                assert(prev[lut@[j] as int] == j as u8);
            }
        }
        i = i + 1;
    }
}

} // verus!
