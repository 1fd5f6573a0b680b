//! Byte-wise XOR over chunks, in spec and in executable form.
use vstd::prelude::*;

verus! {

/// Byte-wise XOR of two byte sequences (the length of the first).
pub open spec fn bxor(a: Seq<u8>, b: Seq<u8>) -> Seq<u8> {
    Seq::new(a.len(), |j: int| a[j] ^ b[j])
}

/// `n` zero bytes.
pub open spec fn zeros(n: nat) -> Seq<u8> {
    Seq::new(n, |j: int| 0u8)
}

/// XOR of the chunks named by `idxs` (with repetition), over chunks of `b` bytes.
pub open spec fn xor_of(c: Seq<Seq<u8>>, idxs: Seq<usize>, b: nat) -> Seq<u8>
    decreases idxs.len(),
{
    if idxs.len() == 0 {
        zeros(b)
    } else {
        bxor(xor_of(c, idxs.drop_last(), b), c[idxs.last() as int])
    }
}

/// Every chunk of `c` has `b` bytes.
pub open spec fn chunks_sized(c: Seq<Seq<u8>>, b: nat) -> bool {
    forall|i: int| 0 <= i < c.len() ==> (#[trigger] c[i]).len() == b
}

/// Every index of `idxs` names a chunk of a `k`-chunk message.
pub open spec fn indices_below(idxs: Seq<usize>, k: nat) -> bool {
    forall|j: int| 0 <= j < idxs.len() ==> (#[trigger] idxs[j]) < k
}

pub proof fn lemma_u8_xor(x: u8, y: u8, z: u8)
    ensures
        x ^ 0 == x,
        x ^ x == 0,
        x ^ y == y ^ x,
        (x ^ y) ^ z == x ^ (y ^ z),
{
    assert(x ^ 0 == x) by (bit_vector);
    assert(x ^ x == 0) by (bit_vector);
    assert(x ^ y == y ^ x) by (bit_vector);
    assert((x ^ y) ^ z == x ^ (y ^ z)) by (bit_vector);
}

pub proof fn lemma_bxor_zero(a: Seq<u8>)
    ensures
        bxor(a, zeros(a.len())) == a,
{
    assert forall|j: int| 0 <= j < a.len() implies #[trigger] bxor(a, zeros(a.len()))[j] == a[j] by {
        lemma_u8_xor(a[j], 0, 0);
    }
    assert(bxor(a, zeros(a.len())) =~= a);
}

pub proof fn lemma_bxor_comm(a: Seq<u8>, b: Seq<u8>)
    requires
        a.len() == b.len(),
    ensures
        bxor(a, b) == bxor(b, a),
{
    assert forall|j: int| 0 <= j < a.len() implies #[trigger] bxor(a, b)[j] == bxor(b, a)[j] by {
        lemma_u8_xor(a[j], b[j], 0);
    }
    assert(bxor(a, b) =~= bxor(b, a));
}

pub proof fn lemma_bxor_assoc(a: Seq<u8>, b: Seq<u8>, c: Seq<u8>)
    requires
        a.len() == b.len(),
        b.len() == c.len(),
    ensures
        bxor(bxor(a, b), c) == bxor(a, bxor(b, c)),
{
    assert forall|j: int| 0 <= j < a.len() implies #[trigger] bxor(bxor(a, b), c)[j] == bxor(
        a,
        bxor(b, c),
    )[j] by {
        lemma_u8_xor(a[j], b[j], c[j]);
    }
    assert(bxor(bxor(a, b), c) =~= bxor(a, bxor(b, c)));
}

/// XOR-ing the same bytes in twice leaves the first operand.
pub proof fn lemma_bxor_cancel(a: Seq<u8>, b: Seq<u8>)
    requires
        a.len() == b.len(),
    ensures
        bxor(bxor(a, b), b) == a,
{
    assert forall|j: int| 0 <= j < a.len() implies #[trigger] bxor(bxor(a, b), b)[j] == a[j] by {
        lemma_u8_xor(a[j], b[j], b[j]);
        lemma_u8_xor(b[j], 0, 0);
        lemma_u8_xor(a[j], 0, 0);
    }
    assert(bxor(bxor(a, b), b) =~= a);
}

pub proof fn lemma_xor_of_len(c: Seq<Seq<u8>>, idxs: Seq<usize>, b: nat)
    requires
        chunks_sized(c, b),
        indices_below(idxs, c.len()),
    ensures
        xor_of(c, idxs, b).len() == b,
    decreases idxs.len(),
{
    if idxs.len() > 0 {
        lemma_xor_of_len(c, idxs.drop_last(), b);
    }
}

pub proof fn lemma_xor_of_push(c: Seq<Seq<u8>>, idxs: Seq<usize>, i: usize, b: nat)
    ensures
        xor_of(c, idxs.push(i), b) == bxor(xor_of(c, idxs, b), c[i as int]),
{
    assert(idxs.push(i).drop_last() =~= idxs);
}

/// Taking one index out of the list XORs its chunk out of the result.
pub proof fn lemma_xor_of_remove(c: Seq<Seq<u8>>, idxs: Seq<usize>, p: int, b: nat)
    requires
        chunks_sized(c, b),
        indices_below(idxs, c.len()),
        0 <= p < idxs.len(),
    ensures
        xor_of(c, idxs, b) == bxor(xor_of(c, idxs.remove(p), b), c[idxs[p] as int]),
    decreases idxs.len(),
{
    let last = idxs.last();
    let init = idxs.drop_last();
    if p == idxs.len() - 1 {
        assert(idxs.remove(p) =~= init);
    } else {
        lemma_xor_of_remove(c, init, p, b);
        assert(init.remove(p).push(last) =~= idxs.remove(p));
        lemma_xor_of_push(c, init.remove(p), last, b);
        let r = xor_of(c, init.remove(p), b);
        lemma_xor_of_len(c, init.remove(p), b);
        let x = c[idxs[p] as int];
        let y = c[last as int];
        lemma_bxor_assoc(r, x, y);
        lemma_bxor_comm(x, y);
        lemma_bxor_assoc(r, y, x);
    }
}

/// `dst` takes the byte-wise XOR of itself with `src`.
pub fn xor_into(dst: &mut Vec<u8>, src: &Vec<u8>)
    requires
        old(dst)@.len() == src@.len(),
    ensures
        final(dst)@ == bxor(old(dst)@, src@),
{
    let n = dst.len();
    let mut j: usize = 0;
    while j < n
        invariant
            n == dst@.len(),
            n == src@.len(),
            j <= n,
            forall|t: int| 0 <= t < j ==> dst@[t] == old(dst)@[t] ^ src@[t],
            forall|t: int| j <= t < n ==> dst@[t] == old(dst)@[t],
        decreases n - j,
    {
        let v = dst[j] ^ src[j];
        dst[j] = v;
        j = j + 1;
    }
    assert(dst@ =~= bxor(old(dst)@, src@));
}

} // verus!
