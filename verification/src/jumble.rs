//! Reversible diffusion permutation over byte buffers.
//!
//! The buffer splits into a left part of at most [`HALF_MAX`] bytes and a
//! right part; four Feistel-style rounds each XOR one side with a keyed-hash
//! mask of the other side, the round index and the buffer length. Every round
//! is an XOR with a value that does not depend on the side being changed, so
//! running the rounds backwards inverts the whole permutation exactly.

use crate::varint::le_bytes;
use crate::zip316::CodecError;
use vstd::prelude::*;

verus! {

/// Smallest buffer the permutation accepts.
pub const MIN_BUF: usize = 2;

/// Largest buffer the permutation accepts.
pub const MAX_BUF: usize = 262144;

/// Upper bound on the left part's width.
pub const HALF_MAX: usize = 64;

/// What a keyed, fixed-output-length hash returns for a given input: a pure
/// function of the input bytes and the requested length alone.
pub uninterp spec fn blake2b_of(input: Seq<u8>, out_len: nat) -> Seq<u8>;

/// Relies on `blake2b_simd::Params::hash` with a fixed personalization and
/// the configured output length: the digest is a deterministic function of
/// the input bytes and the output length, and has exactly that length.
#[verifier::external_body]
fn blake2b_block(input: &Vec<u8>, out_len: usize) -> (r: Vec<u8>)
    requires
        1 <= out_len <= 64,
    ensures
        r@ == blake2b_of(input@, out_len as nat),
        r@.len() == out_len,
{
    blake2b_simd::Params::new()
        .hash_length(out_len)
        .personal(b"jview_container")
        .hash(input.as_slice())
        .as_bytes()
        .to_vec()
}

/// The bytes hashed for one mask block: the round index, the block index,
/// the whole buffer's length, then the untouched side.
pub open spec fn block_input(round: u8, block: u32, n: u64, side: Seq<u8>) -> Seq<u8> {
    seq![round] + le_bytes(block as u64, 4) + le_bytes(n, 8) + side
}

/// The mask for one side: hash blocks of up to 64 bytes, concatenated until
/// `out_len` bytes are produced.
pub open spec fn mask_bytes(round: u8, n: u64, side: Seq<u8>, block: u32, out_len: nat) -> Seq<u8>
    decreases out_len,
{
    if out_len == 0 {
        Seq::empty()
    } else if out_len <= 64 {
        blake2b_of(block_input(round, block, n, side), out_len)
    } else {
        blake2b_of(block_input(round, block, n, side), 64) + mask_bytes(
            round,
            n,
            side,
            (block + 1) as u32,
            (out_len - 64) as nat,
        )
    }
}

/// Bytewise XOR of `a` with `m`, as long as `a`.
pub open spec fn xor_seq(a: Seq<u8>, m: Seq<u8>) -> Seq<u8> {
    Seq::new(a.len(), |i: int| a[i] ^ m[i])
}

/// Width of the left part for a buffer of `n` bytes.
pub open spec fn half_len(n: nat) -> nat {
    if (n + 1) / 2 < HALF_MAX as nat {
        (n + 1) / 2
    } else {
        HALF_MAX as nat
    }
}

/// The permuted image of a buffer of valid length.
pub open spec fn permuted(b: Seq<u8>) -> Seq<u8> {
    let n = b.len();
    let l = half_len(n) as int;
    let a0 = b.take(l);
    let b0 = b.skip(l);
    let b1 = xor_seq(b0, mask_bytes(0, n as u64, a0, 0, b0.len()));
    let a1 = xor_seq(a0, mask_bytes(1, n as u64, b1, 0, a0.len()));
    let b2 = xor_seq(b1, mask_bytes(2, n as u64, a1, 0, b1.len()));
    let a2 = xor_seq(a1, mask_bytes(3, n as u64, b2, 0, a1.len()));
    a2 + b2
}

/// The inverse image: the same masks applied in reverse round order.
pub open spec fn inverted(c: Seq<u8>) -> Seq<u8> {
    let n = c.len();
    let l = half_len(n) as int;
    let a2 = c.take(l);
    let b2 = c.skip(l);
    let a1 = xor_seq(a2, mask_bytes(3, n as u64, b2, 0, a2.len()));
    let b1 = xor_seq(b2, mask_bytes(2, n as u64, a1, 0, b2.len()));
    let a0 = xor_seq(a1, mask_bytes(1, n as u64, b1, 0, a1.len()));
    let b0 = xor_seq(b1, mask_bytes(0, n as u64, a0, 0, b1.len()));
    a0 + b0
}

/// Copies `v[from..to]` into a fresh vector.
fn subvec(v: &Vec<u8>, from: usize, to: usize) -> (r: Vec<u8>)
    requires
        from <= to <= v@.len(),
    ensures
        r@ == v@.subrange(from as int, to as int),
{
    let mut r: Vec<u8> = Vec::new();
    let mut i: usize = from;
    while i < to
        invariant
            from <= i <= to <= v@.len(),
            r@ == v@.subrange(from as int, i as int),
        decreases to - i,
    {
        r.push(v[i]);
        proof {
            assert(r@ =~= v@.subrange(from as int, (i + 1) as int));
        }
        i = i + 1;
    }
    r
}

/// XOR of two equally long vectors.
fn xor_vec(a: &Vec<u8>, m: &Vec<u8>) -> (r: Vec<u8>)
    requires
        a@.len() == m@.len(),
    ensures
        r@ == xor_seq(a@, m@),
{
    let mut r: Vec<u8> = Vec::new();
    let mut i: usize = 0;
    while i < a.len()
        invariant
            0 <= i <= a@.len(),
            a@.len() == m@.len(),
            r@.len() == i,
            forall|j: int| 0 <= j < i ==> r@[j] == (a@[j] ^ m@[j]),
        decreases a@.len() - i,
    {
        r.push(a[i] ^ m[i]);
        i = i + 1;
    }
    proof {
        assert(r@ =~= xor_seq(a@, m@));
    }
    r
}

/// Appends the `k` low-order bytes of `v`, least significant first.
fn push_le_bytes(out: &mut Vec<u8>, v: u64, k: usize)
    requires
        k <= 8,
    ensures
        final(out)@ == old(out)@ + le_bytes(v, k as nat),
{
    let mut x: u64 = v;
    let mut i: usize = 0;
    while i < k
        invariant
            0 <= i <= k,
            x == shr_bytes(v, i as nat),
            out@ == old(out)@ + le_bytes_prefix(v, k as nat, i as nat),
        decreases k - i,
    {
        out.push(x as u8);
        proof {
            lemma_le_bytes_prefix_step(v, k as nat, i as nat);
        }
        x = x >> 8;
        i = i + 1;
    }
    proof {
        lemma_le_bytes_prefix_full(v, k as nat);
    }
}

/// `v` shifted right by `i` whole bytes.
pub open spec fn shr_bytes(v: u64, i: nat) -> u64
    decreases i,
{
    if i == 0 {
        v
    } else {
        shr_bytes(v, (i - 1) as nat) >> 8
    }
}

/// The first `i` bytes of the `k`-byte little-endian encoding of `v`.
pub open spec fn le_bytes_prefix(v: u64, k: nat, i: nat) -> Seq<u8> {
    le_bytes(v, k).take(i as int)
}

proof fn lemma_le_bytes_unfolds(v: u64, k: nat, i: nat)
    requires
        i < k,
    ensures
        le_bytes(v, k)[i as int] == shr_bytes(v, i) as u8,
    decreases i,
{
    crate::varint::lemma_le_bytes_len(v, k);
    crate::varint::lemma_le_bytes_len(v >> 8, (k - 1) as nat);
    assert(le_bytes(v, k) == seq![v as u8] + le_bytes(v >> 8, (k - 1) as nat));
    if i > 0 {
        lemma_le_bytes_unfolds(v >> 8, (k - 1) as nat, (i - 1) as nat);
        lemma_shr_bytes_shift(v, i);
    }
}

proof fn lemma_shr_bytes_shift(v: u64, i: nat)
    requires
        i > 0,
    ensures
        shr_bytes(v, i) == shr_bytes(v >> 8, (i - 1) as nat),
    decreases i,
{
    if i == 1 {
        assert(shr_bytes(v, 1) == shr_bytes(v, 0) >> 8);
        assert(shr_bytes(v, 0) == v);
    } else {
        lemma_shr_bytes_shift(v, (i - 1) as nat);
        assert(shr_bytes(v, i) == shr_bytes(v, (i - 1) as nat) >> 8);
        assert(shr_bytes(v >> 8, (i - 1) as nat) == shr_bytes(v >> 8, (i - 2) as nat) >> 8);
    }
}

proof fn lemma_le_bytes_prefix_step(v: u64, k: nat, i: nat)
    requires
        i < k,
    ensures
        le_bytes_prefix(v, k, (i + 1) as nat) == le_bytes_prefix(v, k, i) + seq![
            shr_bytes(v, i) as u8,
        ],
{
    crate::varint::lemma_le_bytes_len(v, k);
    lemma_le_bytes_unfolds(v, k, i);
    assert(le_bytes(v, k).take((i + 1) as int) =~= le_bytes(v, k).take(i as int) + seq![
        shr_bytes(v, i) as u8,
    ]);
}

proof fn lemma_le_bytes_prefix_full(v: u64, k: nat)
    ensures
        le_bytes_prefix(v, k, k) == le_bytes(v, k),
{
    crate::varint::lemma_le_bytes_len(v, k);
    assert(le_bytes(v, k).take(k as int) =~= le_bytes(v, k));
}

/// Derives the mask for one round and one side: hash blocks concatenated to
/// exactly `out_len` bytes.
fn derive_mask(round: u8, n: u64, side: &Vec<u8>, out_len: usize) -> (r: Vec<u8>)
    requires
        1 <= out_len <= MAX_BUF,
    ensures
        r@ == mask_bytes(round, n, side@, 0, out_len as nat),
        r@.len() == out_len,
{
    let mut acc: Vec<u8> = Vec::new();
    let mut block: u32 = 0;
    let mut rem: usize = out_len;
    while rem > 64
        invariant
            1 <= rem <= out_len <= MAX_BUF,
            acc@.len() + rem == out_len,
            acc@.len() == 64 * block,
            mask_bytes(round, n, side@, 0, out_len as nat) == acc@ + mask_bytes(
                round,
                n,
                side@,
                block,
                rem as nat,
            ),
        decreases rem,
    {
        let input = build_block_input(round, block, n, side);
        let piece = blake2b_block(&input, 64);
        let ghost acc_old = acc@;
        let mut piece_mut = piece;
        acc.append(&mut piece_mut);
        proof {
            assert(mask_bytes(round, n, side@, block, rem as nat) == blake2b_of(
                block_input(round, block, n, side@),
                64,
            ) + mask_bytes(round, n, side@, (block + 1) as u32, (rem - 64) as nat));
            assert(acc@ == acc_old + blake2b_of(block_input(round, block, n, side@), 64));
            assert(mask_bytes(round, n, side@, 0, out_len as nat) == acc@ + mask_bytes(
                round,
                n,
                side@,
                (block + 1) as u32,
                (rem - 64) as nat,
            )) by {
                assert(acc_old + (blake2b_of(block_input(round, block, n, side@), 64)
                    + mask_bytes(round, n, side@, (block + 1) as u32, (rem - 64) as nat)) =~= (
                acc_old + blake2b_of(block_input(round, block, n, side@), 64)) + mask_bytes(
                    round,
                    n,
                    side@,
                    (block + 1) as u32,
                    (rem - 64) as nat,
                ));
            }
        }
        block = block + 1;
        rem = rem - 64;
    }
    let input = build_block_input(round, block, n, side);
    let piece = blake2b_block(&input, rem);
    let mut piece_mut = piece;
    acc.append(&mut piece_mut);
    proof {
        assert(mask_bytes(round, n, side@, block, rem as nat) == blake2b_of(
            block_input(round, block, n, side@),
            rem as nat,
        ));
    }
    acc
}

/// Assembles the bytes hashed for one mask block.
fn build_block_input(round: u8, block: u32, n: u64, side: &Vec<u8>) -> (r: Vec<u8>)
    ensures
        r@ == block_input(round, block, n, side@),
{
    let mut r: Vec<u8> = Vec::new();
    r.push(round);
    push_le_bytes(&mut r, block as u64, 4);
    push_le_bytes(&mut r, n, 8);
    let ghost before = r@;
    let mut i: usize = 0;
    while i < side.len()
        invariant
            0 <= i <= side@.len(),
            r@ == before + side@.take(i as int),
        decreases side@.len() - i,
    {
        r.push(side[i]);
        proof {
            assert(before + side@.take((i + 1) as int) =~= (before + side@.take(i as int)).push(
                side@[i as int],
            ));
        }
        i = i + 1;
    }
    proof {
        assert(side@.take(side@.len() as int) =~= side@);
        assert(seq![round] + le_bytes(block as u64, 4) + le_bytes(n, 8) =~= before);
        assert(r@ =~= block_input(round, block, n, side@));
    }
    r
}

/// Applies the diffusion permutation.
///
/// Fails with `BufferTooShort` below [`MIN_BUF`] bytes and `BufferTooLong`
/// above [`MAX_BUF`] bytes; otherwise returns the permuted buffer, the same
/// length as the input.
pub fn permute(buf: &Vec<u8>) -> (r: Result<Vec<u8>, CodecError>)
    ensures
        buf@.len() < MIN_BUF ==> r == Result::<Vec<u8>, CodecError>::Err(
            CodecError::BufferTooShort,
        ),
        buf@.len() > MAX_BUF ==> r == Result::<Vec<u8>, CodecError>::Err(CodecError::BufferTooLong),
        MIN_BUF <= buf@.len() <= MAX_BUF ==> (r matches Ok(p) && p@ == permuted(buf@)),
{
    if buf.len() < MIN_BUF {
        return Err(CodecError::BufferTooShort);
    }
    if buf.len() > MAX_BUF {
        return Err(CodecError::BufferTooLong);
    }
    let n = buf.len();
    let l = if (n + 1) / 2 < HALF_MAX {
        (n + 1) / 2
    } else {
        HALF_MAX
    };
    let a0 = subvec(buf, 0, l);
    let b0 = subvec(buf, l, n);
    proof {
        assert(a0@ == buf@.take(l as int));
        assert(b0@ == buf@.skip(l as int));
    }
    let m0 = derive_mask(0, n as u64, &a0, n - l);
    let b1 = xor_vec(&b0, &m0);
    let m1 = derive_mask(1, n as u64, &b1, l);
    let a1 = xor_vec(&a0, &m1);
    let m2 = derive_mask(2, n as u64, &a1, n - l);
    let b2 = xor_vec(&b1, &m2);
    let m3 = derive_mask(3, n as u64, &b2, l);
    let a2 = xor_vec(&a1, &m3);
    let mut out = a2;
    let mut b2_mut = b2;
    out.append(&mut b2_mut);
    proof {
        assert(out@ =~= permuted(buf@));
    }
    Ok(out)
}

/// Applies the inverse permutation: the same masks, reverse round order.
///
/// The same length bounds apply as for [`permute`].
pub fn invert(buf: &Vec<u8>) -> (r: Result<Vec<u8>, CodecError>)
    ensures
        buf@.len() < MIN_BUF ==> r == Result::<Vec<u8>, CodecError>::Err(
            CodecError::BufferTooShort,
        ),
        buf@.len() > MAX_BUF ==> r == Result::<Vec<u8>, CodecError>::Err(CodecError::BufferTooLong),
        MIN_BUF <= buf@.len() <= MAX_BUF ==> (r matches Ok(p) && p@ == inverted(buf@)),
{
    if buf.len() < MIN_BUF {
        return Err(CodecError::BufferTooShort);
    }
    if buf.len() > MAX_BUF {
        return Err(CodecError::BufferTooLong);
    }
    let n = buf.len();
    let l = if (n + 1) / 2 < HALF_MAX {
        (n + 1) / 2
    } else {
        HALF_MAX
    };
    let a2 = subvec(buf, 0, l);
    let b2 = subvec(buf, l, n);
    proof {
        assert(a2@ == buf@.take(l as int));
        assert(b2@ == buf@.skip(l as int));
    }
    let m3 = derive_mask(3, n as u64, &b2, l);
    let a1 = xor_vec(&a2, &m3);
    let m2 = derive_mask(2, n as u64, &a1, n - l);
    let b1 = xor_vec(&b2, &m2);
    let m1 = derive_mask(1, n as u64, &b1, l);
    let a0 = xor_vec(&a1, &m1);
    let m0 = derive_mask(0, n as u64, &a0, n - l);
    let b0 = xor_vec(&b1, &m0);
    let mut out = a0;
    let mut b0_mut = b0;
    out.append(&mut b0_mut);
    proof {
        assert(out@ =~= inverted(buf@));
    }
    Ok(out)
}

/// XOR with the same mask twice gives the original sequence back.
proof fn lemma_xor_involutive(a: Seq<u8>, m: Seq<u8>)
    ensures
        xor_seq(xor_seq(a, m), m) == a,
{
    assert forall|i: int| 0 <= i < a.len() implies xor_seq(xor_seq(a, m), m)[i] == a[i] by {
        let x = a[i];
        let y = m[i];
        assert((x ^ y) ^ y == x) by (bit_vector);
    }
    assert(xor_seq(xor_seq(a, m), m) =~= a);
}

/// Inverting the permuted image of any buffer of valid length gives the
/// buffer back: the permutation is a total bijection on such buffers.
pub proof fn lemma_permute_invert_round_trip(b: Seq<u8>)
    requires
        MIN_BUF <= b.len() <= MAX_BUF,
    ensures
        permuted(b).len() == b.len(),
        inverted(permuted(b)) == b,
{
    let n = b.len();
    let l = half_len(n) as int;
    let a0 = b.take(l);
    let b0 = b.skip(l);
    let b1 = xor_seq(b0, mask_bytes(0, n as u64, a0, 0, b0.len()));
    let a1 = xor_seq(a0, mask_bytes(1, n as u64, b1, 0, a0.len()));
    let b2 = xor_seq(b1, mask_bytes(2, n as u64, a1, 0, b1.len()));
    let a2 = xor_seq(a1, mask_bytes(3, n as u64, b2, 0, a1.len()));
    let c = permuted(b);
    assert(c == a2 + b2);
    assert(a2.len() == l && b2.len() == n - l);
    assert(c.len() == n);
    assert(half_len(c.len()) == half_len(n));
    assert(c.take(l) =~= a2);
    assert(c.skip(l) =~= b2);
    lemma_xor_involutive(a1, mask_bytes(3, n as u64, b2, 0, a1.len()));
    assert(xor_seq(a2, mask_bytes(3, n as u64, b2, 0, a2.len())) == a1);
    lemma_xor_involutive(b1, mask_bytes(2, n as u64, a1, 0, b1.len()));
    assert(xor_seq(b2, mask_bytes(2, n as u64, a1, 0, b2.len())) == b1);
    lemma_xor_involutive(a0, mask_bytes(1, n as u64, b1, 0, a0.len()));
    assert(xor_seq(a1, mask_bytes(1, n as u64, b1, 0, a1.len())) == a0);
    lemma_xor_involutive(b0, mask_bytes(0, n as u64, a0, 0, b0.len()));
    assert(xor_seq(b1, mask_bytes(0, n as u64, a0, 0, b1.len())) == b0);
    assert(inverted(c) == a0 + b0);
    assert(a0 + b0 =~= b);
}

/// No two distinct buffers of valid length share a permuted image.
pub proof fn lemma_permute_injective(x: Seq<u8>, y: Seq<u8>)
    requires
        MIN_BUF <= x.len() <= MAX_BUF,
        MIN_BUF <= y.len() <= MAX_BUF,
        permuted(x) == permuted(y),
    ensures
        x == y,
{
    lemma_permute_invert_round_trip(x);
    lemma_permute_invert_round_trip(y);
}

} // verus!
