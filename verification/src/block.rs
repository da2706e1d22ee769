//! 128-bit blocks: how they are laid out in bytes, and doubling in GF(2^128).

use vstd::prelude::*;

verus! {

/// Number of bytes in a block.
pub const BLOCK_SIZE: usize = 16;

/// The sixteen bytes of `x`, most significant byte first.
pub open spec fn be_bytes(x: u128) -> Seq<u8> {
    Seq::new(16, |i: int| (x >> ((8 * (15 - i)) as u128)) as u8)
}

/// The sixteen bytes of `x`, least significant byte first.
pub open spec fn le_bytes(x: u128) -> Seq<u8> {
    be_bytes(x).reverse()
}

/// The number that sixteen bytes stand for, most significant byte first.
#[verifier::opaque]
pub open spec fn be_value(b: Seq<u8>) -> u128 {
    join_bytes(
        b[0], b[1], b[2], b[3], b[4], b[5], b[6], b[7],
        b[8], b[9], b[10], b[11], b[12], b[13], b[14], b[15],
    )
}

/// The number that sixteen bytes stand for, least significant byte first.
pub open spec fn le_value(b: Seq<u8>) -> u128 {
    be_value(b.reverse())
}

/// Sixteen bytes side by side in one number, `b0` on top.
pub open spec fn join_bytes(
    b0: u8, b1: u8, b2: u8, b3: u8, b4: u8, b5: u8, b6: u8, b7: u8,
    b8: u8, b9: u8, b10: u8, b11: u8, b12: u8, b13: u8, b14: u8, b15: u8,
) -> u128 {
    ((b0 as u128) << 120) | ((b1 as u128) << 112) | ((b2 as u128) << 104) | ((b3 as u128) << 96)
        | ((b4 as u128) << 88) | ((b5 as u128) << 80) | ((b6 as u128) << 72) | ((b7 as u128) << 64)
        | ((b8 as u128) << 56) | ((b9 as u128) << 48) | ((b10 as u128) << 40)
        | ((b11 as u128) << 32) | ((b12 as u128) << 24) | ((b13 as u128) << 16)
        | ((b14 as u128) << 8) | (b15 as u128)
}

/// `block` times `x` in GF(2^128), where x^128 = x^7 + x^2 + x + 1.
pub open spec fn doubled(block: u128) -> u128 {
    if block >> 127 == 1 {
        (block << 1) ^ 0x87
    } else {
        block << 1
    }
}

proof fn lemma_split_and_join(x: u128)
    by (bit_vector)
    ensures
        join_bytes(
            (x >> 120) as u8, (x >> 112) as u8, (x >> 104) as u8, (x >> 96) as u8,
            (x >> 88) as u8, (x >> 80) as u8, (x >> 72) as u8, (x >> 64) as u8,
            (x >> 56) as u8, (x >> 48) as u8, (x >> 40) as u8, (x >> 32) as u8,
            (x >> 24) as u8, (x >> 16) as u8, (x >> 8) as u8, (x >> 0) as u8,
        ) == x,
{
}

proof fn lemma_join_and_split(
    b0: u8, b1: u8, b2: u8, b3: u8, b4: u8, b5: u8, b6: u8, b7: u8,
    b8: u8, b9: u8, b10: u8, b11: u8, b12: u8, b13: u8, b14: u8, b15: u8,
    x: u128,
)
    by (bit_vector)
    requires
        x == join_bytes(
            b0, b1, b2, b3, b4, b5, b6, b7, b8, b9, b10, b11, b12, b13, b14, b15,
        ),
    ensures
        (x >> 120) as u8 == b0,
        (x >> 112) as u8 == b1,
        (x >> 104) as u8 == b2,
        (x >> 96) as u8 == b3,
        (x >> 88) as u8 == b4,
        (x >> 80) as u8 == b5,
        (x >> 72) as u8 == b6,
        (x >> 64) as u8 == b7,
        (x >> 56) as u8 == b8,
        (x >> 48) as u8 == b9,
        (x >> 40) as u8 == b10,
        (x >> 32) as u8 == b11,
        (x >> 24) as u8 == b12,
        (x >> 16) as u8 == b13,
        (x >> 8) as u8 == b14,
        (x >> 0) as u8 == b15,
{
}

/// Writing a number out and reading it back gives the number, in either order.
pub proof fn lemma_value_of_bytes(x: u128)
    ensures
        be_value(be_bytes(x)) == x,
        le_value(le_bytes(x)) == x,
{
    reveal(be_value);
    lemma_split_and_join(x);
    assert(le_bytes(x).reverse() =~= be_bytes(x));
}

/// Reading sixteen bytes and writing the number out gives the bytes, in either order.
pub proof fn lemma_bytes_of_value(b: Seq<u8>)
    requires
        b.len() == 16,
    ensures
        be_bytes(be_value(b)) == b,
        le_bytes(le_value(b)) == b,
{
    lemma_be_bytes_of_value(b);
    lemma_be_bytes_of_value(b.reverse());
    assert(b.reverse().reverse() =~= b);
}

proof fn lemma_be_bytes_of_value(b: Seq<u8>)
    requires
        b.len() == 16,
    ensures
        be_bytes(be_value(b)) == b,
{
    reveal(be_value);
    lemma_join_and_split(
        b[0], b[1], b[2], b[3], b[4], b[5], b[6], b[7],
        b[8], b[9], b[10], b[11], b[12], b[13], b[14], b[15],
        be_value(b),
    );
    assert(be_bytes(be_value(b)) =~= b);
}

/// The bytes of an exclusive or are the exclusive ors of the bytes.
pub proof fn lemma_xor_bytes(a: u128, b: u128)
    ensures
        forall|i: int|
            0 <= i < 16 ==> #[trigger] be_bytes(a ^ b)[i] == be_bytes(a)[i] ^ be_bytes(b)[i],
{
    assert forall|i: int| 0 <= i < 16 implies #[trigger] be_bytes(a ^ b)[i] == be_bytes(a)[i]
        ^ be_bytes(b)[i] by {
        let s = (8 * (15 - i)) as u128;
        assert(((a ^ b) >> s) as u8 == ((a >> s) as u8) ^ ((b >> s) as u8)) by (bit_vector);
    }
}

/// Exclusive or with the same block twice changes nothing.
pub proof fn lemma_xor_cancels(a: u128, b: u128)
    by (bit_vector)
    ensures
        (a ^ b) ^ b == a,
        a ^ (b ^ a) == b,
        a ^ (a ^ b) == b,
        a ^ b == b ^ a,
{
}

/// Doubling distributes over exclusive or, and takes no two blocks to the same
/// one.
pub proof fn law_doubling_is_linear_and_injective(a: u128, b: u128)
    by (bit_vector)
    ensures
        doubled(a ^ b) == doubled(a) ^ doubled(b),
        doubled(a) == doubled(b) ==> a == b,
{
}

/// `block` times x^`n` in GF(2^128).
pub open spec fn times_x(block: u128, n: nat) -> u128
    decreases n,
{
    if n == 0 {
        block
    } else {
        doubled(times_x(block, (n - 1) as nat))
    }
}

/// The exclusive or of all `blocks`.
pub open spec fn xor_sum(blocks: Seq<u128>) -> u128
    decreases blocks.len(),
{
    if blocks.len() == 0 {
        0
    } else {
        xor_sum(blocks.drop_last()) ^ blocks.last()
    }
}

/// Doubling multiplies by two, and folds back what goes over 128 bits.
pub proof fn law_doubling_multiplies_by_two(block: u128)
    by (bit_vector)
    ensures
        block < 0x8000_0000_0000_0000_0000_0000_0000_0000u128 ==> doubled(block) == 2 * block,
        block >= 0x8000_0000_0000_0000_0000_0000_0000_0000u128 ==> doubled(block) == (((2 * block)
            - 0x1_0000_0000_0000_0000_0000_0000_0000_0000) as u128) ^ 0x87u128,
{
}

/// Multiplying by powers of x doubles once for each of them, and the exclusive or of
/// some blocks takes in each one.
pub proof fn law_powers_and_sums(block: u128, n: nat, blocks: Seq<u128>)
    ensures
        times_x(block, 0) == block,
        times_x(block, n + 1) == doubled(times_x(block, n)),
        xor_sum(Seq::empty()) == 0,
        xor_sum(blocks.push(block)) == xor_sum(blocks) ^ block,
{
    assert(blocks.push(block).drop_last() =~= blocks);
}

proof fn lemma_join_is_a_sum(
    b0: u8, b1: u8, b2: u8, b3: u8, b4: u8, b5: u8, b6: u8, b7: u8,
    b8: u8, b9: u8, b10: u8, b11: u8, b12: u8, b13: u8, b14: u8, b15: u8,
)
    by (bit_vector)
    ensures
        join_bytes(
            b0, b1, b2, b3, b4, b5, b6, b7, b8, b9, b10, b11, b12, b13, b14, b15,
        ) ==
        b0 * 0x100_0000_0000_0000_0000_0000_0000_0000
            + b1 * 0x1_0000_0000_0000_0000_0000_0000_0000
            + b2 * 0x100_0000_0000_0000_0000_0000_0000 + b3 * 0x1_0000_0000_0000_0000_0000_0000
            + b4 * 0x100_0000_0000_0000_0000_0000 + b5 * 0x1_0000_0000_0000_0000_0000
            + b6 * 0x100_0000_0000_0000_0000 + b7 * 0x1_0000_0000_0000_0000
            + b8 * 0x100_0000_0000_0000 + b9 * 0x1_0000_0000_0000 + b10 * 0x100_0000_0000
            + b11 * 0x1_0000_0000 + b12 * 0x100_0000 + b13 * 0x1_0000 + b14 * 0x100 + b15,
{
}

/// Sixteen bytes are the digits, to the base of 256, of the number that they stand
/// for: from the highest to the lowest, or from the lowest to the highest.
pub proof fn law_bytes_are_digits(b: Seq<u8>)
    requires
        b.len() == 16,
    ensures
        be_value(b) ==
        b[0] * 0x100_0000_0000_0000_0000_0000_0000_0000
            + b[1] * 0x1_0000_0000_0000_0000_0000_0000_0000
            + b[2] * 0x100_0000_0000_0000_0000_0000_0000
            + b[3] * 0x1_0000_0000_0000_0000_0000_0000 + b[4] * 0x100_0000_0000_0000_0000_0000
            + b[5] * 0x1_0000_0000_0000_0000_0000 + b[6] * 0x100_0000_0000_0000_0000
            + b[7] * 0x1_0000_0000_0000_0000 + b[8] * 0x100_0000_0000_0000
            + b[9] * 0x1_0000_0000_0000 + b[10] * 0x100_0000_0000 + b[11] * 0x1_0000_0000
            + b[12] * 0x100_0000 + b[13] * 0x1_0000 + b[14] * 0x100 + b[15],
        le_value(b) ==
        b[0] + b[1] * 0x100 + b[2] * 0x1_0000 + b[3] * 0x100_0000 + b[4] * 0x1_0000_0000
            + b[5] * 0x100_0000_0000 + b[6] * 0x1_0000_0000_0000 + b[7] * 0x100_0000_0000_0000
            + b[8] * 0x1_0000_0000_0000_0000 + b[9] * 0x100_0000_0000_0000_0000
            + b[10] * 0x1_0000_0000_0000_0000_0000 + b[11] * 0x100_0000_0000_0000_0000_0000
            + b[12] * 0x1_0000_0000_0000_0000_0000_0000
            + b[13] * 0x100_0000_0000_0000_0000_0000_0000
            + b[14] * 0x1_0000_0000_0000_0000_0000_0000_0000
            + b[15] * 0x100_0000_0000_0000_0000_0000_0000_0000,
        be_bytes(be_value(b)) == b,
        le_bytes(le_value(b)) == b,
{
    reveal(be_value);
    let r = b.reverse();
    lemma_bytes_of_value(b);
    lemma_join_is_a_sum(
        b[0], b[1], b[2], b[3], b[4], b[5], b[6], b[7],
        b[8], b[9], b[10], b[11], b[12], b[13], b[14], b[15],
    );
    lemma_join_is_a_sum(
        r[0], r[1], r[2], r[3], r[4], r[5], r[6], r[7],
        r[8], r[9], r[10], r[11], r[12], r[13], r[14], r[15],
    );
}

/// Returns the bytes of `x`, most significant first.
pub fn to_be_bytes(x: u128) -> (r: [u8; BLOCK_SIZE])
    ensures
        r@ == be_bytes(x),
{
    let r: [u8; BLOCK_SIZE] = [
        (x >> 120) as u8, (x >> 112) as u8, (x >> 104) as u8, (x >> 96) as u8,
        (x >> 88) as u8, (x >> 80) as u8, (x >> 72) as u8, (x >> 64) as u8,
        (x >> 56) as u8, (x >> 48) as u8, (x >> 40) as u8, (x >> 32) as u8,
        (x >> 24) as u8, (x >> 16) as u8, (x >> 8) as u8, (x >> 0) as u8,
    ];
    assert(r@ =~= be_bytes(x));
    r
}

/// Returns the bytes of `x`, least significant first.
pub fn to_le_bytes(x: u128) -> (r: [u8; BLOCK_SIZE])
    ensures
        r@ == le_bytes(x),
{
    let r: [u8; BLOCK_SIZE] = [
        (x >> 0) as u8, (x >> 8) as u8, (x >> 16) as u8, (x >> 24) as u8,
        (x >> 32) as u8, (x >> 40) as u8, (x >> 48) as u8, (x >> 56) as u8,
        (x >> 64) as u8, (x >> 72) as u8, (x >> 80) as u8, (x >> 88) as u8,
        (x >> 96) as u8, (x >> 104) as u8, (x >> 112) as u8, (x >> 120) as u8,
    ];
    assert(r@ =~= le_bytes(x));
    r
}

/// Returns the number that `b` stands for, most significant byte first.
pub fn from_be_bytes(b: &[u8; BLOCK_SIZE]) -> (r: u128)
    ensures
        r == be_value(b@),
{
    reveal(be_value);
    ((b[0] as u128) << 120) | ((b[1] as u128) << 112) | ((b[2] as u128) << 104)
        | ((b[3] as u128) << 96) | ((b[4] as u128) << 88) | ((b[5] as u128) << 80)
        | ((b[6] as u128) << 72) | ((b[7] as u128) << 64) | ((b[8] as u128) << 56)
        | ((b[9] as u128) << 48) | ((b[10] as u128) << 40) | ((b[11] as u128) << 32)
        | ((b[12] as u128) << 24) | ((b[13] as u128) << 16) | ((b[14] as u128) << 8)
        | (b[15] as u128)
}

/// Returns the number that `b` stands for, least significant byte first.
pub fn from_le_bytes(b: &[u8; BLOCK_SIZE]) -> (r: u128)
    ensures
        r == le_value(b@),
{
    let reversed: [u8; BLOCK_SIZE] = [
        b[15], b[14], b[13], b[12], b[11], b[10], b[9], b[8],
        b[7], b[6], b[5], b[4], b[3], b[2], b[1], b[0],
    ];
    assert(reversed@ =~= b@.reverse());
    from_be_bytes(&reversed)
}

/// Copies the `len` bytes at `pos` in `src` to the front of `block`.
pub fn read_bytes(src: &[u8], pos: usize, len: usize, block: &mut [u8; BLOCK_SIZE])
    requires
        len <= BLOCK_SIZE,
        pos + len <= src@.len(),
    ensures
        final(block)@ == src@.subrange(pos as int, pos + len) + old(block)@.skip(len as int),
{
    let mut k: usize = 0;
    while k < len
        invariant
            k <= len <= BLOCK_SIZE,
            pos + len <= src.len() == src@.len(),
            block@.len() == BLOCK_SIZE,
            forall|i: int| 0 <= i < k ==> block@[i] == src@[pos + i],
            forall|i: int| k <= i < BLOCK_SIZE ==> block@[i] == old(block)@[i],
        decreases len - k,
    {
        block[k] = src[pos + k];
        k += 1;
    }
    assert(block@ =~= src@.subrange(pos as int, pos + len) + old(block)@.skip(len as int));
}

/// Copies the first `len` bytes of `block` to `pos` in `dst`.
pub fn write_bytes(dst: &mut [u8], pos: usize, len: usize, block: &[u8; BLOCK_SIZE])
    requires
        len <= BLOCK_SIZE,
        pos + len <= old(dst)@.len(),
    ensures
        final(dst)@ == old(dst)@.take(pos as int) + block@.take(len as int) + old(dst)@.skip(
            pos + len,
        ),
{
    let mut k: usize = 0;
    while k < len
        invariant
            k <= len <= BLOCK_SIZE,
            dst@.len() == old(dst)@.len(),
            pos + len <= dst.len() == dst@.len(),
            forall|i: int| 0 <= i < k ==> dst@[pos + i] == block@[i],
            forall|i: int|
                0 <= i < dst@.len() && !(pos <= i < pos + k) ==> dst@[i] == old(dst)@[i],
        decreases len - k,
    {
        dst[pos + k] = block[k];
        k += 1;
    }
    let ghost wanted = old(dst)@.take(pos as int) + block@.take(len as int) + old(dst)@.skip(
        pos + len,
    );
    assert forall|i: int| 0 <= i < dst@.len() implies dst@[i] == wanted[i] by {
        if pos <= i < pos + len {
            assert(dst@[pos + (i - pos)] == block@[i - pos]);
        }
    }
    assert(dst@ =~= wanted);
}

/// Doubles `block` in GF(2^128).
pub fn s2(block: u128) -> (r: u128)
    ensures
        r == doubled(block),
{
    let rot: u128 = (block << 1) | (block >> 127);
    let carry: u128 = rot & 1;
    assert(carry <= 1) by (bit_vector)
        requires
            carry == rot & 1,
    ;
    assert(rot ^ ((carry * 0x86) as u128) == doubled(block)) by (bit_vector)
        requires
            rot == (block << 1) | (block >> 127),
            carry == rot & 1,
    ;
    rot ^ (carry * 0x86)
}

} // verus!
