//! Offset codebook mode: what a message is encrypted to, what a ciphertext is
//! decrypted to, and the tag that authenticates a message.
//!
//! A message is cut into blocks of sixteen bytes, the last of which may be
//! shorter, and is empty only where the message is. Each block has an offset:
//! the enciphered block of the nonce, here `start`, doubled once more from block
//! to block.

use vstd::prelude::*;

use crate::block::{
    be_bytes, be_value, doubled, lemma_bytes_of_value, lemma_value_of_bytes, lemma_xor_bytes,
    lemma_xor_cancels, times_x, xor_sum,
};
use crate::cipher::{aes128_decrypted, aes128_encrypted, reversible};

verus! {

/// AES-128 on a block that is held as a number.
pub open spec fn enciphered(key: Seq<u8>, block: u128) -> u128 {
    be_value(aes128_encrypted(key, be_bytes(block)))
}

/// The inverse of AES-128 on a block that is held as a number.
pub open spec fn deciphered(key: Seq<u8>, block: u128) -> u128 {
    be_value(aes128_decrypted(key, be_bytes(block)))
}

/// The number of blocks ahead of the last one, in a message of `len` bytes.
pub open spec fn leading_blocks(len: nat) -> nat {
    if len == 0 {
        0
    } else {
        ((len - 1) / 16) as nat
    }
}

/// The offset after `i` doublings.
pub open spec fn offset(key: Seq<u8>, start: u128, i: nat) -> u128
    decreases i,
{
    if i == 0 {
        enciphered(key, start)
    } else {
        doubled(offset(key, start, (i - 1) as nat))
    }
}

/// The `i`th block of `data`.
pub open spec fn block_at(data: Seq<u8>, i: nat) -> u128 {
    be_value(data.subrange(16 * (i as int), 16 * (i as int) + 16))
}

/// What the `i`th block of `plain`, one ahead of the last, is encrypted to.
pub open spec fn sealed_block(key: Seq<u8>, start: u128, plain: Seq<u8>, i: nat) -> u128 {
    let delta = offset(key, start, i + 1);
    enciphered(key, delta ^ block_at(plain, i)) ^ delta
}

/// What the `i`th block of `cipher`, one ahead of the last, is decrypted to.
pub open spec fn opened_block(key: Seq<u8>, start: u128, cipher: Seq<u8>, i: nat) -> u128 {
    let delta = offset(key, start, i + 1);
    deciphered(key, delta ^ block_at(cipher, i)) ^ delta
}

/// What the last block of a message of `len` bytes is combined with.
pub open spec fn last_pad(key: Seq<u8>, start: u128, len: nat) -> u128 {
    let n = leading_blocks(len);
    enciphered(key, (((len - 16 * n) * 8) as u128) ^ offset(key, start, n + 1))
}

/// The ciphertext of `plain`.
pub open spec fn sealed_text(key: Seq<u8>, start: u128, plain: Seq<u8>) -> Seq<u8> {
    let n = leading_blocks(plain.len());
    Seq::new(
        plain.len(),
        |j: int|
            if j < 16 * n {
                be_bytes(sealed_block(key, start, plain, (j / 16) as nat))[j % 16]
            } else {
                plain[j] ^ be_bytes(last_pad(key, start, plain.len()))[j - 16 * n]
            },
    )
}

/// The message that `cipher` stands for.
pub open spec fn opened_text(key: Seq<u8>, start: u128, cipher: Seq<u8>) -> Seq<u8> {
    let n = leading_blocks(cipher.len());
    Seq::new(
        cipher.len(),
        |j: int|
            if j < 16 * n {
                be_bytes(opened_block(key, start, cipher, (j / 16) as nat))[j % 16]
            } else {
                cipher[j] ^ be_bytes(last_pad(key, start, cipher.len()))[j - 16 * n]
            },
    )
}

/// The exclusive or of the first `n` blocks of `data`.
pub open spec fn xor_of_blocks(data: Seq<u8>, n: nat) -> u128
    decreases n,
{
    if n == 0 {
        0
    } else {
        xor_of_blocks(data, (n - 1) as nat) ^ block_at(data, (n - 1) as nat)
    }
}

/// The last block of `plain`, filled up from `pad`.
pub open spec fn last_block(plain: Seq<u8>, pad: u128) -> u128 {
    let n = leading_blocks(plain.len());
    be_value(
        Seq::new(
            16,
            |k: int|
                if k < plain.len() - 16 * n {
                    plain[16 * n + k]
                } else {
                    be_bytes(pad)[k]
                },
        ),
    )
}

/// The tag of `plain`.
pub open spec fn ocb_tag(key: Seq<u8>, start: u128, plain: Seq<u8>) -> u128 {
    let n = leading_blocks(plain.len());
    let delta = offset(key, start, n + 1);
    let checksum = xor_of_blocks(plain, n) ^ last_block(plain, last_pad(key, start, plain.len()));
    enciphered(key, delta ^ doubled(delta) ^ checksum)
}

/// Deciphering takes an enciphered block back.
proof fn lemma_deciphered(key: Seq<u8>, block: u128)
    requires
        reversible(key),
    ensures
        deciphered(key, enciphered(key, block)) == block,
{
    let out = aes128_encrypted(key, be_bytes(block));
    assert(be_bytes(block).len() == 16);
    lemma_bytes_of_value(out);
    lemma_value_of_bytes(block);
}

/// Enciphering takes a deciphered block back.
proof fn lemma_enciphered(key: Seq<u8>, block: u128)
    requires
        reversible(key),
    ensures
        enciphered(key, deciphered(key, block)) == block,
{
    let out = aes128_decrypted(key, be_bytes(block));
    assert(be_bytes(block).len() == 16);
    lemma_bytes_of_value(out);
    lemma_value_of_bytes(block);
}

/// Enciphering and deciphering undo one another, and so neither takes two blocks
/// to the same one.
pub proof fn law_cipher_is_a_bijection(key: Seq<u8>, x: u128, y: u128)
    requires
        reversible(key),
    ensures
        deciphered(key, enciphered(key, x)) == x,
        enciphered(key, deciphered(key, x)) == x,
        enciphered(key, x) == enciphered(key, y) <==> x == y,
        deciphered(key, x) == deciphered(key, y) <==> x == y,
{
    lemma_deciphered(key, x);
    lemma_deciphered(key, y);
    lemma_enciphered(key, x);
    lemma_enciphered(key, y);
}

/// A byte ahead of the last block is a byte of the block it lies in.
proof fn lemma_byte_of_block(data: Seq<u8>, i: nat, k: int)
    requires
        16 * i + 16 <= data.len(),
        0 <= k < 16,
    ensures
        be_bytes(block_at(data, i))[k] == data[16 * i + k],
{
    lemma_bytes_of_value(data.subrange(16 * (i as int), 16 * (i as int) + 16));
}

/// A block ahead of the last one, read off the message that was decrypted to.
pub proof fn lemma_opened_block(key: Seq<u8>, start: u128, cipher: Seq<u8>, i: nat)
    requires
        i < leading_blocks(cipher.len()),
    ensures
        block_at(opened_text(key, start, cipher), i) == opened_block(key, start, cipher, i),
{
    let plain = opened_text(key, start, cipher);
    let block = opened_block(key, start, cipher, i);
    assert(plain.subrange(16 * (i as int), 16 * (i as int) + 16) =~= be_bytes(block));
    lemma_value_of_bytes(block);
}

/// The last block of a ciphertext, filled up with zeros.
pub open spec fn zero_filled(cipher: Seq<u8>) -> Seq<u8> {
    let n = leading_blocks(cipher.len());
    Seq::new(
        16,
        |k: int|
            if k < cipher.len() - 16 * n {
                cipher[16 * n + k]
            } else {
                0
            },
    )
}

/// The last block, read off the message that was decrypted to.
pub proof fn lemma_opened_last_block(key: Seq<u8>, start: u128, cipher: Seq<u8>)
    ensures
        be_value(zero_filled(cipher)) ^ last_pad(key, start, cipher.len()) == last_block(
            opened_text(key, start, cipher),
            last_pad(key, start, cipher.len()),
        ),
{
    let n = leading_blocks(cipher.len());
    let plain = opened_text(key, start, cipher);
    let pad = last_pad(key, start, cipher.len());
    let filled = be_value(zero_filled(cipher));
    let wanted = Seq::new(
        16,
        |k: int|
            if k < plain.len() - 16 * n {
                plain[16 * n + k]
            } else {
                be_bytes(pad)[k]
            },
    );
    lemma_bytes_of_value(zero_filled(cipher));
    lemma_xor_bytes(filled, pad);
    assert forall|k: int| 0 <= k < 16 implies #[trigger] be_bytes(filled ^ pad)[k]
        == wanted[k] by {
        let b = be_bytes(pad)[k];
        assert(0u8 ^ b == b) by (bit_vector);
    }
    assert(be_bytes(filled ^ pad) =~= wanted);
    lemma_value_of_bytes(filled ^ pad);
}

/// The last block of a message, encrypted byte by byte.
pub proof fn lemma_sealed_last_block(plain: Seq<u8>, pad: u128)
    ensures
        forall|k: int|
            0 <= k < plain.len() - 16 * leading_blocks(plain.len()) ==> #[trigger] be_bytes(
                pad ^ last_block(plain, pad),
            )[k] == plain[16 * leading_blocks(plain.len()) + k] ^ be_bytes(pad)[k],
{
    let n = leading_blocks(plain.len());
    let filled = Seq::new(
        16,
        |k: int|
            if k < plain.len() - 16 * n {
                plain[16 * n + k]
            } else {
                be_bytes(pad)[k]
            },
    );
    lemma_bytes_of_value(filled);
    lemma_xor_bytes(pad, last_block(plain, pad));
    assert forall|k: int| 0 <= k < plain.len() - 16 * n implies #[trigger] be_bytes(
        pad ^ last_block(plain, pad),
    )[k] == plain[16 * n + k] ^ be_bytes(pad)[k] by {
        let a = plain[16 * n + k];
        let b = be_bytes(pad)[k];
        assert(b ^ a == a ^ b) by (bit_vector);
    }
}

/// Decrypting what a message was encrypted to, under the same key and start,
/// gives the message.
pub proof fn law_opening_undoes_sealing(key: Seq<u8>, start: u128, plain: Seq<u8>)
    requires
        reversible(key),
    ensures
        opened_text(key, start, sealed_text(key, start, plain)) == plain,
{
    let cipher = sealed_text(key, start, plain);
    let n = leading_blocks(plain.len());
    let back = opened_text(key, start, cipher);
    assert(cipher.len() == plain.len());
    assert forall|j: int| 0 <= j < plain.len() implies #[trigger] back[j] == plain[j] by {
        if j < 16 * n {
            let i = (j / 16) as nat;
            let k = j % 16;
            assert(16 * i + k == j);
            assert(i < n);
            assert(16 * i + 16 <= plain.len());
            let sealed = sealed_block(key, start, plain, i);
            let delta = offset(key, start, i + 1);
            assert(cipher.subrange(16 * (i as int), 16 * (i as int) + 16) =~= be_bytes(sealed));
            lemma_value_of_bytes(sealed);
            assert(block_at(cipher, i) == sealed);
            let p = block_at(plain, i);
            let e = enciphered(key, delta ^ p);
            assert(sealed == e ^ delta);
            lemma_xor_cancels(delta, e);
            lemma_deciphered(key, delta ^ p);
            lemma_xor_cancels(p, delta);
            lemma_xor_cancels(delta, p);
            assert(opened_block(key, start, cipher, i) == p);
            lemma_byte_of_block(plain, i, k);
        } else {
            let a = plain[j];
            let b = be_bytes(last_pad(key, start, plain.len()))[j - 16 * n];
            assert((a ^ b) ^ b == a) by (bit_vector);
        }
    }
    assert(back =~= plain);
}

/// Encrypting what a ciphertext was decrypted to, under the same key and start,
/// gives the ciphertext.
pub proof fn law_sealing_undoes_opening(key: Seq<u8>, start: u128, cipher: Seq<u8>)
    requires
        reversible(key),
    ensures
        sealed_text(key, start, opened_text(key, start, cipher)) == cipher,
{
    let plain = opened_text(key, start, cipher);
    let n = leading_blocks(cipher.len());
    let back = sealed_text(key, start, plain);
    assert(plain.len() == cipher.len());
    assert forall|j: int| 0 <= j < cipher.len() implies #[trigger] back[j] == cipher[j] by {
        if j < 16 * n {
            let i = (j / 16) as nat;
            let k = j % 16;
            assert(16 * i + k == j);
            assert(i < n);
            assert(16 * i + 16 <= cipher.len());
            lemma_opened_block(key, start, cipher, i);
            let delta = offset(key, start, i + 1);
            let c = block_at(cipher, i);
            let d = deciphered(key, delta ^ c);
            lemma_xor_cancels(delta, d);
            lemma_enciphered(key, delta ^ c);
            lemma_xor_cancels(c, delta);
            lemma_xor_cancels(delta, c);
            assert(sealed_block(key, start, plain, i) == c);
            lemma_byte_of_block(cipher, i, k);
        } else {
            let a = cipher[j];
            let b = be_bytes(last_pad(key, start, cipher.len()))[j - 16 * n];
            assert((a ^ b) ^ b == a) by (bit_vector);
        }
    }
    assert(back =~= cipher);
}

/// On numbers the cipher does what it does on their bytes.
pub proof fn law_cipher_works_on_bytes(key: Seq<u8>, block: u128)
    requires
        reversible(key),
    ensures
        be_bytes(enciphered(key, block)) == aes128_encrypted(key, be_bytes(block)),
        be_bytes(deciphered(key, block)) == aes128_decrypted(key, be_bytes(block)),
{
    assert(be_bytes(block).len() == 16);
    lemma_bytes_of_value(aes128_encrypted(key, be_bytes(block)));
    lemma_bytes_of_value(aes128_decrypted(key, be_bytes(block)));
}

/// The first offset is the enciphered start, and each one is the double of the one
/// before.
proof fn lemma_offset(key: Seq<u8>, start: u128, i: nat)
    ensures
        offset(key, start, i) == times_x(be_value(aes128_encrypted(key, be_bytes(start))), i),
    decreases i,
{
    if i > 0 {
        lemma_offset(key, start, (i - 1) as nat);
    }
}

/// Every block ahead of the last one is enciphered between two exclusive ors with
/// its offset: the enciphered start, doubled once for each block up to this one.
pub proof fn law_every_leading_block_is_enciphered(
    key: Seq<u8>,
    start: u128,
    plain: Seq<u8>,
    i: nat,
)
    requires
        16 * i + 16 < plain.len(),
    ensures
        ({
            let at = 16 * (i as int);
            let delta = times_x(be_value(aes128_encrypted(key, be_bytes(start))), i + 1);
            let block = be_value(plain.subrange(at, at + 16));
            &&& sealed_text(key, start, plain).len() == plain.len()
            &&& sealed_text(key, start, plain).subrange(at, at + 16) == be_bytes(
                be_value(aes128_encrypted(key, be_bytes(delta ^ block))) ^ delta,
            )
        }),
{
    let at = 16 * (i as int);
    lemma_offset(key, start, i + 1);
    assert(sealed_text(key, start, plain).subrange(at, at + 16) =~= be_bytes(
        sealed_block(key, start, plain, i),
    ));
}

/// Every block ahead of the last one is deciphered between two exclusive ors with
/// its offset.
pub proof fn law_every_leading_block_is_deciphered(
    key: Seq<u8>,
    start: u128,
    cipher: Seq<u8>,
    i: nat,
)
    requires
        16 * i + 16 < cipher.len(),
    ensures
        ({
            let at = 16 * (i as int);
            let delta = times_x(be_value(aes128_encrypted(key, be_bytes(start))), i + 1);
            let block = be_value(cipher.subrange(at, at + 16));
            &&& opened_text(key, start, cipher).len() == cipher.len()
            &&& opened_text(key, start, cipher).subrange(at, at + 16) == be_bytes(
                be_value(aes128_decrypted(key, be_bytes(delta ^ block))) ^ delta,
            )
        }),
{
    let at = 16 * (i as int);
    lemma_offset(key, start, i + 1);
    assert(opened_text(key, start, cipher).subrange(at, at + 16) =~= be_bytes(
        opened_block(key, start, cipher, i),
    ));
}

/// The last block, of one to sixteen bytes, is combined with a pad in either
/// direction: its length in bits, combined with its offset, and enciphered.
pub proof fn law_last_block_is_padded(key: Seq<u8>, start: u128, text: Seq<u8>, n: nat, k: int)
    requires
        16 * n < text.len() <= 16 * n + 16,
        0 <= k < text.len() - 16 * n,
    ensures
        ({
            let at = 16 * n + k;
            let delta = times_x(be_value(aes128_encrypted(key, be_bytes(start))), n + 1);
            let bits = (8 * (text.len() - 16 * n)) as u128;
            let pad = be_bytes(be_value(aes128_encrypted(key, be_bytes(bits ^ delta))));
            &&& sealed_text(key, start, text)[at] == text[at] ^ pad[k]
            &&& opened_text(key, start, text)[at] == text[at] ^ pad[k]
            &&& sealed_text(key, start, text).len() == text.len()
            &&& opened_text(key, start, text).len() == text.len()
        }),
{
    lemma_offset(key, start, n + 1);
    assert(leading_blocks(text.len()) == n);
}

/// The first `m` blocks of `data`.
spec fn blocks_of(data: Seq<u8>, m: nat) -> Seq<u128> {
    Seq::new(m, |i: int| be_value(data.subrange(16 * i, 16 * i + 16)))
}

proof fn lemma_xor_of_blocks(data: Seq<u8>, m: nat)
    ensures
        xor_of_blocks(data, m) == xor_sum(blocks_of(data, m)),
    decreases m,
{
    if m > 0 {
        lemma_xor_of_blocks(data, (m - 1) as nat);
        assert(blocks_of(data, m).drop_last() =~= blocks_of(data, (m - 1) as nat));
    }
}

/// The tag covers the whole message: it is the exclusive or of all blocks, the last
/// one filled up from its pad, enciphered under three times the last offset.
pub proof fn law_tag_covers_every_block(key: Seq<u8>, start: u128, plain: Seq<u8>, n: nat)
    requires
        16 * n < plain.len() <= 16 * n + 16 || (n == 0 && plain.len() == 0),
    ensures
        ({
            let rest = plain.len() - 16 * n;
            let delta = times_x(be_value(aes128_encrypted(key, be_bytes(start))), n + 1);
            let pad = be_value(aes128_encrypted(key, be_bytes(((8 * rest) as u128) ^ delta)));
            let leading = Seq::new(
                n,
                |i: int| be_value(plain.subrange(16 * i, 16 * i + 16)),
            );
            let last = be_value(plain.skip(16 * n as int) + be_bytes(pad).skip(rest));
            let sum = xor_sum(leading.push(last));
            ocb_tag(key, start, plain) == be_value(
                aes128_encrypted(key, be_bytes(delta ^ doubled(delta) ^ sum)),
            )
        }),
{
    let rest = plain.len() - 16 * n;
    let delta = times_x(be_value(aes128_encrypted(key, be_bytes(start))), n + 1);
    let pad = be_value(aes128_encrypted(key, be_bytes(((8 * rest) as u128) ^ delta)));
    let leading = Seq::new(n, |i: int| be_value(plain.subrange(16 * i, 16 * i + 16)));
    let last = be_value(plain.skip(16 * n as int) + be_bytes(pad).skip(rest));
    assert(leading_blocks(plain.len()) == n);
    lemma_offset(key, start, n + 1);
    assert(pad == last_pad(key, start, plain.len()));
    lemma_xor_of_blocks(plain, n);
    assert(leading =~= blocks_of(plain, n));
    assert(leading.push(last).drop_last() =~= leading);
    let filled = Seq::new(
        16,
        |k: int|
            if k < plain.len() - 16 * n {
                plain[16 * n + k]
            } else {
                be_bytes(pad)[k]
            },
    );
    assert(plain.skip(16 * n as int) + be_bytes(pad).skip(rest) =~= filled);
    assert(last == last_block(plain, pad));
}

/// The sums of two messages that differ in one block differ by what the block does.
proof fn lemma_one_block_differs(a: Seq<u8>, b: Seq<u8>, i: nat, m: nat)
    requires
        a.len() == b.len(),
        16 * m <= a.len(),
        forall|j: int| 0 <= j < a.len() && !(16 * i <= j < 16 * i + 16) ==> a[j] == b[j],
    ensures
        xor_of_blocks(a, m) ^ xor_of_blocks(b, m) == if i < m {
            block_at(a, i) ^ block_at(b, i)
        } else {
            0
        },
    decreases m,
{
    if m == 0 {
        assert(0u128 ^ 0u128 == 0u128) by (bit_vector);
    } else {
        let p = (m - 1) as nat;
        lemma_one_block_differs(a, b, i, p);
        let (s, t) = (xor_of_blocks(a, p), xor_of_blocks(b, p));
        let (x, y) = (block_at(a, p), block_at(b, p));
        assert((s ^ x) ^ (t ^ y) == (s ^ t) ^ (x ^ y)) by (bit_vector);
        if i != p {
            assert(a.subrange(16 * (p as int), 16 * (p as int) + 16) =~= b.subrange(
                16 * (p as int),
                16 * (p as int) + 16,
            ));
            let d = s ^ t;
            assert(x ^ x == 0 && d ^ 0 == d) by (bit_vector);
        } else {
            let d = x ^ y;
            assert(0u128 ^ d == d) by (bit_vector);
        }
    }
}

/// Two messages of one length that differ in one block only, whichever it is, have
/// different tags.
pub proof fn law_tag_tells_altered_messages(
    key: Seq<u8>,
    start: u128,
    a: Seq<u8>,
    b: Seq<u8>,
    i: nat,
)
    requires
        reversible(key),
        a.len() == b.len(),
        a != b,
        forall|j: int| 0 <= j < a.len() && !(16 * i <= j < 16 * i + 16) ==> a[j] == b[j],
    ensures
        ocb_tag(key, start, a) != ocb_tag(key, start, b),
{
    let n = leading_blocks(a.len());
    let pad = last_pad(key, start, a.len());
    let delta = offset(key, start, n + 1);
    let twice = delta ^ doubled(delta);
    let (s, t) = (xor_of_blocks(a, n), xor_of_blocks(b, n));
    let (x, y) = (last_block(a, pad), last_block(b, pad));
    lemma_one_block_differs(a, b, i, n);
    law_cipher_is_a_bijection(key, twice ^ (s ^ x), twice ^ (t ^ y));
    assert(twice ^ (s ^ x) == twice ^ (t ^ y) ==> (s ^ t) == (x ^ y)) by (bit_vector);
    let filled = |m: Seq<u8>|
        Seq::new(
            16,
            |k: int|
                if k < m.len() - 16 * n {
                    m[16 * n + k]
                } else {
                    be_bytes(pad)[k]
                },
        );
    if i < n {
        assert(filled(a) =~= filled(b));
        assert(x == y);
        let (p, q) = (block_at(a, i), block_at(b, i));
        assert(x ^ x == 0 && (p ^ q == 0 ==> p == q)) by (bit_vector);
        let j = choose|j: int| 0 <= j < a.len() && a[j] != b[j];
        if a.len() == b.len() && forall|j: int| 0 <= j < a.len() ==> a[j] == b[j] {
            assert(a =~= b);
        }
        lemma_byte_of_block(a, i, j - 16 * i);
        lemma_byte_of_block(b, i, j - 16 * i);
    } else {
        assert(x ^ y == 0 ==> x == y) by (bit_vector);
        if forall|j: int| 0 <= j < a.len() ==> a[j] == b[j] {
            assert(a =~= b);
        }
        let j = choose|j: int| 0 <= j < a.len() && a[j] != b[j];
        lemma_bytes_of_value(filled(a));
        lemma_bytes_of_value(filled(b));
        assert(filled(a)[j - 16 * n] != filled(b)[j - 16 * n]);
    }
}

} // verus!
