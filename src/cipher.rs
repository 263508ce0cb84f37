//! Corrected Block TEA (XXTEA) over little-endian 32-bit words, with the
//! container's fixed 128-bit key.
use vstd::prelude::*;
use vstd::wrapping::u32_specs::{wrapping_add, wrapping_sub};

verus! {

pub const DELTA: u32 = 0x9e3779b9;

pub const KEY_0: u32 = 0x3d5b2a34;

pub const KEY_1: u32 = 0x923fff10;

pub const KEY_2: u32 = 0x00e346a4;

pub const KEY_3: u32 = 0x0c74902b;

/// Word `i` of the fixed key (only the two low bits of `i` matter).
pub open spec fn key_word(i: u32) -> u32 {
    if i & 3 == 0 {
        KEY_0
    } else if i & 3 == 1 {
        KEY_1
    } else if i & 3 == 2 {
        KEY_2
    } else {
        KEY_3
    }
}

/// The XXTEA mixing function for position `p`, running sum `sum`, right
/// neighbour `y` and left neighbour `z`.
pub open spec fn mix(sum: u32, y: u32, z: u32, p: int) -> u32 {
    let e = (sum >> 2u32) & 3u32;
    let k = key_word(((p % 4) as u32) ^ e);
    wrapping_add((z >> 5u32) ^ (y << 2u32), (y >> 3u32) ^ (z << 4u32)) ^ wrapping_add(
        sum ^ y,
        k ^ z,
    )
}

pub open spec fn next_index(n: int, p: int) -> int {
    if p + 1 == n {
        0
    } else {
        p + 1
    }
}

pub open spec fn prev_index(n: int, p: int) -> int {
    if p == 0 {
        n - 1
    } else {
        p - 1
    }
}

pub open spec fn step_mix(v: Seq<u32>, sum: u32, p: int) -> u32 {
    mix(sum, v[next_index(v.len() as int, p)], v[prev_index(v.len() as int, p)], p)
}

/// One encryption step: word `p` absorbs the mix of its two neighbours.
pub open spec fn forward_step(v: Seq<u32>, sum: u32, p: int) -> Seq<u32> {
    v.update(p, wrapping_add(v[p], step_mix(v, sum, p)))
}

/// One decryption step: word `p` gives back the mix of its two neighbours.
pub open spec fn backward_step(v: Seq<u32>, sum: u32, p: int) -> Seq<u32> {
    v.update(p, wrapping_sub(v[p], step_mix(v, sum, p)))
}

/// The encryption steps at positions `0 .. count`, in increasing order.
pub open spec fn forward_steps(v: Seq<u32>, sum: u32, count: nat) -> Seq<u32>
    decreases count,
{
    if count == 0 {
        v
    } else {
        forward_step(forward_steps(v, sum, (count - 1) as nat), sum, count - 1)
    }
}

/// The decryption steps at positions `v.len() - 1` down to `i`.
pub open spec fn backward_from(v: Seq<u32>, sum: u32, i: int) -> Seq<u32>
    decreases v.len() - i,
{
    if i < 0 || i >= v.len() {
        v
    } else {
        backward_step(backward_from(v, sum, i + 1), sum, i)
    }
}

/// The running sum of round `r` (counted from 1).
pub open spec fn round_sum(r: int) -> u32 {
    ((r * DELTA) % 0x1_0000_0000) as u32
}

/// Number of rounds for a block of `n` words.
pub open spec fn round_count(n: int) -> int {
    6 + 52int / n
}

/// Rounds `1 ..= r` of encryption.
pub open spec fn encrypt_rounds(v: Seq<u32>, r: nat) -> Seq<u32>
    decreases r,
{
    if r == 0 {
        v
    } else {
        forward_steps(encrypt_rounds(v, (r - 1) as nat), round_sum(r as int), v.len())
    }
}

/// Decryption of rounds `total` down to `j + 1`.
pub open spec fn decrypt_rounds_from(v: Seq<u32>, total: int, j: int) -> Seq<u32>
    decreases total - j,
{
    if j < 0 || j >= total {
        v
    } else {
        backward_from(decrypt_rounds_from(v, total, j + 1), round_sum(j + 1), 0)
    }
}

/// XXTEA encryption of a block of words; blocks of fewer than two words are
/// left as they are.
pub open spec fn encrypt_words(v: Seq<u32>) -> Seq<u32> {
    if v.len() < 2 {
        v
    } else {
        encrypt_rounds(v, round_count(v.len() as int) as nat)
    }
}

/// XXTEA decryption of a block of words; blocks of fewer than two words are
/// left as they are.
pub open spec fn decrypt_words(v: Seq<u32>) -> Seq<u32> {
    if v.len() < 2 {
        v
    } else {
        decrypt_rounds_from(v, round_count(v.len() as int), 0)
    }
}

pub proof fn lemma_forward_steps_len(v: Seq<u32>, sum: u32, count: nat)
    requires
        count <= v.len(),
    ensures
        forward_steps(v, sum, count).len() == v.len(),
    decreases count,
{
    if count > 0 {
        lemma_forward_steps_len(v, sum, (count - 1) as nat);
    }
}

pub proof fn lemma_backward_from_len(v: Seq<u32>, sum: u32, i: int)
    ensures
        backward_from(v, sum, i).len() == v.len(),
    decreases v.len() - i,
{
    if 0 <= i < v.len() {
        lemma_backward_from_len(v, sum, i + 1);
    }
}

pub proof fn lemma_step_inverse(v: Seq<u32>, sum: u32, p: int)
    requires
        v.len() >= 2,
        0 <= p < v.len(),
    ensures
        backward_step(forward_step(v, sum, p), sum, p) == v,
{
    let w = forward_step(v, sum, p);
    assert(step_mix(w, sum, p) == step_mix(v, sum, p));
    assert(backward_step(w, sum, p) =~= v);
}

pub proof fn lemma_undo_steps(v: Seq<u32>, sum: u32, i: int)
    requires
        v.len() >= 2,
        0 <= i <= v.len(),
    ensures
        backward_from(forward_steps(v, sum, v.len()), sum, i) == forward_steps(v, sum, i as nat),
    decreases v.len() - i,
{
    let full = forward_steps(v, sum, v.len());
    lemma_forward_steps_len(v, sum, v.len());
    if i < v.len() {
        lemma_undo_steps(v, sum, i + 1);
        lemma_forward_steps_len(v, sum, i as nat);
        lemma_step_inverse(forward_steps(v, sum, i as nat), sum, i);
    }
}

pub proof fn lemma_encrypt_rounds_len(v: Seq<u32>, r: nat)
    ensures
        encrypt_rounds(v, r).len() == v.len(),
    decreases r,
{
    if r > 0 {
        lemma_encrypt_rounds_len(v, (r - 1) as nat);
        lemma_forward_steps_len(encrypt_rounds(v, (r - 1) as nat), round_sum(r as int), v.len());
    }
}

pub proof fn lemma_decrypt_rounds_len(v: Seq<u32>, total: int, j: int)
    ensures
        decrypt_rounds_from(v, total, j).len() == v.len(),
    decreases total - j,
{
    if 0 <= j < total {
        lemma_decrypt_rounds_len(v, total, j + 1);
        lemma_backward_from_len(decrypt_rounds_from(v, total, j + 1), round_sum(j + 1), 0);
    }
}

pub proof fn lemma_undo_rounds(v: Seq<u32>, total: nat, j: int)
    requires
        v.len() >= 2,
        0 <= j <= total,
    ensures
        decrypt_rounds_from(encrypt_rounds(v, total), total as int, j) == encrypt_rounds(
            v,
            j as nat,
        ),
    decreases total - j,
{
    if j < total {
        lemma_undo_rounds(v, total, j + 1);
        let before = encrypt_rounds(v, j as nat);
        lemma_encrypt_rounds_len(v, j as nat);
        lemma_undo_steps(before, round_sum(j + 1), 0);
    }
}

/// Decrypting an encrypted block of words gives the block back.
pub proof fn lemma_decrypt_encrypt_words(v: Seq<u32>)
    ensures
        decrypt_words(encrypt_words(v)) == v,
{
    if v.len() >= 2 {
        let total = round_count(v.len() as int) as nat;
        lemma_encrypt_rounds_len(v, total);
        lemma_undo_rounds(v, total, 0);
    }
}

/// Little-endian word of four bytes.
pub open spec fn le32(b0: u8, b1: u8, b2: u8, b3: u8) -> u32 {
    (b0 as u32) | ((b1 as u32) << 8u32) | ((b2 as u32) << 16u32) | ((b3 as u32) << 24u32)
}

/// Byte `k` (0 = least significant) of a word.
pub open spec fn byte_of(w: u32, k: int) -> u8 {
    if k == 0 {
        (w & 0xffu32) as u8
    } else if k == 1 {
        ((w >> 8u32) & 0xffu32) as u8
    } else if k == 2 {
        ((w >> 16u32) & 0xffu32) as u8
    } else {
        ((w >> 24u32) & 0xffu32) as u8
    }
}

/// The little-endian words of a byte string (a trailing partial word is dropped).
pub open spec fn words_of(b: Seq<u8>) -> Seq<u32> {
    Seq::new(b.len() / 4, |i: int| le32(b[4 * i], b[4 * i + 1], b[4 * i + 2], b[4 * i + 3]))
}

/// The little-endian bytes of a sequence of words.
pub open spec fn bytes_of(w: Seq<u32>) -> Seq<u8> {
    Seq::new(4 * w.len(), |i: int| byte_of(w[i / 4], i % 4))
}

/// The cipher applied to a byte buffer, word by little-endian word.
pub open spec fn encrypt_bytes(b: Seq<u8>) -> Seq<u8> {
    bytes_of(encrypt_words(words_of(b)))
}

/// The inverse cipher applied to a byte buffer, word by little-endian word.
pub open spec fn decrypt_bytes(b: Seq<u8>) -> Seq<u8> {
    bytes_of(decrypt_words(words_of(b)))
}

pub proof fn lemma_word_bytes(b0: u8, b1: u8, b2: u8, b3: u8, w: u32)
    requires
        w == le32(b0, b1, b2, b3),
    ensures
        byte_of(w, 0) == b0,
        byte_of(w, 1) == b1,
        byte_of(w, 2) == b2,
        byte_of(w, 3) == b3,
{
    assert(w == (b0 as u32) | ((b1 as u32) << 8u32) | ((b2 as u32) << 16u32) | ((b3 as u32)
        << 24u32) ==> (w & 0xffu32) as u8 == b0 && ((w >> 8u32) & 0xffu32) as u8 == b1 && ((w
        >> 16u32) & 0xffu32) as u8 == b2 && ((w >> 24u32) & 0xffu32) as u8 == b3) by (bit_vector);
}

pub proof fn lemma_bytes_word(w: u32)
    ensures
        le32(byte_of(w, 0), byte_of(w, 1), byte_of(w, 2), byte_of(w, 3)) == w,
{
    assert(((w & 0xffu32) as u8 as u32) | ((((w >> 8u32) & 0xffu32) as u8 as u32) << 8u32) | ((((w
        >> 16u32) & 0xffu32) as u8 as u32) << 16u32) | ((((w >> 24u32) & 0xffu32) as u8 as u32)
        << 24u32) == w) by (bit_vector);
}

pub proof fn lemma_words_of_bytes_of(w: Seq<u32>)
    ensures
        words_of(bytes_of(w)) == w,
{
    let b = bytes_of(w);
    assert forall|i: int| 0 <= i < w.len() implies #[trigger] words_of(b)[i] == w[i] by {
        assert((4 * i) / 4 == i && (4 * i + 1) / 4 == i && (4 * i + 2) / 4 == i && (4 * i + 3) / 4
            == i);
        assert((4 * i) % 4 == 0 && (4 * i + 1) % 4 == 1 && (4 * i + 2) % 4 == 2 && (4 * i + 3) % 4
            == 3);
        lemma_bytes_word(w[i]);
    }
    assert(words_of(b) =~= w);
}

pub proof fn lemma_bytes_of_words_of(b: Seq<u8>)
    requires
        b.len() % 4 == 0,
    ensures
        bytes_of(words_of(b)) == b,
{
    let w = words_of(b);
    assert forall|j: int| 0 <= j < b.len() implies #[trigger] bytes_of(w)[j] == b[j] by {
        let i = j / 4;
        assert(0 <= i < w.len());
        assert(j == 4 * i + j % 4);
        lemma_word_bytes(b[4 * i], b[4 * i + 1], b[4 * i + 2], b[4 * i + 3], w[i]);
    }
    assert(bytes_of(w) =~= b);
}

/// Decrypting an encrypted buffer whose length is a multiple of four gives
/// the buffer back.
pub proof fn lemma_decrypt_encrypt(b: Seq<u8>)
    requires
        b.len() % 4 == 0,
    ensures
        decrypt_bytes(encrypt_bytes(b)) == b,
{
    let w = words_of(b);
    lemma_words_of_bytes_of(encrypt_words(w));
    lemma_decrypt_encrypt_words(w);
    lemma_bytes_of_words_of(b);
}

fn key_at(i: u32) -> (r: u32)
    ensures
        r == key_word(i),
{
    let j = i & 3;
    if j == 0 {
        KEY_0
    } else if j == 1 {
        KEY_1
    } else if j == 2 {
        KEY_2
    } else {
        KEY_3
    }
}

fn mix_at(sum: u32, y: u32, z: u32, p: usize) -> (r: u32)
    ensures
        r == mix(sum, y, z, p as int),
{
    let e = (sum >> 2) & 3;
    let k = key_at(((p % 4) as u32) ^ e);
    ((z >> 5) ^ (y << 2)).wrapping_add((y >> 3) ^ (z << 4)) ^ (sum ^ y).wrapping_add(k ^ z)
}

fn round_sum_at(r: usize) -> (s: u32)
    requires
        r <= 64,
    ensures
        s == round_sum(r as int),
{
    let d: u64 = DELTA as u64;
    let r64: u64 = r as u64;
    assert(r64 * d <= 64 * 0xffff_ffff) by (nonlinear_arith)
        requires
            r64 <= 64,
            d <= 0xffff_ffff,
    ;
    ((r64 * d) % 0x1_0000_0000) as u32
}

/// Encrypts a block of words in place.
pub fn encrypt_block(v: &mut Vec<u32>)
    ensures
        final(v)@.len() == old(v)@.len(),
        final(v)@ == encrypt_words(old(v)@),
{
    let n = v.len();
    if n < 2 {
        return;
    }
    let ghost v0 = v@;
    let rounds: usize = 6 + 52 / n;
    let mut r: usize = 0;
    while r < rounds
        invariant
            n == v0.len(),
            n >= 2,
            rounds == round_count(n as int),
            r <= rounds,
            v@ == encrypt_rounds(v0, r as nat),
        decreases rounds - r,
    {
        r += 1;
        let sum = round_sum_at(r);
        let ghost before = v@;
        proof {
            lemma_encrypt_rounds_len(v0, (r - 1) as nat);
        }
        let mut p: usize = 0;
        while p < n
            invariant
                n == before.len(),
                n >= 2,
                p <= n,
                v@ == forward_steps(before, sum, p as nat),
            decreases n - p,
        {
            proof {
                lemma_forward_steps_len(before, sum, p as nat);
            }
            let y = v[if p + 1 == n { 0 } else { p + 1 }];
            let z = v[if p == 0 { n - 1 } else { p - 1 }];
            let m = mix_at(sum, y, z, p);
            let x = v[p].wrapping_add(m);
            v.set(p, x);
            p += 1;
        }
    }
    proof {
        lemma_encrypt_rounds_len(v0, rounds as nat);
    }
}

/// Decrypts a block of words in place.
pub fn decrypt_block(v: &mut Vec<u32>)
    ensures
        final(v)@.len() == old(v)@.len(),
        final(v)@ == decrypt_words(old(v)@),
{
    let n = v.len();
    if n < 2 {
        return;
    }
    let ghost v0 = v@;
    let rounds: usize = 6 + 52 / n;
    let mut r: usize = rounds;
    while r > 0
        invariant
            n == v0.len(),
            n >= 2,
            rounds == round_count(n as int),
            r <= rounds,
            v@ == decrypt_rounds_from(v0, rounds as int, r as int),
            v@.len() == n,
        decreases r,
    {
        let sum = round_sum_at(r);
        let ghost before = v@;
        let mut p: usize = n;
        while p > 0
            invariant
                n == before.len(),
                n >= 2,
                p <= n,
                v@ == backward_from(before, sum, p as int),
            decreases p,
        {
            proof {
                lemma_backward_from_len(before, sum, p as int);
            }
            p -= 1;
            let y = v[if p + 1 == n { 0 } else { p + 1 }];
            let z = v[if p == 0 { n - 1 } else { p - 1 }];
            let m = mix_at(sum, y, z, p);
            let x = v[p].wrapping_sub(m);
            v.set(p, x);
        }
        proof {
            lemma_backward_from_len(before, sum, 0);
        }
        r -= 1;
    }
    proof {
        lemma_decrypt_rounds_len(v0, rounds as int, 0);
    }
}

fn words_from_bytes(b: &Vec<u8>) -> (w: Vec<u32>)
    ensures
        w@ == words_of(b@),
{
    let len = b.len();
    let n = len / 4;
    let mut w: Vec<u32> = Vec::with_capacity(n);
    let mut i: usize = 0;
    while i < n
        invariant
            len == b@.len(),
            n == len / 4,
            4 * n <= len,
            i <= n,
            w@.len() == i,
            forall|j: int| 0 <= j < i ==> #[trigger] w@[j] == words_of(b@)[j],
        decreases n - i,
    {
        let x = (b[4 * i] as u32) | ((b[4 * i + 1] as u32) << 8) | ((b[4 * i + 2] as u32) << 16)
            | ((b[4 * i + 3] as u32) << 24);
        w.push(x);
        i += 1;
    }
    assert(w@ =~= words_of(b@));
    w
}

fn bytes_from_words(w: &Vec<u32>) -> (b: Vec<u8>)
    requires
        4 * w@.len() <= usize::MAX,
    ensures
        b@ == bytes_of(w@),
{
    let n = w.len();
    let mut b: Vec<u8> = Vec::with_capacity(4 * n);
    let mut i: usize = 0;
    while i < n
        invariant
            n == w@.len(),
            4 * n <= usize::MAX,
            i <= n,
            b@.len() == 4 * i,
            forall|j: int| 0 <= j < 4 * i ==> #[trigger] b@[j] == bytes_of(w@)[j],
        decreases n - i,
    {
        let x = w[i];
        b.push((x & 0xff) as u8);
        b.push(((x >> 8) & 0xff) as u8);
        b.push(((x >> 16) & 0xff) as u8);
        b.push(((x >> 24) & 0xff) as u8);
        assert forall|j: int| 4 * i <= j < 4 * i + 4 implies #[trigger] b@[j] == bytes_of(w@)[j] by {
            assert(j / 4 == i);
        }
        i += 1;
    }
    assert(b@ =~= bytes_of(w@));
    b
}

/// Encrypts a buffer in place with the fixed key.
pub fn encrypt(buf: &mut Vec<u8>)
    requires
        old(buf)@.len() % 4 == 0,
    ensures
        final(buf)@ == encrypt_bytes(old(buf)@),
{
    let len = buf.len();
    let mut w = words_from_bytes(buf);
    assert(4 * w@.len() <= len);
    encrypt_block(&mut w);
    *buf = bytes_from_words(&w);
}

/// Decrypts a buffer in place with the fixed key.
pub fn decrypt(buf: &mut Vec<u8>)
    requires
        old(buf)@.len() % 4 == 0,
    ensures
        final(buf)@ == decrypt_bytes(old(buf)@),
{
    let len = buf.len();
    let mut w = words_from_bytes(buf);
    assert(4 * w@.len() <= len);
    decrypt_block(&mut w);
    *buf = bytes_from_words(&w);
}

} // verus!
