//! The SR2Private stream transform.
//!
//! Sony raw files hold calibration tags in an encrypted sub-region. The
//! cipher XORs each 32-bit word of the region with a keystream derived from a
//! 32-bit key: 128 pad words are seeded by a linear-congruential recurrence
//! and a lagged-Fibonacci fill, then the pad rolls forward one word per word
//! of data. XOR makes the transform its own inverse (`lemma_sony_self_inverse`).

use crate::bytes::{lemma_u32_from_to_bytes, lemma_u32_round_trip, read_u32, spec_u32_at,
    spec_u32_to_bytes, u32_to_bytes};
use vstd::prelude::*;

verus! {

/// One step of the seeding recurrence, with wrapping 32-bit arithmetic.
pub open spec fn spec_lcg_next(k: u32) -> u32 {
    vstd::wrapping::u32_specs::wrapping_add(
        vstd::wrapping::u32_specs::wrapping_mul(k, 48828125),
        1,
    )
}

/// The key after `n` steps of the seeding recurrence.
pub open spec fn spec_lcg(key: u32, n: nat) -> u32
    decreases n,
{
    if n == 0 {
        key
    } else {
        spec_lcg_next(spec_lcg(key, (n - 1) as nat))
    }
}

/// The four bytes of a 32-bit word in reverse order.
pub open spec fn spec_swap_bytes(x: u32) -> u32 {
    (x >> 24) | ((x >> 8) & 0xff00) | ((x << 8) & 0xff0000) | (x << 24)
}

/// Pad word `i` before the final byte swap: four seeded words (the fourth
/// adjusted by one shift-in), then a lagged fill up to word 126; word 127
/// stays zero and is overwritten before its first use.
pub open spec fn spec_pad_pre(key: u32, i: int) -> u32
    decreases i,
{
    if i < 0 {
        0
    } else if i < 3 {
        spec_lcg(key, (i + 1) as nat)
    } else if i == 3 {
        spec_lcg(key, 4) << 1 | (spec_lcg(key, 1) ^ spec_lcg(key, 3)) >> 31
    } else if i < 127 {
        (spec_pad_pre(key, i - 4) ^ spec_pad_pre(key, i - 2)) << 1 | (spec_pad_pre(key, i - 3)
            ^ spec_pad_pre(key, i - 1)) >> 31
    } else {
        0
    }
}

/// The initial 128-word pad derived from `key`.
pub open spec fn spec_pad(key: u32) -> Seq<u32> {
    Seq::new(128, |i: int| spec_swap_bytes(spec_pad_pre(key, i)))
}

/// The keystream word taken at rolling index `p`.
pub open spec fn spec_step_key(pad: Seq<u32>, p: int) -> u32 {
    pad[(p + 1) % 128] ^ pad[(p + 65) % 128]
}

/// The pad after the step at rolling index `p`.
pub open spec fn spec_step_pad(pad: Seq<u32>, p: int) -> Seq<u32> {
    pad.update(p % 128, spec_step_key(pad, p))
}

/// The words of `ws` each XORed with the keystream starting at index `p`.
pub open spec fn spec_sony_words(pad: Seq<u32>, p: int, ws: Seq<u32>) -> Seq<u32>
    decreases ws.len(),
{
    if ws.len() == 0 {
        Seq::empty()
    } else {
        seq![ws[0] ^ spec_step_key(pad, p)] + spec_sony_words(
            spec_step_pad(pad, p),
            p + 1,
            ws.drop_first(),
        )
    }
}

/// The 32-bit words of `data` in the given byte order; a trailing fragment
/// shorter than four bytes is dropped.
pub open spec fn spec_words_of(data: Seq<u8>, is_le: bool) -> Seq<u32> {
    Seq::new(data.len() / 4, |i: int| spec_u32_at(data, 4 * i, is_le))
}

/// The bytes of the words of `ws`, each word in the given byte order.
pub open spec fn spec_bytes_of_words(ws: Seq<u32>, is_le: bool) -> Seq<u8> {
    Seq::new(ws.len() * 4, |i: int| spec_u32_to_bytes(ws[i / 4], is_le)[i % 4])
}

/// What the transform returns: every whole 32-bit word of `data` XORed with
/// the keystream seeded by `key`, re-encoded in the same byte order.
pub open spec fn spec_sony_decrypt(data: Seq<u8>, key: u32, is_le: bool) -> Seq<u8> {
    spec_bytes_of_words(
        spec_sony_words(spec_pad(key), 127, spec_words_of(data, is_le)),
        is_le,
    )
}

/// The transform keeps the word count.
pub proof fn lemma_sony_words_len(pad: Seq<u32>, p: int, ws: Seq<u32>)
    ensures
        spec_sony_words(pad, p, ws).len() == ws.len(),
    decreases ws.len(),
{
    if ws.len() > 0 {
        lemma_sony_words_len(spec_step_pad(pad, p), p + 1, ws.drop_first());
    }
}

/// Applying the word transform twice from the same pad state is the identity:
/// the keystream depends only on the pad and the rolling index, so both
/// passes XOR each word with the same keystream word.
pub proof fn lemma_sony_words_involutive(pad: Seq<u32>, p: int, ws: Seq<u32>)
    ensures
        spec_sony_words(pad, p, spec_sony_words(pad, p, ws)) =~= ws,
    decreases ws.len(),
{
    lemma_sony_words_len(pad, p, ws);
    if ws.len() > 0 {
        let k = spec_step_key(pad, p);
        let pad2 = spec_step_pad(pad, p);
        let inner = spec_sony_words(pad, p, ws);
        assert(inner[0] == ws[0] ^ k);
        assert(inner.drop_first() =~= spec_sony_words(pad2, p + 1, ws.drop_first()));
        lemma_sony_words_involutive(pad2, p + 1, ws.drop_first());
        let w = ws[0];
        assert((w ^ k) ^ k == w) by (bit_vector);
        assert(spec_sony_words(pad, p, inner) =~= seq![(w ^ k) ^ k] + spec_sony_words(
            pad2,
            p + 1,
            inner.drop_first(),
        ));
    }
}

/// Re-reading the bytes of a word sequence gives the words back.
pub proof fn lemma_words_of_bytes_of(ws: Seq<u32>, is_le: bool)
    ensures
        spec_words_of(spec_bytes_of_words(ws, is_le), is_le) =~= ws,
{
    let bs = spec_bytes_of_words(ws, is_le);
    assert forall|i: int| 0 <= i < ws.len() implies spec_words_of(bs, is_le)[i] == ws[i] by {
        assert forall|j: int| 0 <= j < 4 implies bs[4 * i + j] == spec_u32_to_bytes(
            ws[i],
            is_le,
        )[j] by {
            assert((4 * i + j) / 4 == i);
            assert((4 * i + j) % 4 == j);
        }
        assert(spec_u32_at(bs, 4 * i, is_le) == spec_u32_at(spec_u32_to_bytes(ws[i], is_le), 0, is_le));
        lemma_u32_from_to_bytes(ws[i], is_le);
    }
}

/// Re-encoding the words of a whole-word byte sequence gives the bytes back.
pub proof fn lemma_bytes_of_words_of(data: Seq<u8>, is_le: bool)
    requires
        data.len() % 4 == 0,
    ensures
        spec_bytes_of_words(spec_words_of(data, is_le), is_le) =~= data,
{
    let ws = spec_words_of(data, is_le);
    assert forall|i: int| 0 <= i < data.len() implies spec_bytes_of_words(ws, is_le)[i]
        == data[i] by {
        let w = i / 4;
        let j = i % 4;
        assert(i == 4 * w + j);
        let base = 4 * w;
        lemma_u32_round_trip(data[base], data[base + 1], data[base + 2], data[base + 3], is_le);
        assert(spec_u32_at(seq![data[base], data[base + 1], data[base + 2], data[base + 3]], 0, is_le)
            == spec_u32_at(data, base, is_le));
        assert(spec_u32_to_bytes(ws[w], is_le)[j] == data[i]);
    }
}

/// Applying the SR2Private transform twice with the same key is the identity
/// on data whose length is a multiple of four bytes.
pub proof fn lemma_sony_self_inverse(data: Seq<u8>, key: u32, is_le: bool)
    requires
        data.len() % 4 == 0,
    ensures
        spec_sony_decrypt(spec_sony_decrypt(data, key, is_le), key, is_le) == data,
{
    let pad = spec_pad(key);
    let ws = spec_words_of(data, is_le);
    let once_words = spec_sony_words(pad, 127, ws);
    let once = spec_bytes_of_words(once_words, is_le);
    lemma_words_of_bytes_of(once_words, is_le);
    assert(spec_words_of(once, is_le) =~= once_words);
    lemma_sony_words_involutive(pad, 127, ws);
    assert(spec_sony_words(pad, 127, once_words) =~= ws);
    lemma_bytes_of_words_of(data, is_le);
}

/// One exec step of the seeding recurrence.
fn lcg_step(k: u32) -> (r: u32)
    ensures
        r == spec_lcg_next(k),
{
    k.wrapping_mul(48828125).wrapping_add(1)
}

/// Builds the 128-word pad seeded by `key`.
fn sony_pad(key: u32) -> (pad: Vec<u32>)
    ensures
        pad@ == spec_pad(key),
{
    let ghost key0 = key;
    let mut pad: Vec<u32> = Vec::new();
    let mut i: usize = 0;
    while i < 128
        invariant
            pad@.len() == i,
            i <= 128,
            forall|j: int| 0 <= j < i ==> pad@[j] == 0,
        decreases 128 - i,
    {
        pad.push(0);
        i = i + 1;
    }
    let mut key = key;
    let mut i: usize = 0;
    while i < 4
        invariant
            pad@.len() == 128,
            i <= 4,
            key == spec_lcg(key0, i as nat),
            forall|j: int| 0 <= j < i ==> pad@[j] == spec_pad_pre(key0, j),
            forall|j: int| i <= j < 128 ==> pad@[j] == 0,
        decreases 4 - i,
    {
        key = lcg_step(key);
        proof {
            assert(spec_lcg(key0, (i + 1) as nat) == spec_lcg_next(spec_lcg(key0, i as nat)));
        }
        if i < 3 {
            pad[i] = key;
            proof {
                assert(pad@[i as int] == spec_pad_pre(key0, i as int));
            }
        } else {
            // the fourth seeded word folds in one bit of the first and third
            let a = pad[0];
            let c = pad[2];
            proof {
                assert(a == spec_pad_pre(key0, 0));
                assert(c == spec_pad_pre(key0, 2));
                assert(a == spec_lcg(key0, 1));
                assert(c == spec_lcg(key0, 3));
            }
            pad[i] = key << 1 | (a ^ c) >> 31;
            proof {
                assert(pad@[3] == spec_pad_pre(key0, 3));
            }
        }
        i = i + 1;
    }
    let mut i: usize = 4;
    while i < 127
        invariant
            pad@.len() == 128,
            4 <= i <= 127,
            forall|j: int| 0 <= j < i ==> pad@[j] == spec_pad_pre(key0, j),
            forall|j: int| i <= j < 128 ==> pad@[j] == 0,
        decreases 127 - i,
    {
        let a = pad[i - 4];
        let b = pad[i - 3];
        let c = pad[i - 2];
        let d = pad[i - 1];
        proof {
            assert(a == spec_pad_pre(key0, i as int - 4));
            assert(b == spec_pad_pre(key0, i as int - 3));
            assert(c == spec_pad_pre(key0, i as int - 2));
            assert(d == spec_pad_pre(key0, i as int - 1));
        }
        pad[i] = (a ^ c) << 1 | (b ^ d) >> 31;
        proof {
            assert(pad@[i as int] == spec_pad_pre(key0, i as int));
        }
        i = i + 1;
    }
    let mut i: usize = 0;
    while i < 128
        invariant
            pad@.len() == 128,
            i <= 128,
            forall|j: int| 0 <= j < i ==> pad@[j] == spec_swap_bytes(spec_pad_pre(key0, j)),
            forall|j: int| i <= j < 128 ==> pad@[j] == spec_pad_pre(key0, j),
        decreases 128 - i,
    {
        let x = pad[i];
        pad[i] = (x >> 24) | ((x >> 8) & 0xff00) | ((x << 8) & 0xff0000) | (x << 24);
        i = i + 1;
    }
    proof {
        assert(pad@ =~= spec_pad(key0));
    }
    pad
}

/// Generates the pad, then XOR-transforms every whole 32-bit word of `data`.
/// A trailing fragment shorter than one word is dropped, as the caller's
/// region length is always word-aligned.
#[verifier::rlimit(60)]
pub fn sony_decrypt(data: &[u8], key: u32, is_le: bool) -> (r: Vec<u8>)
    ensures
        r@ == spec_sony_decrypt(data@, key, is_le),
{
    let ghost key0 = key;
    let mut pad: Vec<u32> = sony_pad(key);
    let ghost pad0 = pad@;
    let ghost all_words = spec_words_of(data@, is_le);
    let n_words = data.len() / 4;
    assert(all_words.len() == n_words);
    let mut out: Vec<u8> = Vec::new();
    let mut w: usize = 0;
    proof {
        assert(all_words.skip(0) =~= all_words);
        assert(spec_sony_words(pad0, 127, all_words).take(0) =~= Seq::<u32>::empty());
        assert(out@ =~= spec_bytes_of_words(Seq::<u32>::empty(), is_le));
    }
    while w < n_words
        invariant
            pad@.len() == 128,
            w <= n_words,
            n_words == data@.len() / 4,
            n_words <= usize::MAX / 4,
            all_words == spec_words_of(data@, is_le),
            pad0 == spec_pad(key0),
            out@ == spec_bytes_of_words(spec_sony_words(pad0, 127, all_words).take(w as int), is_le),
            spec_sony_words(pad0, 127, all_words).skip(w as int) == spec_sony_words(
                pad@,
                127 + w,
                all_words.skip(w as int),
            ),
        decreases n_words - w,
    {
        proof {
            lemma_sony_words_len(pad0, 127, all_words);
        }
        let p = 127 + w;
        let k = pad[(p + 1) % 128] ^ pad[(p + 65) % 128];
        let ghost pad_before = pad@;
        pad[p % 128] = k;
        let x = read_u32(data, 4 * w, is_le);
        let word = x ^ k;
        let enc = u32_to_bytes(word, is_le);
        let ghost out_before = out@;
        out.push(enc[0]);
        out.push(enc[1]);
        out.push(enc[2]);
        out.push(enc[3]);
        proof {
            let rest = all_words.skip(w as int);
            assert(rest[0] == all_words[w as int]);
            assert(all_words[w as int] == x);
            assert(k == spec_step_key(pad_before, p as int));
            assert(pad@ =~= spec_step_pad(pad_before, p as int));
            assert(rest.drop_first() =~= all_words.skip(w as int + 1));
            let full = spec_sony_words(pad0, 127, all_words);
            assert(spec_sony_words(pad_before, p as int, rest) == seq![word] + spec_sony_words(
                pad@,
                p as int + 1,
                all_words.skip(w as int + 1),
            ));
            assert(full.skip(w as int) == seq![word] + spec_sony_words(
                pad@,
                p as int + 1,
                all_words.skip(w as int + 1),
            ));
            assert(full[w as int] == full.skip(w as int)[0]);
            assert(full.skip(w as int + 1) =~= full.skip(w as int).drop_first());
            assert(full.skip(w as int + 1) == spec_sony_words(
                pad@,
                p as int + 1,
                all_words.skip(w as int + 1),
            ));
            assert(out@ =~= spec_bytes_of_words(full.take(w as int + 1), is_le)) by {
                assert(full.take(w as int + 1) =~= full.take(w as int).push(word));
                assert forall|i: int| 0 <= i < out@.len() implies out@[i] == spec_bytes_of_words(
                    full.take(w as int + 1),
                    is_le,
                )[i] by {
                    if i < out_before.len() {
                        assert(out@[i] == out_before[i]);
                        assert(full.take(w as int + 1)[i / 4] == full.take(w as int)[i / 4]);
                    } else {
                        assert(i / 4 == w as int);
                        assert(full.take(w as int + 1)[w as int] == word);
                        assert(out@[i] == enc@[i % 4]);
                    }
                }
            }
        }
        w = w + 1;
    }
    proof {
        lemma_sony_words_len(pad0, 127, all_words);
        assert(spec_sony_words(pad0, 127, all_words).take(n_words as int) =~= spec_sony_words(
            pad0,
            127,
            all_words,
        ));
    }
    out
}

} // verus!
