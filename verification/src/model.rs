//! Mathematical model of the codec.
//!
//! The encode direction is specified by [`rvl_nibbles`] (samples to nibble
//! stream), [`words_of_nibbles`] (nibble stream to 32-bit words) and
//! [`le_bytes`] (words to little-endian bytes); [`compress_spec`] composes
//! them.  The decode direction is specified by [`dec_runs`], a total
//! function over an arbitrary nibble stream: it clamps run counts at the
//! requested sample count and stops early when the stream is exhausted, so
//! it pins down the decoder's result on malformed input as well.

use vstd::prelude::*;

verus! {

/// Zigzag encoding: a bijection from signed deltas to non-negative
/// integers that keeps small magnitudes small regardless of sign.
pub open spec fn zigzag(d: int) -> int {
    if d >= 0 {
        2 * d
    } else {
        -2 * d - 1
    }
}

/// Inverse of [`zigzag`].
pub open spec fn unzigzag(z: int) -> int {
    if z % 2 == 0 {
        z / 2
    } else {
        -(z / 2) - 1
    }
}

/// Variable-length encoding of a non-negative integer as nibbles:
/// 3 value bits per nibble, low bits first, plus a continuation flag
/// (the nibble's high bit, worth 8) on every nibble but the last.
pub open spec fn vle_nibbles(v: nat) -> Seq<u8>
    decreases v,
{
    if v < 8 {
        seq![v as u8]
    } else {
        seq![(8 + v % 8) as u8] + vle_nibbles(v / 8)
    }
}

/// Length of the maximal all-zero prefix of `s`.
pub open spec fn count_zeros(s: Seq<u16>) -> nat
    decreases s.len(),
{
    if s.len() == 0 || s[0] != 0 {
        0
    } else {
        1 + count_zeros(s.drop_first())
    }
}

/// Length of the maximal all-non-zero prefix of `s`.
pub open spec fn count_nonzeros(s: Seq<u16>) -> nat
    decreases s.len(),
{
    if s.len() == 0 || s[0] == 0 {
        0
    } else {
        1 + count_nonzeros(s.drop_first())
    }
}

/// Nibbles encoding a run of non-zero samples: each sample is encoded as
/// the zigzag of its delta from the previous sample.
pub open spec fn deltas_nibbles(run: Seq<u16>, prev: u16) -> Seq<u8>
    decreases run.len(),
{
    if run.len() == 0 {
        Seq::empty()
    } else {
        vle_nibbles(zigzag(run[0] - prev) as nat) + deltas_nibbles(run.drop_first(), run[0])
    }
}

/// The value of "previous sample" after a run has been encoded.
pub open spec fn run_end_prev(run: Seq<u16>, prev: u16) -> u16 {
    if run.len() == 0 {
        prev
    } else {
        run.last()
    }
}

/// The full nibble stream for a sample sequence: alternating zero-run
/// counts and non-zero-run counts, each non-zero run followed by its
/// delta-encoded values.
pub open spec fn rvl_nibbles(s: Seq<u16>, prev: u16) -> Seq<u8>
    decreases s.len(),
    via rvl_nibbles_decreases
{
    if s.len() == 0 {
        Seq::empty()
    } else {
        let z = count_zeros(s);
        let rest = s.skip(z as int);
        let nz = count_nonzeros(rest);
        let run = rest.take(nz as int);
        vle_nibbles(z) + vle_nibbles(nz) + deltas_nibbles(run, prev) + rvl_nibbles(
            rest.skip(nz as int),
            run_end_prev(run, prev),
        )
    }
}

#[via_fn]
proof fn rvl_nibbles_decreases(s: Seq<u16>, prev: u16) {
    if s.len() > 0 {
        lemma_count_zeros_le(s);
        let z = count_zeros(s);
        let rest = s.skip(z as int);
        lemma_count_nonzeros_le(rest);
        let nz = count_nonzeros(rest);
        if s[0] != 0 {
            assert(z == 0);
            assert(rest =~= s);
            assert(nz >= 1);
        }
    }
}

/// `count_zeros` never exceeds the sequence length.
pub proof fn lemma_count_zeros_le(s: Seq<u16>)
    ensures
        count_zeros(s) <= s.len(),
    decreases s.len(),
{
    if s.len() > 0 && s[0] == 0 {
        lemma_count_zeros_le(s.drop_first());
    }
}

/// `count_nonzeros` never exceeds the sequence length.
pub proof fn lemma_count_nonzeros_le(s: Seq<u16>)
    ensures
        count_nonzeros(s) <= s.len(),
    decreases s.len(),
{
    if s.len() > 0 && s[0] != 0 {
        lemma_count_nonzeros_le(s.drop_first());
    }
}

/// 16 to the power `n`.
pub open spec fn pow16(n: nat) -> int
    decreases n,
{
    if n == 0 {
        1
    } else {
        16 * pow16((n - 1) as nat)
    }
}

/// The integer a nibble sequence denotes when packed into one word,
/// first nibble in the most significant position.
pub open spec fn nibbles_word(s: Seq<u8>) -> int
    decreases s.len(),
{
    if s.len() == 0 {
        0
    } else {
        nibbles_word(s.drop_last()) * 16 + (s.last() as int % 16)
    }
}

/// The word packed from the first 8 nibbles of `s`.
pub open spec fn word_of_nibbles(s: Seq<u8>) -> u32 {
    nibbles_word(s.take(8)) as u32
}

/// The words packed from a nibble stream, 8 nibbles per word;
/// a trailing group of fewer than 8 nibbles yields no word.
pub open spec fn words_of_nibbles(ns: Seq<u8>) -> Seq<u32>
    decreases ns.len(),
{
    if ns.len() < 8 {
        Seq::empty()
    } else {
        seq![word_of_nibbles(ns)] + words_of_nibbles(ns.skip(8))
    }
}

/// The nibble stream padded with zero nibbles up to a multiple of 8,
/// so that it fills whole words.
pub open spec fn pad_to_words(ns: Seq<u8>) -> Seq<u8> {
    ns + Seq::new(((8 - ns.len() % 8) % 8) as nat, |t: int| 0u8)
}

/// The 8 nibbles of a word, most significant first.
pub open spec fn word_nibbles(w: u32) -> Seq<u8> {
    seq![
        ((w as int / 0x10000000) % 16) as u8,
        ((w as int / 0x1000000) % 16) as u8,
        ((w as int / 0x100000) % 16) as u8,
        ((w as int / 0x10000) % 16) as u8,
        ((w as int / 0x1000) % 16) as u8,
        ((w as int / 0x100) % 16) as u8,
        ((w as int / 0x10) % 16) as u8,
        (w as int % 16) as u8,
    ]
}

/// The nibble stream held by a word sequence.
pub open spec fn nibbles_of_words(ws: Seq<u32>) -> Seq<u8>
    decreases ws.len(),
{
    if ws.len() == 0 {
        Seq::empty()
    } else {
        word_nibbles(ws[0]) + nibbles_of_words(ws.drop_first())
    }
}

/// The 4 bytes of a word, least significant first.
pub open spec fn word_le_bytes(w: u32) -> Seq<u8> {
    seq![
        (w as int % 256) as u8,
        ((w as int / 256) % 256) as u8,
        ((w as int / 65536) % 256) as u8,
        ((w as int / 16777216) % 256) as u8,
    ]
}

/// A word sequence serialized as consecutive little-endian byte groups.
pub open spec fn le_bytes(ws: Seq<u32>) -> Seq<u8>
    decreases ws.len(),
{
    if ws.len() == 0 {
        Seq::empty()
    } else {
        word_le_bytes(ws[0]) + le_bytes(ws.drop_first())
    }
}

/// The word denoted by 4 little-endian bytes.
pub open spec fn word_of_le_bytes(b0: u8, b1: u8, b2: u8, b3: u8) -> u32 {
    (b0 + b1 * 256 + b2 * 65536 + b3 * 16777216) as u32
}

/// The word sequence read from a byte buffer in 4-byte little-endian
/// groups; a trailing group of fewer than 4 bytes yields no word.
pub open spec fn words_of_le_bytes(bs: Seq<u8>) -> Seq<u32>
    decreases bs.len(),
{
    if bs.len() < 4 {
        Seq::empty()
    } else {
        seq![word_of_le_bytes(bs[0], bs[1], bs[2], bs[3])] + words_of_le_bytes(bs.skip(4))
    }
}

/// The compressed byte buffer for a sample sequence.
pub open spec fn compress_spec(s: Seq<u16>) -> Seq<u8> {
    le_bytes(words_of_nibbles(pad_to_words(rvl_nibbles(s, 0))))
}

/// Reads one variable-length integer from `ns` starting at `i`; yields the
/// decoded value (accumulated modulo 2^32, matching the decoder's 32-bit
/// domain) and the position after it, or `None` if the stream runs out
/// before a nibble with a clear continuation flag.
pub open spec fn vle_dec(ns: Seq<u8>, i: nat) -> Option<(u32, nat)>
    decreases ns.len() - i,
{
    if i >= ns.len() {
        None
    } else {
        let nib = ns[i as int] as int;
        if nib < 8 {
            Some(((nib % 8) as u32, (i + 1) as nat))
        } else {
            match vle_dec(ns, (i + 1) as nat) {
                None => None,
                Some((rest, j)) => Some(
                    (((nib % 8 + rest * 8) % 0x100000000) as u32, j),
                ),
            }
        }
    }
}

/// Folds an already-accumulated prefix of a variable-length integer
/// (value so far, and the weight of the next nibble) together with the
/// decoding of the remaining nibbles.
pub open spec fn vle_combine(value: int, mult: int, r: Option<(u32, nat)>) -> Option<(u32, nat)> {
    match r {
        None => None,
        Some((v, j)) => Some(((((value + v * mult) % 0x100000000) as u32, j))),
    }
}

/// One step of the iterative variable-length decoder: absorbing the low
/// 3 bits of the next nibble into the accumulator and scaling the weight
/// by 8 commutes with [`vle_dec`]'s recursive accumulation, modulo 2^32.
pub proof fn lemma_vle_combine_step(value: int, mult: int, low3: int, r: int)
    requires
        0 <= value < 0x100000000,
        0 <= mult < 0x100000000,
        0 <= low3 < 8,
        0 <= r < 0x100000000,
    ensures
        (value + ((low3 + r * 8) % 0x100000000) * mult) % 0x100000000 == ((value + low3 * mult)
            % 0x100000000 + r * ((mult * 8) % 0x100000000)) % 0x100000000,
{
    let m = 0x100000000int;
    let c = low3 + r * 8;
    let a = value + low3 * mult;
    vstd::arithmetic::div_mod::lemma_add_mod_noop_right(value, (c % m) * mult, m);
    vstd::arithmetic::div_mod::lemma_mul_mod_noop_left(c, mult, m);
    vstd::arithmetic::div_mod::lemma_add_mod_noop_right(value, c * mult, m);
    assert((value + (c % m) * mult) % m == (value + c * mult) % m);
    vstd::arithmetic::mul::lemma_mul_is_distributive_add_other_way(mult, low3, r * 8);
    assert(c * mult == low3 * mult + (r * 8) * mult);
    vstd::arithmetic::mul::lemma_mul_is_associative(r, 8, mult);
    assert((r * 8) * mult == r * (8 * mult));
    vstd::arithmetic::div_mod::lemma_add_mod_noop_right(a % m, r * ((mult * 8) % m), m);
    vstd::arithmetic::div_mod::lemma_mul_mod_noop_right(r, mult * 8, m);
    vstd::arithmetic::div_mod::lemma_add_mod_noop(a, r * (mult * 8), m);
    assert((a % m + r * ((mult * 8) % m)) % m == (a % m + (r * ((mult * 8) % m)) % m) % m);
    assert((a % m + (r * (mult * 8)) % m) % m == (a + r * (mult * 8)) % m);
    vstd::arithmetic::mul::lemma_mul_is_associative(r, mult, 8);
    assert(r * (mult * 8) == r * (8 * mult)) by {
        vstd::arithmetic::mul::lemma_mul_is_commutative(mult, 8);
    }
}

/// The sample reconstructed from the previous sample and a decoded zigzag
/// value, with intentional 16-bit wraparound.
pub open spec fn dec_sample(prev: u16, z: u32) -> u16 {
    ((prev + unzigzag(z as int)) % 0x10000) as u16
}

/// Decodes `k` delta-encoded non-zero-run samples starting at `i`.
/// Returns the samples, the position after them, the new previous sample,
/// and whether all `k` values could be read before the stream ran out.
pub open spec fn dec_nonzeros(ns: Seq<u8>, i: nat, prev: u16, k: nat) -> (Seq<u16>, nat, u16, bool)
    decreases k,
{
    if k == 0 {
        (Seq::empty(), i, prev, true)
    } else {
        match vle_dec(ns, i) {
            None => (Seq::empty(), i, prev, false),
            Some((z, i1)) => {
                let s = dec_sample(prev, z);
                let r = dec_nonzeros(ns, i1, s, (k - 1) as nat);
                (seq![s] + r.0, r.1, r.2, r.3)
            },
        }
    }
}

/// Decodes alternating zero runs and non-zero runs from `ns` starting at
/// `i` until `rem` samples have been produced or the stream runs out.
/// Run counts that would overshoot `rem` are clamped at the boundary.
pub open spec fn dec_runs(ns: Seq<u8>, i: nat, prev: u16, rem: nat) -> Seq<u16>
    decreases ns.len() - i,
    via dec_runs_decreases
{
    if rem == 0 {
        Seq::empty()
    } else {
        match vle_dec(ns, i) {
            None => Seq::empty(),
            Some((z, i1)) => {
                let zn = if z <= rem { z as nat } else { rem };
                let zeros = Seq::new(zn, |t: int| 0u16);
                let rem1 = (rem - zn) as nat;
                match vle_dec(ns, i1) {
                    None => zeros,
                    Some((nzc, i2)) => {
                        let k = if nzc <= rem1 { nzc as nat } else { rem1 };
                        let r = dec_nonzeros(ns, i2, prev, k);
                        if r.3 {
                            zeros + r.0 + dec_runs(ns, r.1, r.2, (rem1 - k) as nat)
                        } else {
                            zeros + r.0
                        }
                    },
                }
            },
        }
    }
}

#[via_fn]
proof fn dec_runs_decreases(ns: Seq<u8>, i: nat, prev: u16, rem: nat) {
    if rem != 0 {
        lemma_vle_dec_bounds(ns, i);
        if let Some((z, i1)) = vle_dec(ns, i) {
            lemma_vle_dec_bounds(ns, i1);
            let zn = if z <= rem { z as nat } else { rem };
            let rem1 = (rem - zn) as nat;
            if let Some((nzc, i2)) = vle_dec(ns, i1) {
                let k = if nzc <= rem1 { nzc as nat } else { rem1 };
                lemma_dec_nonzeros_bounds(ns, i2, prev, k);
            }
        }
    }
}

/// A successful variable-length read always advances the cursor and
/// leaves it within the stream.
pub proof fn lemma_vle_dec_bounds(ns: Seq<u8>, i: nat)
    ensures
        match vle_dec(ns, i) {
            Some((z, j)) => i < j <= ns.len(),
            None => true,
        },
    decreases ns.len() - i,
{
    if i < ns.len() && ns[i as int] >= 8 {
        lemma_vle_dec_bounds(ns, (i + 1) as nat);
    }
}

/// Decoding a non-zero run never moves the cursor backwards or past the
/// end of the stream.
pub proof fn lemma_dec_nonzeros_bounds(ns: Seq<u8>, i: nat, prev: u16, k: nat)
    requires
        i <= ns.len(),
    ensures
        i <= dec_nonzeros(ns, i, prev, k).1 <= ns.len(),
    decreases k,
{
    if k > 0 {
        lemma_vle_dec_bounds(ns, i);
        if let Some((z, i1)) = vle_dec(ns, i) {
            lemma_dec_nonzeros_bounds(ns, i1, dec_sample(prev, z), (k - 1) as nat);
        }
    }
}

/// Unfolds [`dec_runs`] on an exhausted stream: nothing is produced.
pub proof fn lemma_dec_runs_none(ns: Seq<u8>, i: nat, prev: u16, rem: nat)
    requires
        vle_dec(ns, i) is None,
    ensures
        dec_runs(ns, i, prev, rem) == Seq::<u16>::empty(),
{
}

/// Unfolds [`dec_runs`] on a stream that ends after the zero-run count:
/// only the (clamped) zero run is produced.
pub proof fn lemma_dec_runs_after_zeros(ns: Seq<u8>, i: nat, prev: u16, rem: nat, z: u32, i1: nat)
    requires
        rem > 0,
        vle_dec(ns, i) == Some((z, i1)),
        vle_dec(ns, i1) is None,
    ensures
        dec_runs(ns, i, prev, rem) == Seq::new(
            if z <= rem {
                z as nat
            } else {
                rem
            },
            |q: int| 0u16,
        ),
{
}

/// Unfolds one full round of [`dec_runs`]: the clamped zero run, then the
/// clamped non-zero run, then (if the run was read completely) the rest.
pub proof fn lemma_dec_runs_unfold(
    ns: Seq<u8>,
    i: nat,
    prev: u16,
    rem: nat,
    z: u32,
    i1: nat,
    nzc: u32,
    i2: nat,
)
    requires
        rem > 0,
        vle_dec(ns, i) == Some((z, i1)),
        vle_dec(ns, i1) == Some((nzc, i2)),
    ensures
        ({
            let zn = if z <= rem {
                z as nat
            } else {
                rem
            };
            let zeros = Seq::new(zn, |q: int| 0u16);
            let rem1 = (rem - zn) as nat;
            let k = if nzc <= rem1 {
                nzc as nat
            } else {
                rem1
            };
            let full = dec_nonzeros(ns, i2, prev, k);
            dec_runs(ns, i, prev, rem) == if full.3 {
                zeros + full.0 + dec_runs(ns, full.1, full.2, (rem1 - k) as nat)
            } else {
                zeros + full.0
            }
        }),
{
}

/// A decoded non-zero run holds at most `k` samples, and exactly `k` when
/// the stream did not run out.
pub proof fn lemma_dec_nonzeros_len(ns: Seq<u8>, i: nat, prev: u16, k: nat)
    ensures
        dec_nonzeros(ns, i, prev, k).0.len() <= k,
        dec_nonzeros(ns, i, prev, k).3 ==> dec_nonzeros(ns, i, prev, k).0.len() == k,
    decreases k,
{
    if k > 0 {
        if let Some((z, i1)) = vle_dec(ns, i) {
            lemma_dec_nonzeros_len(ns, i1, dec_sample(prev, z), (k - 1) as nat);
        }
    }
}

/// The decoded sample sequence for a compressed byte buffer and an
/// expected sample count: `None` exactly when the buffer length is not a
/// multiple of 4.
pub open spec fn decompress_spec(bytes: Seq<u8>, n: nat) -> Option<Seq<u16>> {
    if bytes.len() % 4 != 0 {
        None
    } else {
        Some(dec_runs(nibbles_of_words(words_of_le_bytes(bytes)), 0, 0, n))
    }
}

/// Shape of a padded nibble stream: it extends the stream by fewer than 8
/// zero nibbles, up to the next multiple of 8.
pub proof fn lemma_pad_to_words(ns: Seq<u8>)
    ensures
        pad_to_words(ns).len() % 8 == 0,
        ns.len() <= pad_to_words(ns).len() < ns.len() + 8,
        pad_to_words(ns).take(ns.len() as int) == ns,
        forall|t: int| ns.len() <= t < pad_to_words(ns).len() ==> pad_to_words(ns)[t] == 0,
{
    let l = ns.len() as int;
    let p = (8 - l % 8) % 8;
    assert(0 <= l % 8 < 8) by {
        vstd::arithmetic::div_mod::lemma_mod_division_less_than_divisor(l, 8);
    }
    if l % 8 == 0 {
        assert(p == 0) by {
            vstd::arithmetic::div_mod::lemma_mod_self_0(8)
        }
    } else {
        assert(p == 8 - l % 8) by {
            vstd::arithmetic::div_mod::lemma_small_mod((8 - l % 8) as nat, 8);
        }
        assert((l + p) % 8 == 0) by {
            vstd::arithmetic::div_mod::lemma_fundamental_div_mod(l, 8);
            vstd::arithmetic::div_mod::lemma_mod_multiples_basic(l / 8 + 1, 8);
        }
    }
    assert(pad_to_words(ns).take(l) =~= ns);
}

/// A sequence whose first `j` elements are zero and whose element `j`, if
/// any, is not has exactly `j` leading zeros.
pub proof fn lemma_count_zeros_char(s: Seq<u16>, j: nat)
    requires
        j <= s.len(),
        forall|t: int| 0 <= t < j ==> s[t] == 0,
        j == s.len() || s[j as int] != 0,
    ensures
        count_zeros(s) == j,
    decreases j,
{
    if j > 0 {
        lemma_count_zeros_char(s.drop_first(), (j - 1) as nat);
    }
}

/// Every element of the counted zero prefix is zero.
pub proof fn lemma_count_zeros_prefix(s: Seq<u16>)
    ensures
        count_zeros(s) <= s.len(),
        forall|t: int| 0 <= t < count_zeros(s) ==> s[t] == 0,
    decreases s.len(),
{
    if s.len() > 0 && s[0] == 0 {
        lemma_count_zeros_prefix(s.drop_first());
        assert forall|t: int| 0 <= t < count_zeros(s) implies s[t] == 0 by {
            if t > 0 {
                assert(s.drop_first()[t - 1] == s[t]);
            }
        }
    }
}

/// The analogue of [`lemma_count_zeros_char`] for non-zero prefixes.
pub proof fn lemma_count_nonzeros_char(s: Seq<u16>, j: nat)
    requires
        j <= s.len(),
        forall|t: int| 0 <= t < j ==> s[t] != 0,
        j == s.len() || s[j as int] == 0,
    ensures
        count_nonzeros(s) == j,
    decreases j,
{
    if j > 0 {
        lemma_count_nonzeros_char(s.drop_first(), (j - 1) as nat);
    }
}

/// `pow16` is positive.
pub proof fn lemma_pow16_pos(n: nat)
    ensures
        pow16(n) >= 1,
    decreases n,
{
    if n > 0 {
        lemma_pow16_pos((n - 1) as nat);
    }
}

/// Concrete powers of 16 used by the word packer.
pub proof fn lemma_pow16_values()
    ensures
        pow16(7) == 0x10000000,
        pow16(8) == 0x100000000,
{
    reveal_with_fuel(pow16, 9);
}

/// A packed nibble sequence denotes a value below `pow16` of its length.
pub proof fn lemma_nibbles_word_bound(s: Seq<u8>)
    ensures
        0 <= nibbles_word(s) < pow16(s.len()),
    decreases s.len(),
{
    if s.len() > 0 {
        lemma_nibbles_word_bound(s.drop_last());
    }
}

/// Appending one nibble to a packed prefix multiplies its value by 16 and
/// adds the nibble.
pub proof fn lemma_nibbles_word_snoc(s: Seq<u8>, nib: u8)
    requires
        nib < 16,
    ensures
        nibbles_word(s + seq![nib]) == nibbles_word(s) * 16 + nib,
{
    let e = s + seq![nib];
    assert(e.drop_last() =~= s);
    assert(e.last() == nib);
}

/// Packing a stream extended by one whole nibble group appends one word.
pub proof fn lemma_words_of_nibbles_snoc(ns: Seq<u8>, g: Seq<u8>)
    requires
        ns.len() % 8 == 0,
        g.len() == 8,
    ensures
        words_of_nibbles(ns + g) == words_of_nibbles(ns) + seq![word_of_nibbles(g)],
    decreases ns.len(),
{
    if ns.len() == 0 {
        assert(ns + g =~= g);
        assert(g.skip(8) =~= Seq::<u8>::empty());
        assert(g.take(8) =~= g);
        assert(words_of_nibbles(Seq::<u8>::empty()) =~= Seq::<u32>::empty());
        assert(words_of_nibbles(g) =~= seq![word_of_nibbles(g)]);
        assert(words_of_nibbles(ns) =~= Seq::<u32>::empty());
    } else {
        let e = ns + g;
        assert(e.take(8) =~= ns.take(8));
        assert(e.skip(8) =~= ns.skip(8) + g);
        assert(ns.skip(8).len() % 8 == 0) by {
            vstd::arithmetic::div_mod::lemma_mod_sub_multiples_vanish(ns.len() as int, 8);
        }
        lemma_words_of_nibbles_snoc(ns.skip(8), g);
        assert(word_of_nibbles(e) == word_of_nibbles(ns));
        assert(words_of_nibbles(e) =~= words_of_nibbles(ns) + seq![word_of_nibbles(g)]);
    }
}

/// Serializing a word sequence extended by one word appends that word's
/// 4 bytes.
pub proof fn lemma_le_bytes_snoc(ws: Seq<u32>, w: u32)
    ensures
        le_bytes(ws.push(w)) == le_bytes(ws) + word_le_bytes(w),
    decreases ws.len(),
{
    if ws.len() == 0 {
        assert(ws.push(w).drop_first() =~= Seq::<u32>::empty());
        assert(le_bytes(Seq::<u32>::empty()) =~= Seq::<u8>::empty());
        assert(ws.push(w)[0] == w);
        assert(le_bytes(ws.push(w)) =~= word_le_bytes(w));
        assert(le_bytes(ws) + word_le_bytes(w) =~= word_le_bytes(w));
    } else {
        assert(ws.push(w).drop_first() =~= ws.drop_first().push(w));
        lemma_le_bytes_snoc(ws.drop_first(), w);
        assert(le_bytes(ws.push(w)) =~= le_bytes(ws) + word_le_bytes(w));
    }
}

/// A serialized word sequence occupies 4 bytes per word.
pub proof fn lemma_le_bytes_len(ws: Seq<u32>)
    ensures
        le_bytes(ws).len() == 4 * ws.len(),
    decreases ws.len(),
{
    if ws.len() > 0 {
        lemma_le_bytes_len(ws.drop_first());
    }
}

/// The nibble stream of a word sequence extended by one word gains that
/// word's 8 nibbles.
pub proof fn lemma_nibbles_of_words_snoc(ws: Seq<u32>, w: u32)
    ensures
        nibbles_of_words(ws.push(w)) == nibbles_of_words(ws) + word_nibbles(w),
    decreases ws.len(),
{
    if ws.len() == 0 {
        assert(ws.push(w).drop_first() =~= Seq::<u32>::empty());
        assert(nibbles_of_words(Seq::<u32>::empty()) =~= Seq::<u8>::empty());
        assert(ws.push(w)[0] == w);
        assert(nibbles_of_words(ws.push(w)) =~= word_nibbles(w));
        assert(nibbles_of_words(ws) + word_nibbles(w) =~= word_nibbles(w));
    } else {
        assert(ws.push(w).drop_first() =~= ws.drop_first().push(w));
        lemma_nibbles_of_words_snoc(ws.drop_first(), w);
        assert(ws.push(w)[0] == ws[0]);
        vstd::seq_lib::lemma_concat_associative(
            word_nibbles(ws[0]),
            nibbles_of_words(ws.drop_first()),
            word_nibbles(w),
        );
        assert(nibbles_of_words(ws.push(w)) == nibbles_of_words(ws) + word_nibbles(w));
    }
}

/// A word sequence holds 8 nibbles per word.
pub proof fn lemma_nibbles_of_words_len(ws: Seq<u32>)
    ensures
        nibbles_of_words(ws).len() == 8 * ws.len(),
    decreases ws.len(),
{
    if ws.len() > 0 {
        lemma_nibbles_of_words_len(ws.drop_first());
    }
}

/// Reading a byte buffer extended by one whole 4-byte group appends one
/// word.
pub proof fn lemma_words_of_le_bytes_snoc(bs: Seq<u8>, b0: u8, b1: u8, b2: u8, b3: u8)
    requires
        bs.len() % 4 == 0,
    ensures
        words_of_le_bytes(bs + seq![b0, b1, b2, b3]) == words_of_le_bytes(bs) + seq![
            word_of_le_bytes(b0, b1, b2, b3),
        ],
    decreases bs.len(),
{
    let g = seq![b0, b1, b2, b3];
    let e = bs + g;
    if bs.len() == 0 {
        assert(e =~= g);
        assert(g.skip(4) =~= Seq::<u8>::empty());
        let one = seq![word_of_le_bytes(b0, b1, b2, b3)];
        assert(e.skip(4) =~= Seq::<u8>::empty());
        assert(words_of_le_bytes(Seq::<u8>::empty()) =~= Seq::<u32>::empty());
        assert(e[0] == b0 && e[1] == b1 && e[2] == b2 && e[3] == b3);
        assert(words_of_le_bytes(e) =~= one);
        assert(words_of_le_bytes(bs) + one =~= one);
    } else {
        assert(e.skip(4) =~= bs.skip(4) + g);
        assert(bs.skip(4).len() % 4 == 0) by {
            vstd::arithmetic::div_mod::lemma_mod_sub_multiples_vanish(bs.len() as int, 4);
        }
        lemma_words_of_le_bytes_snoc(bs.skip(4), b0, b1, b2, b3);
        assert(e[0] == bs[0] && e[1] == bs[1] && e[2] == bs[2] && e[3] == bs[3]);
        let one = seq![word_of_le_bytes(b0, b1, b2, b3)];
        assert(words_of_le_bytes(e) =~= words_of_le_bytes(bs) + one);
    }
}

} // verus!
