//! The executable codec.

use vstd::prelude::*;

use crate::model::compress_spec;
use crate::model::dec_nonzeros;
use crate::model::dec_runs;
use crate::model::dec_sample;
use crate::model::decompress_spec;
use crate::model::deltas_nibbles;
use crate::model::le_bytes;
use crate::model::nibbles_word;
use crate::model::pad_to_words;
use crate::model::pow16;
use crate::model::run_end_prev;
use crate::model::rvl_nibbles;
use crate::model::vle_combine;
use crate::model::vle_dec;
use crate::model::vle_nibbles;
use crate::model::word_le_bytes;
use crate::model::word_nibbles;
use crate::model::word_of_le_bytes;
use crate::model::words_of_le_bytes;
use crate::model::nibbles_of_words;
use crate::model::unzigzag;
use crate::model::word_of_nibbles;
use crate::model::words_of_nibbles;
use crate::model::zigzag;
use crate::model::lemma_count_nonzeros_char;
use crate::model::lemma_dec_nonzeros_len;
use crate::model::lemma_dec_runs_after_zeros;
use crate::model::lemma_dec_runs_none;
use crate::model::lemma_dec_runs_unfold;
use crate::model::lemma_count_zeros_char;
use crate::model::lemma_le_bytes_len;
use crate::model::lemma_le_bytes_snoc;
use crate::model::lemma_nibbles_of_words_snoc;
use crate::model::lemma_vle_combine_step;
use crate::model::lemma_words_of_le_bytes_snoc;
use crate::model::lemma_nibbles_word_bound;
use crate::model::lemma_nibbles_word_snoc;
use crate::model::lemma_pad_to_words;
use crate::model::lemma_pow16_values;
use crate::model::lemma_words_of_nibbles_snoc;

verus! {

/// Error reported by the decoder.
#[derive(Debug, Clone, Copy, PartialEq, Eq, Structural)]
pub enum RvlError {
    /// The compressed buffer's length is not a multiple of 4 bytes.
    InvalidEncoding,
}

/// Codec for lossless compression of depth-sensor sample sequences.
///
/// The fields are scratch cursor state for the word packer; they are
/// reset at the start of every call, so the codec is stateless across
/// calls.
#[derive(Debug, Clone, Copy)]
pub struct RVLCodec {
    /// Number of whole words written to (encode) or read from (decode)
    /// the word buffer.
    pub p_buffer: usize,
    /// The word currently being assembled or consumed.
    pub word: u32,
    /// How many nibbles of `word` are occupied, 0 to 8.
    pub nibbles_written: usize,
}

impl RVLCodec {
    /// Creates a codec with its cursor state cleared.
    pub fn new() -> (c: Self)
        ensures
            c.p_buffer == 0,
            c.word == 0,
            c.nibbles_written == 0,
    {
        RVLCodec { p_buffer: 0, word: 0, nibbles_written: 0 }
    }
}

impl Default for RVLCodec {
    fn default() -> (c: Self)
        ensures
            c.p_buffer == 0,
            c.word == 0,
            c.nibbles_written == 0,
    {
        RVLCodec::new()
    }
}

/// The packer's cursor state is faithful to the nibble stream `nibs`
/// pushed so far: every whole group of 8 nibbles has been flushed to
/// `words`, and the trailing partial group is held in `word`.
pub open spec fn packer_wf(c: RVLCodec, words: Seq<u32>, nibs: Seq<u8>) -> bool {
    &&& forall|t: int| 0 <= t < nibs.len() ==> nibs[t] < 16
    &&& words.len() * 8 <= nibs.len() < words.len() * 8 + 8
    &&& c.nibbles_written == nibs.len() - words.len() * 8
    &&& c.word as int == nibbles_word(nibs.skip((words.len() * 8) as int))
    &&& words == words_of_nibbles(nibs.take((words.len() * 8) as int))
    &&& c.p_buffer == words.len()
}

impl RVLCodec {
    /// Appends one nibble to the in-progress word, flushing the word to
    /// `words` once it holds 8 nibbles.
    fn push_nibble(&mut self, nib: u8, words: &mut Vec<u32>, nibs: Ghost<Seq<u8>>) -> (res: Ghost<
        Seq<u8>,
    >)
        requires
            packer_wf(*old(self), old(words)@, nibs@),
            nib < 16,
        ensures
            packer_wf(*final(self), final(words)@, res@),
            res@ == nibs@ + seq![nib],
            final(words)@.len() == old(words)@.len() || final(words)@.len() == old(words)@.len()
                + 1,
    {
        let ghost w8 = old(words)@.len() * 8;
        let ghost pending = nibs@.skip(w8 as int);
        let ghost nibs2 = nibs@ + seq![nib];
        proof {
            lemma_nibbles_word_bound(pending);
            lemma_pow16_values();
            assert(pending.len() <= 7);
            assert(pow16(pending.len()) <= pow16(7)) by {
                lemma_pow16_le(pending.len(), 7);
            }
            assert(self.word < 0x10000000);
            lemma_nibbles_word_snoc(pending, nib);
            assert(nibs2.skip(w8 as int) =~= pending + seq![nib]);
            assert(nibs2.take(w8 as int) =~= nibs@.take(w8 as int));
        }
        self.word = self.word * 16 + nib as u32;
        self.nibbles_written = self.nibbles_written + 1;
        if self.nibbles_written == 8 {
            let ghost group = nibs2.skip(w8 as int);
            proof {
                assert(nibs2.len() == w8 + 8);
                assert(group.len() == 8);
                assert(w8 % 8 == 0) by {
                    vstd::arithmetic::div_mod::lemma_mod_multiples_basic(
                        old(words)@.len() as int,
                        8,
                    );
                }
                lemma_words_of_nibbles_snoc(nibs@.take(w8 as int), group);
                assert(nibs2.take(w8 as int) + group =~= nibs2);
                assert(nibs2 == nibs@.take(w8 as int) + group);
                assert(group.take(8) =~= group);
                assert(word_of_nibbles(group) == self.word);
            }
            words.push(self.word);
            self.word = 0;
            self.nibbles_written = 0;
            self.p_buffer = words.len();
            proof {
                assert(words@ =~= old(words)@ + seq![word_of_nibbles(group)]);
                assert(words@ == words_of_nibbles(nibs2));
                assert(nibs2.take((words@.len() * 8) as int) =~= nibs2);
                assert(nibs2.skip((words@.len() * 8) as int) =~= Seq::<u8>::empty());
                assert(nibbles_word(Seq::<u8>::empty()) == 0);
            }
        }
        Ghost(nibs2)
    }

    /// Appends the variable-length encoding of `value` to the nibble
    /// stream: 3 low bits per nibble, continuation flag on all but the
    /// last nibble.
    fn encode_vle(&mut self, value: u32, words: &mut Vec<u32>, nibs: Ghost<Seq<u8>>) -> (res: Ghost<
        Seq<u8>,
    >)
        requires
            packer_wf(*old(self), old(words)@, nibs@),
        ensures
            packer_wf(*final(self), final(words)@, res@),
            res@ == nibs@ + vle_nibbles(value as nat),
    {
        let mut v = value;
        let ghost mut cur = nibs@;
        loop
            invariant_except_break
                cur + vle_nibbles(v as nat) == nibs@ + vle_nibbles(value as nat),
            invariant
                packer_wf(*self, words@, cur),
            ensures
                packer_wf(*self, words@, cur),
                cur == nibs@ + vle_nibbles(value as nat),
            decreases v,
        {
            let low = (v % 8) as u8;
            let next = v / 8;
            let nib = if next != 0 {
                low + 8
            } else {
                low
            };
            let g = self.push_nibble(nib, words, Ghost(cur));
            proof {
                if next == 0 {
                    assert(vle_nibbles(v as nat) =~= seq![nib]);
                    assert(cur + seq![nib] =~= cur + vle_nibbles(v as nat));
                } else {
                    assert(vle_nibbles(v as nat) =~= seq![nib] + vle_nibbles(next as nat));
                    vstd::seq_lib::lemma_concat_associative(
                        cur,
                        seq![nib],
                        vle_nibbles(next as nat),
                    );
                }
                cur = g@;
            }
            if next == 0 {
                break ;
            }
            v = next;
        }
        Ghost(cur)
    }
}

impl RVLCodec {
    /// Compresses a sample sequence into a byte buffer whose length is a
    /// multiple of 4; returns the compressed size in bytes.
    ///
    /// The output is exactly the serialization that [`compress_spec`]
    /// describes: alternating zero-run and non-zero-run counts with
    /// zigzag-encoded deltas, packed 8 nibbles per word, words written as
    /// little-endian byte groups, the last partial word zero-padded.
    #[verifier::loop_isolation(false)]
    #[verifier::rlimit(100)]
    pub fn compress_rvl(&mut self, input: &[u16], output: &mut Vec<u8>) -> (size: usize)
        requires
            input@.len() < 0x100000000,
        ensures
            final(output)@ == compress_spec(input@),
            size == final(output)@.len(),
            size % 4 == 0,
    {
        self.p_buffer = 0;
        self.word = 0;
        self.nibbles_written = 0;
        let mut words: Vec<u32> = Vec::new();
        let ghost mut nibs: Seq<u8> = Seq::empty();
        proof {
            assert(nibs.take(0) =~= Seq::<u8>::empty());
            assert(nibs.skip(0) =~= Seq::<u8>::empty());
            assert(words_of_nibbles(Seq::<u8>::empty()) =~= Seq::<u32>::empty());
            assert(input@.skip(0) =~= input@);
            assert(Seq::<u8>::empty() + rvl_nibbles(input@, 0) =~= rvl_nibbles(input@, 0));
        }
        let mut idx: usize = 0;
        let mut previous: u16 = 0;
        while idx < input.len()
            invariant
                packer_wf(*self, words@, nibs),
                idx <= input@.len(),
                rvl_nibbles(input@, 0) == nibs + rvl_nibbles(input@.skip(idx as int), previous),
            decreases input@.len() - idx,
        {
            let ghost suffix = input@.skip(idx as int);
            let ghost nibs0 = nibs;
            let ghost prev0 = previous;
            let zstart = idx;
            while idx < input.len() && input[idx] == 0
                invariant
                    zstart <= idx <= input@.len(),
                    forall|t: int| zstart <= t < idx ==> input@[t] == 0,
                decreases input@.len() - idx,
            {
                idx = idx + 1;
            }
            let zeros = idx - zstart;
            proof {
                assert(forall|t: int| 0 <= t < zeros ==> suffix[t] == 0);
                assert(zeros == suffix.len() || suffix[zeros as int] != 0);
                lemma_count_zeros_char(suffix, zeros as nat);
            }
            let g1 = self.encode_vle(zeros as u32, &mut words, Ghost(nibs));
            proof {
                nibs = g1@;
            }
            let nzstart = idx;
            while idx < input.len() && input[idx] != 0
                invariant
                    nzstart <= idx <= input@.len(),
                    forall|t: int| nzstart <= t < idx ==> input@[t] != 0,
                decreases input@.len() - idx,
            {
                idx = idx + 1;
            }
            let nonzeros = idx - nzstart;
            let ghost rest = input@.skip(nzstart as int);
            proof {
                assert(rest =~= suffix.skip(zeros as int));
                assert(forall|t: int| 0 <= t < nonzeros ==> rest[t] != 0);
                assert(nonzeros == rest.len() || rest[nonzeros as int] == 0);
                lemma_count_nonzeros_char(rest, nonzeros as nat);
            }
            let g2 = self.encode_vle(nonzeros as u32, &mut words, Ghost(nibs));
            proof {
                nibs = g2@;
            }
            let ghost run = rest.take(nonzeros as int);
            let ghost nibs_run0 = nibs;
            proof {
                assert(run.skip(0) =~= run);
                assert(run.take(0) =~= Seq::<u16>::empty());
            }
            let mut j: usize = 0;
            while j < nonzeros
                invariant
                    packer_wf(*self, words@, nibs),
                    j <= nonzeros,
                    nibs_run0 + deltas_nibbles(run, prev0) == nibs + deltas_nibbles(
                        run.skip(j as int),
                        previous,
                    ),
                    previous == run_end_prev(run.take(j as int), prev0),
                decreases nonzeros - j,
            {
                let current = input[nzstart + j];
                let z = if current >= previous {
                    ((current - previous) as u32) * 2
                } else {
                    ((previous - current) as u32) * 2 - 1
                };
                proof {
                    assert(run[j as int] == input@[nzstart + j]);
                    assert(run.skip(j as int)[0] == run[j as int]);
                    assert(z as int == zigzag(current - previous));
                    assert(run.skip(j as int).drop_first() =~= run.skip(j + 1));
                    assert(deltas_nibbles(run.skip(j as int), previous) == vle_nibbles(
                        zigzag(current - previous) as nat,
                    ) + deltas_nibbles(run.skip(j + 1), current));
                }
                let g3 = self.encode_vle(z, &mut words, Ghost(nibs));
                proof {
                    let old_nibs = nibs;
                    nibs = g3@;
                    assert(old_nibs + deltas_nibbles(run.skip(j as int), previous) =~= nibs
                        + deltas_nibbles(run.skip(j + 1), current));
                    assert(run.take(j + 1).last() == run[j as int]);
                }
                previous = current;
                j = j + 1;
            }
            proof {
                assert(run.skip(nonzeros as int) =~= Seq::<u16>::empty());
                assert(deltas_nibbles(Seq::<u16>::empty(), previous) =~= Seq::<u8>::empty());
                assert(nibs =~= nibs_run0 + deltas_nibbles(run, prev0));
                assert(run.take(nonzeros as int) =~= run);
                assert(previous == run_end_prev(run, prev0));
                assert(idx > zstart) by {
                    if idx == zstart {
                        assert(input@[zstart as int] != 0);
                        assert(input@[zstart as int] == 0);
                    }
                }
                assert(suffix.len() > 0);
                assert(rest.skip(nonzeros as int) =~= input@.skip(idx as int));
                assert(rvl_nibbles(suffix, prev0) == vle_nibbles(zeros as nat) + vle_nibbles(
                    nonzeros as nat,
                ) + deltas_nibbles(run, prev0) + rvl_nibbles(input@.skip(idx as int), previous));
                assert(nibs0 + rvl_nibbles(suffix, prev0) =~= nibs + rvl_nibbles(
                    input@.skip(idx as int),
                    previous,
                ));
            }
        }
        proof {
            assert(input@.skip(input@.len() as int) =~= Seq::<u16>::empty());
            assert(rvl_nibbles(Seq::<u16>::empty(), previous) =~= Seq::<u8>::empty());
            assert(nibs =~= rvl_nibbles(input@, 0));
        }
        let ghost content = rvl_nibbles(input@, 0);
        let ghost padded = pad_to_words(content);
        proof {
            lemma_pad_to_words(content);
        }
        while self.nibbles_written != 0
            invariant
                packer_wf(*self, words@, nibs),
                content.len() <= nibs.len() <= padded.len(),
                nibs.take(content.len() as int) == content,
                forall|t: int| content.len() <= t < nibs.len() ==> nibs[t] == 0,
            decreases padded.len() - nibs.len(),
        {
            proof {
                assert(nibs.len() % 8 == self.nibbles_written) by {
                    vstd::arithmetic::div_mod::lemma_mod_multiples_vanish(
                        words@.len() as int,
                        nibs.len() - words@.len() * 8,
                        8,
                    );
                    vstd::arithmetic::div_mod::lemma_small_mod(
                        (nibs.len() - words@.len() * 8) as nat,
                        8,
                    );
                }
                assert(nibs.len() < padded.len()) by {
                    if nibs.len() == padded.len() {
                        assert(nibs.len() % 8 == 0);
                    }
                }
            }
            let g = self.push_nibble(0, &mut words, Ghost(nibs));
            proof {
                let old_nibs = nibs;
                nibs = g@;
                assert(nibs.take(content.len() as int) =~= old_nibs.take(content.len() as int));
            }
        }
        proof {
            assert(nibs.len() % 8 == 0) by {
                vstd::arithmetic::div_mod::lemma_mod_multiples_vanish(
                    words@.len() as int,
                    nibs.len() - words@.len() * 8,
                    8,
                );
                vstd::arithmetic::div_mod::lemma_small_mod(
                    (nibs.len() - words@.len() * 8) as nat,
                    8,
                );
            }
            assert(nibs.len() == padded.len()) by {
                let d = padded.len() - nibs.len();
                vstd::arithmetic::div_mod::lemma_sub_mod_noop(
                    padded.len() as int,
                    nibs.len() as int,
                    8,
                );
                vstd::arithmetic::div_mod::lemma_small_mod(d as nat, 8);
            }
            assert(nibs =~= padded);
            assert(nibs.take((words@.len() * 8) as int) =~= nibs);
            assert(words@ == words_of_nibbles(padded));
        }
        output.clear();
        let mut wi: usize = 0;
        while wi < words.len()
            invariant
                wi <= words@.len(),
                output@ == le_bytes(words@.take(wi as int)),
            decreases words@.len() - wi,
        {
            let w = words[wi];
            output.push((w % 256) as u8);
            output.push(((w / 256) % 256) as u8);
            output.push(((w / 65536) % 256) as u8);
            output.push(((w / 16777216) % 256) as u8);
            proof {
                assert(words@.take(wi + 1) =~= words@.take(wi as int).push(w));
                lemma_le_bytes_snoc(words@.take(wi as int), w);
                assert(output@ =~= le_bytes(words@.take(wi as int)) + word_le_bytes(w));
            }
            wi = wi + 1;
        }
        proof {
            assert(words@.take(words@.len() as int) =~= words@);
            lemma_le_bytes_len(words@);
            assert(output@.len() % 4 == 0) by {
                vstd::arithmetic::div_mod::lemma_mod_multiples_basic(words@.len() as int, 4);
            }
        }
        output.len()
    }
}

/// Reads a byte buffer as a sequence of little-endian 32-bit words.
fn words_from_bytes(input: &[u8]) -> (words: Vec<u32>)
    requires
        input@.len() % 4 == 0,
    ensures
        words@ == words_of_le_bytes(input@),
{
    let mut words: Vec<u32> = Vec::new();
    let mut bi: usize = 0;
    proof {
        assert(input@.take(0) =~= Seq::<u8>::empty());
        assert(words_of_le_bytes(Seq::<u8>::empty()) =~= Seq::<u32>::empty());
    }
    while bi < input.len()
        invariant
            bi <= input@.len(),
            bi % 4 == 0,
            input@.len() % 4 == 0,
            words@ == words_of_le_bytes(input@.take(bi as int)),
        decreases input@.len() - bi,
    {
        proof {
            vstd::arithmetic::div_mod::lemma_sub_mod_noop(input@.len() as int, bi as int, 4);
            if input@.len() - bi < 4 {
                vstd::arithmetic::div_mod::lemma_small_mod((input@.len() - bi) as nat, 4);
            }
            assert(bi + 4 <= input@.len());
        }
        let b0 = input[bi];
        let b1 = input[bi + 1];
        let b2 = input[bi + 2];
        let b3 = input[bi + 3];
        let w = b0 as u32 + b1 as u32 * 256 + b2 as u32 * 65536 + b3 as u32 * 16777216;
        words.push(w);
        proof {
            lemma_words_of_le_bytes_snoc(input@.take(bi as int), b0, b1, b2, b3);
            assert(input@.take(bi + 4) =~= input@.take(bi as int) + seq![b0, b1, b2, b3]);
            assert(w == word_of_le_bytes(b0, b1, b2, b3));
            assert(words@ =~= words_of_le_bytes(input@.take(bi + 4)));
        }
        bi = bi + 4;
    }
    proof {
        assert(input@.take(input@.len() as int) =~= input@);
    }
    words
}

/// Unpacks each word into its 8 nibbles, most significant first,
/// mirroring the packer's insertion order.
fn nibbles_from_words(words: &Vec<u32>) -> (nibs: Vec<u8>)
    ensures
        nibs@ == nibbles_of_words(words@),
{
    let mut nibs: Vec<u8> = Vec::new();
    let mut wi: usize = 0;
    proof {
        assert(words@.take(0) =~= Seq::<u32>::empty());
        assert(nibbles_of_words(Seq::<u32>::empty()) =~= Seq::<u8>::empty());
    }
    while wi < words.len()
        invariant
            wi <= words@.len(),
            nibs@ == nibbles_of_words(words@.take(wi as int)),
        decreases words@.len() - wi,
    {
        let w = words[wi];
        nibs.push(((w / 0x10000000) % 16) as u8);
        nibs.push(((w / 0x1000000) % 16) as u8);
        nibs.push(((w / 0x100000) % 16) as u8);
        nibs.push(((w / 0x10000) % 16) as u8);
        nibs.push(((w / 0x1000) % 16) as u8);
        nibs.push(((w / 0x100) % 16) as u8);
        nibs.push(((w / 0x10) % 16) as u8);
        nibs.push((w % 16) as u8);
        proof {
            assert(words@.take(wi + 1) =~= words@.take(wi as int).push(w));
            lemma_nibbles_of_words_snoc(words@.take(wi as int), w);
            assert(nibs@ =~= nibbles_of_words(words@.take(wi as int)) + word_nibbles(w));
        }
        wi = wi + 1;
    }
    proof {
        assert(words@.take(words@.len() as int) =~= words@);
    }
    nibs
}

/// Decodes `k` delta-encoded samples of a non-zero run starting at
/// `start`, appending them to `output`.  Returns the cursor after the
/// run, the new previous sample, and whether the stream held all `k`
/// values before running out.
#[verifier::loop_isolation(false)]
fn decode_run(nibs: &Vec<u8>, start: usize, prev: u16, k: usize, output: &mut Vec<u16>) -> (r: (
    usize,
    u16,
    bool,
))
    requires
        start <= nibs@.len(),
    ensures
        final(output)@ == old(output)@ + dec_nonzeros(nibs@, start as nat, prev, k as nat).0,
        r.0 as nat == dec_nonzeros(nibs@, start as nat, prev, k as nat).1,
        r.1 == dec_nonzeros(nibs@, start as nat, prev, k as nat).2,
        r.2 == dec_nonzeros(nibs@, start as nat, prev, k as nat).3,
        start <= r.0 <= nibs@.len(),
        final(output)@.len() <= old(output)@.len() + k,
{
    let ghost full = dec_nonzeros(nibs@, start as nat, prev, k as nat);
    let ghost out0 = output@;
    let mut previous = prev;
    let mut ii = start;
    let mut j: usize = 0;
    proof {
        assert(output@.skip(out0.len() as int) =~= Seq::<u16>::empty());
        assert(Seq::<u16>::empty() + full.0 =~= full.0);
    }
    while j < k
        invariant
            j <= k,
            start <= ii <= nibs@.len(),
            output@.len() == out0.len() + j,
            output@.take(out0.len() as int) == out0,
            full.0 == output@.skip(out0.len() as int) + dec_nonzeros(
                nibs@,
                ii as nat,
                previous,
                (k - j) as nat,
            ).0,
            full.1 == dec_nonzeros(nibs@, ii as nat, previous, (k - j) as nat).1,
            full.2 == dec_nonzeros(nibs@, ii as nat, previous, (k - j) as nat).2,
            full.3 == dec_nonzeros(nibs@, ii as nat, previous, (k - j) as nat).3,
        decreases k - j,
    {
        let ghost rest = dec_nonzeros(nibs@, ii as nat, previous, (k - j) as nat);
        let (p, inext) = match decode_vle(nibs, ii) {
            None => {
                proof {
                    assert(rest.0 =~= Seq::<u16>::empty());
                    assert(output@.skip(out0.len() as int) + rest.0 =~= output@.skip(
                        out0.len() as int,
                    ));
                    assert(out0 + output@.skip(out0.len() as int) =~= output@);
                }
                return (ii, previous, false);
            },
            Some(q) => q,
        };
        let s = apply_delta(previous, p);
        let ghost emitted = output@.skip(out0.len() as int);
        output.push(s);
        proof {
            let rest2 = dec_nonzeros(nibs@, inext as nat, s, (k - j - 1) as nat);
            assert(rest.0 == seq![s] + rest2.0);
            assert(output@.skip(out0.len() as int) =~= emitted + seq![s]);
            vstd::seq_lib::lemma_concat_associative(emitted, seq![s], rest2.0);
            assert(output@.take(out0.len() as int) =~= out0);
        }
        previous = s;
        ii = inext;
        j = j + 1;
    }
    proof {
        assert(dec_nonzeros(nibs@, ii as nat, previous, 0).0 =~= Seq::<u16>::empty());
        assert(output@.skip(out0.len() as int) + Seq::<u16>::empty() =~= output@.skip(
            out0.len() as int,
        ));
        assert(out0 + output@.skip(out0.len() as int) =~= output@);
    }
    (ii, previous, true)
}

impl RVLCodec {
    /// Decompresses a byte buffer into exactly `num_pixels` samples, or
    /// fewer if the buffer is truncated (the samples assembled so far are
    /// returned).  A buffer whose length is not a multiple of 4 is
    /// rejected with [`RvlError::InvalidEncoding`] and an empty output.
    /// A decoded run count that would overshoot `num_pixels` is clamped
    /// at the boundary.
    #[verifier::loop_isolation(false)]
    #[verifier::rlimit(100)]
    pub fn decompress_rvl(&mut self, input: &[u8], output: &mut Vec<u16>, num_pixels: usize) -> (r:
        Result<(), RvlError>)
        ensures
            match decompress_spec(input@, num_pixels as nat) {
                Some(s) => r == Ok::<(), RvlError>(()) && final(output)@ == s,
                None => r == Err::<(), RvlError>(RvlError::InvalidEncoding) && final(output)@
                    == Seq::<u16>::empty(),
            },
            final(output)@.len() <= num_pixels,
    {
        output.clear();
        self.p_buffer = 0;
        self.word = 0;
        self.nibbles_written = 0;
        if input.len() % 4 != 0 {
            return Err(RvlError::InvalidEncoding);
        }
        let words = words_from_bytes(input);
        let nibs = nibbles_from_words(&words);
        decode_stream(&nibs, num_pixels, output);
        Ok(())
    }
}

/// Decodes alternating zero runs and non-zero runs from the nibble stream
/// until `num_pixels` samples have been produced or the stream runs out.
#[verifier::rlimit(100)]
fn decode_stream(nibs: &Vec<u8>, num_pixels: usize, output: &mut Vec<u16>)
    requires
        old(output)@.len() == 0,
    ensures
        final(output)@ == dec_runs(nibs@, 0, 0, num_pixels as nat),
        final(output)@.len() <= num_pixels,
{
    let ghost ns = nibs@;
    let ghost target = dec_runs(ns, 0, 0, num_pixels as nat);
    let mut i: usize = 0;
    let mut previous: u16 = 0;
    proof {
        assert(target =~= output@ + dec_runs(ns, 0, 0, num_pixels as nat));
    }
    while output.len() < num_pixels
            invariant
                i <= ns.len(),
                output@.len() <= num_pixels,
                nibs@ == ns,
                target == dec_runs(nibs@, 0, 0, num_pixels as nat),
                target == output@ + dec_runs(
                    ns,
                    i as nat,
                    previous,
                    (num_pixels - output@.len()) as nat,
                ),
            decreases ns.len() - i,
        {
            let ghost rem = (num_pixels - output@.len()) as nat;
            let ghost i_at = i as nat;
            let ghost prev_at = previous;
            let ghost out_at = output@;
            let (z, i1) = match decode_vle(&nibs, i) {
                None => {
                    proof {
                        lemma_dec_runs_none(ns, i_at, prev_at, rem);
                        assert(out_at + Seq::<u16>::empty() =~= out_at);
                    }
                    return ;
                },
                Some(p) => p,
            };
            let remu = num_pixels - output.len();
            let zn = if (z as usize) < remu {
                z as usize
            } else {
                remu
            };
            let ghost zeros = Seq::new(zn as nat, |q: int| 0u16);
            let mut t: usize = 0;
            while t < zn
                invariant
                    t <= zn,
                    output@ == out_at + Seq::new(t as nat, |q: int| 0u16),
                decreases zn - t,
            {
                output.push(0u16);
                proof {
                    assert(output@ =~= out_at + Seq::new((t + 1) as nat, |q: int| 0u16));
                }
                t = t + 1;
            }
            let (nzc, i2) = match decode_vle(&nibs, i1) {
                None => {
                    proof {
                        lemma_dec_runs_after_zeros(ns, i_at, prev_at, rem, z, i1 as nat);
                        assert(zn as nat == if z <= rem { z as nat } else { rem });
                        assert(out_at + zeros =~= output@);
                    }
                    return ;
                },
                Some(p) => p,
            };
            let rem1 = remu - zn;
            let k = if (nzc as usize) < rem1 {
                nzc as usize
            } else {
                rem1
            };
            let ghost full = dec_nonzeros(ns, i2 as nat, prev_at, k as nat);
            proof {
                lemma_dec_runs_unfold(ns, i_at, prev_at, rem, z, i1 as nat, nzc, i2 as nat);
                assert(zn as nat == if z <= rem { z as nat } else { rem });
                assert(k as nat == if nzc <= (rem - zn) as nat { nzc as nat } else { (rem - zn) as nat });
            }
            let (ii, prev2, ok) = decode_run(&nibs, i2, previous, k, output);
            if !ok {
                proof {
                    assert(dec_runs(ns, i_at, prev_at, rem) == zeros + full.0);
                    assert(out_at + (zeros + full.0) =~= output@);
                }
                return ;
            }
            proof {
                lemma_dec_nonzeros_len(ns, i2 as nat, prev_at, k as nat);
                assert(dec_runs(ns, i_at, prev_at, rem) == zeros + full.0 + dec_runs(
                    ns,
                    ii as nat,
                    prev2,
                    (rem - zn - k) as nat,
                ));
                assert(out_at + (zeros + full.0 + dec_runs(
                    ns,
                    ii as nat,
                    prev2,
                    (rem - zn - k) as nat,
                )) =~= output@ + dec_runs(ns, ii as nat, prev2, (rem - zn - k) as nat));
            }
            previous = prev2;
            i = ii;
        }
    proof {
        assert(dec_runs(ns, i as nat, previous, 0) =~= Seq::<u16>::empty());
        assert(output@ + Seq::<u16>::empty() =~= output@);
    }
}

/// Reads one variable-length integer from the nibble stream, 3 value bits
/// per nibble, least significant first, stopping at the first nibble with
/// a clear continuation flag; the value is accumulated modulo 2^32.
/// Returns `None` if the stream runs out first.
fn decode_vle(nibs: &Vec<u8>, start: usize) -> (r: Option<(u32, usize)>)
    ensures
        match r {
            Some(p) => {
                &&& start < p.1 <= nibs@.len()
                &&& vle_dec(nibs@, start as nat) == Some((p.0, p.1 as nat))
            },
            None => vle_dec(nibs@, start as nat) is None,
        },
{
    if start >= nibs.len() {
        return None;
    }
    let mut value: u64 = 0;
    let mut mult: u64 = 1;
    let mut i = start;
    proof {
        if let Some((v, j)) = vle_dec(nibs@, start as nat) {
            vstd::arithmetic::div_mod::lemma_small_mod(v as nat, 0x100000000);
        }
    }
    loop
        invariant
            start <= i <= nibs@.len(),
            value < 0x100000000,
            mult < 0x100000000,
            vle_dec(nibs@, start as nat) == vle_combine(
                value as int,
                mult as int,
                vle_dec(nibs@, i as nat),
            ),
        decreases nibs@.len() - i,
    {
        if i >= nibs.len() {
            return None;
        }
        let nib = nibs[i];
        let low3 = (nib % 8) as u64;
        proof {
            assert(low3 * mult < 0x800000000) by (nonlinear_arith)
                requires
                    low3 < 8,
                    mult < 0x100000000,
            ;
        }
        let v2 = (value + low3 * mult) % 0x100000000;
        if nib < 8 {
            return Some((v2 as u32, i + 1));
        }
        proof {
            match vle_dec(nibs@, (i + 1) as nat) {
                None => {},
                Some((rr, jj)) => {
                    lemma_vle_combine_step(value as int, mult as int, nib as int % 8, rr as int);
                },
            }
        }
        value = v2;
        mult = (mult * 8) % 0x100000000;
        i = i + 1;
    }
}

/// Applies a decoded zigzag value to the previous sample, with the
/// format's intentional 16-bit wraparound addition.
fn apply_delta(prev: u16, z: u32) -> (s: u16)
    ensures
        s == dec_sample(prev, z),
{
    if z % 2 == 0 {
        let half = (z / 2) as u64 % 0x10000;
        let v = (prev as u64 + half) % 0x10000;
        proof {
            vstd::arithmetic::div_mod::lemma_add_mod_noop_right(prev as int, z as int / 2, 0x10000);
        }
        v as u16
    } else {
        let q = (z / 2) as u64 + 1;
        let mq = q % 0x10000;
        let v = (prev as u64 + 0x10000 - mq) % 0x10000;
        proof {
            let m = 0x10000int;
            let qi = z as int / 2 + 1;
            vstd::arithmetic::div_mod::lemma_fundamental_div_mod(qi, m);
            vstd::arithmetic::div_mod::lemma_mod_multiples_vanish(1 + qi / m, prev - qi, m);
            assert(unzigzag(z as int) == -qi);
        }
        v as u16
    }
}

/// `pow16` is monotone.
proof fn lemma_pow16_le(a: nat, b: nat)
    requires
        a <= b,
    ensures
        pow16(a) <= pow16(b),
    decreases b,
{
    if a < b {
        lemma_pow16_le(a, (b - 1) as nat);
        crate::model::lemma_pow16_pos((b - 1) as nat);
    }
}

} // verus!
