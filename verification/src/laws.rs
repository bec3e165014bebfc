//! Proofs of the codec's laws: the zigzag bijection, the variable-length
//! integer round trip, the compress/decompress round trip, and the
//! compactness of all-zero input.

use vstd::prelude::*;

use crate::model::compress_spec;
use crate::model::count_nonzeros;
use crate::model::count_zeros;
use crate::model::dec_nonzeros;
use crate::model::dec_runs;
use crate::model::dec_sample;
use crate::model::decompress_spec;
use crate::model::deltas_nibbles;
use crate::model::le_bytes;
use crate::model::nibbles_of_words;
use crate::model::nibbles_word;
use crate::model::pad_to_words;
use crate::model::run_end_prev;
use crate::model::rvl_nibbles;
use crate::model::unzigzag;
use crate::model::vle_dec;
use crate::model::vle_nibbles;
use crate::model::word_le_bytes;
use crate::model::word_nibbles;
use crate::model::word_of_le_bytes;
use crate::model::word_of_nibbles;
use crate::model::words_of_le_bytes;
use crate::model::words_of_nibbles;
use crate::model::zigzag;
use crate::model::lemma_count_nonzeros_le;
use crate::model::lemma_count_zeros_char;
use crate::model::lemma_count_zeros_le;
use crate::model::lemma_count_zeros_prefix;
use crate::model::lemma_dec_runs_unfold;
use crate::model::lemma_le_bytes_len;
use crate::model::lemma_pad_to_words;

verus! {

/// Zigzag encoding is a bijection on signed 32-bit deltas: decoding the
/// encoding of any delta gives the delta back, and zero maps to zero.
pub proof fn lemma_zigzag_bijection(d: int)
    requires
        -0x80000000 <= d < 0x80000000,
    ensures
        unzigzag(zigzag(d)) == d,
        zigzag(0) == 0,
        zigzag(d) >= 0,
{
}

/// Every nibble of a variable-length encoding is below 16.
pub proof fn lemma_vle_nibbles_bound(v: nat)
    ensures
        forall|t: int| 0 <= t < vle_nibbles(v).len() ==> vle_nibbles(v)[t] < 16,
    decreases v,
{
    if v >= 8 {
        lemma_vle_nibbles_bound(v / 8);
        let e = vle_nibbles(v);
        let e2 = vle_nibbles(v / 8);
        assert forall|t: int| 0 <= t < e.len() implies e[t] < 16 by {
            if t > 0 {
                assert(e[t] == e2[t - 1]);
            }
        }
    }
}

/// A variable-length encoding is non-empty, its last nibble has a clear
/// continuation flag, and every earlier nibble has it set; so the
/// encoding uses the minimum number of nibbles the scheme admits.
pub proof fn lemma_vle_nibbles_shape(v: nat)
    ensures
        vle_nibbles(v).len() >= 1,
        vle_nibbles(v).last() < 8,
        forall|t: int| 0 <= t < vle_nibbles(v).len() - 1 ==> vle_nibbles(v)[t] >= 8,
    decreases v,
{
    if v >= 8 {
        lemma_vle_nibbles_shape(v / 8);
        let e = vle_nibbles(v);
        let e2 = vle_nibbles(v / 8);
        assert(e.last() == e2.last());
        assert forall|t: int| 0 <= t < e.len() - 1 implies e[t] >= 8 by {
            if t > 0 {
                assert(e[t] == e2[t - 1]);
            }
        }
    }
}

/// Reading a variable-length encoding placed at `i` in a larger stream
/// yields the encoded value and the position after the encoding.
pub proof fn lemma_vle_dec_encoding(a: Seq<u8>, i: nat, v: nat)
    requires
        v < 0x100000000,
        i + vle_nibbles(v).len() <= a.len(),
        a.subrange(i as int, (i + vle_nibbles(v).len()) as int) == vle_nibbles(v),
    ensures
        vle_dec(a, i) == Some((v as u32, (i + vle_nibbles(v).len()) as nat)),
    decreases v,
{
    let e = vle_nibbles(v);
    assert(a[i as int] == e[0]);
    if v < 8 {
        assert(a[i as int] == v as u8);
    } else {
        assert(e == seq![(8 + v % 8) as u8] + vle_nibbles(v / 8));
        assert(a[i as int] == (8 + v % 8) as u8);
        let e2 = vle_nibbles(v / 8);
        assert(a.subrange(i as int + 1, (i + 1 + e2.len()) as int) =~= e2) by {
            assert(forall|t: int| 0 <= t < e2.len() ==> e[t + 1] == e2[t]);
        }
        lemma_vle_dec_encoding(a, (i + 1) as nat, v / 8);
        assert(a[i as int] as int % 8 == v % 8);
        assert(v % 8 + (v / 8) * 8 == v) by {
            vstd::arithmetic::div_mod::lemma_fundamental_div_mod(v as int, 8);
        }
        vstd::arithmetic::div_mod::lemma_small_mod(v, 0x100000000);
    }
}

/// The variable-length integer round trip: decoding the encoding of any
/// value in the codec's 32-bit domain yields exactly that value, and
/// consumes exactly the encoding.
pub proof fn lemma_vle_round_trip(v: u32)
    ensures
        vle_dec(vle_nibbles(v as nat), 0) == Some((v, vle_nibbles(v as nat).len())),
        vle_nibbles(v as nat).len() >= 1,
        vle_nibbles(v as nat).last() < 8,
        forall|t: int|
            0 <= t < vle_nibbles(v as nat).len() - 1 ==> vle_nibbles(v as nat)[t] >= 8,
{
    let e = vle_nibbles(v as nat);
    assert(e.subrange(0, e.len() as int) =~= e);
    lemma_vle_dec_encoding(e, 0, v as nat);
    lemma_vle_nibbles_shape(v as nat);
}

/// Reconstructing a sample from the zigzag of its delta gives the sample
/// back.
pub proof fn lemma_dec_sample_zigzag(prev: u16, cur: u16)
    ensures
        0 <= zigzag(cur - prev) < 0x100000000,
        dec_sample(prev, zigzag(cur - prev) as u32) == cur,
{
    vstd::arithmetic::div_mod::lemma_small_mod(cur as nat, 0x10000);
}

/// Reading a delta-encoded run placed at `i` in a larger stream yields
/// the run's samples, the position after it, and its last sample.
pub proof fn lemma_dec_nonzeros_encoding(a: Seq<u8>, i: nat, run: Seq<u16>, prev: u16)
    requires
        i + deltas_nibbles(run, prev).len() <= a.len(),
        a.subrange(i as int, (i + deltas_nibbles(run, prev).len()) as int) == deltas_nibbles(run, prev),
    ensures
        dec_nonzeros(a, i, prev, run.len()) == (
            run,
            (i + deltas_nibbles(run, prev).len()) as nat,
            run_end_prev(run, prev),
            true,
        ),
    decreases run.len(),
{
    if run.len() == 0 {
        assert(run =~= Seq::<u16>::empty());
    } else {
        let e = deltas_nibbles(run, prev);
        let z = zigzag(run[0] - prev) as nat;
        let e1 = vle_nibbles(z);
        let rest = run.drop_first();
        let e2 = deltas_nibbles(rest, run[0]);
        assert(e == e1 + e2);
        lemma_dec_sample_zigzag(prev, run[0]);
        assert(a.subrange(i as int, (i + e1.len()) as int) =~= e1) by {
            assert(forall|t: int| 0 <= t < e1.len() ==> e[t] == e1[t]);
        }
        lemma_vle_dec_encoding(a, i, z);
        let i1 = i + e1.len();
        assert(a.subrange(i1 as int, (i1 + e2.len()) as int) =~= e2) by {
            assert(forall|t: int| 0 <= t < e2.len() ==> e[e1.len() + t] == e2[t]);
        }
        lemma_dec_nonzeros_encoding(a, i1 as nat, rest, run[0]);
        assert(seq![run[0]] + rest =~= run);
        if rest.len() > 0 {
            assert(rest.last() == run.last());
        }
    }
}

/// Decoding a stream that carries the encoding of a sample sequence at
/// position `i` reproduces exactly that sequence, whatever follows the
/// encoding in the stream.
pub proof fn lemma_dec_runs_encoding(a: Seq<u8>, i: nat, s: Seq<u16>, prev: u16)
    requires
        s.len() < 0x100000000,
        i + rvl_nibbles(s, prev).len() <= a.len(),
        a.subrange(i as int, (i + rvl_nibbles(s, prev).len()) as int) == rvl_nibbles(s, prev),
    ensures
        dec_runs(a, i, prev, s.len()) == s,
    decreases s.len(),
{
    if s.len() == 0 {
        assert(s =~= Seq::<u16>::empty());
    } else {
        lemma_count_zeros_le(s);
        let z = count_zeros(s);
        let rest = s.skip(z as int);
        lemma_count_nonzeros_le(rest);
        let nz = count_nonzeros(rest);
        let run = rest.take(nz as int);
        let prev2 = run_end_prev(run, prev);
        let rest2 = rest.skip(nz as int);
        let e = rvl_nibbles(s, prev);
        let e1 = vle_nibbles(z);
        let e2 = vle_nibbles(nz);
        let e3 = deltas_nibbles(run, prev);
        let e4 = rvl_nibbles(rest2, prev2);
        assert(e == e1 + e2 + e3 + e4);
        assert(a.subrange(i as int, (i + e1.len()) as int) =~= e1) by {
            assert(forall|t: int| 0 <= t < e1.len() ==> e[t] == e1[t]);
        }
        lemma_vle_dec_encoding(a, i, z);
        let i1 = i + e1.len();
        assert(a.subrange(i1 as int, (i1 + e2.len()) as int) =~= e2) by {
            assert(forall|t: int| 0 <= t < e2.len() ==> e[e1.len() + t] == e2[t]);
        }
        lemma_vle_dec_encoding(a, i1 as nat, nz);
        let i2 = i1 + e2.len();
        assert(a.subrange(i2 as int, (i2 + e3.len()) as int) =~= e3) by {
            assert(forall|t: int| 0 <= t < e3.len() ==> e[e1.len() + e2.len() + t] == e3[t]);
        }
        lemma_dec_nonzeros_encoding(a, i2 as nat, run, prev);
        let i3 = i2 + e3.len();
        assert(a.subrange(i3 as int, (i3 + e4.len()) as int) =~= e4) by {
            assert(forall|t: int|
                0 <= t < e4.len() ==> e[e1.len() + e2.len() + e3.len() + t] == e4[t]);
        }
        lemma_dec_runs_unfold(a, i, prev, s.len(), z as u32, i1 as nat, nz as u32, i2 as nat);
        lemma_count_zeros_prefix(s);
        assert(Seq::new(z, |q: int| 0u16) =~= s.take(z as int));
        if s[0] != 0 {
            assert(z == 0);
            assert(rest =~= s);
        }
        lemma_dec_runs_encoding(a, i3 as nat, rest2, prev2);
        assert(s.take(z as int) + run + rest2 =~= s);
        assert(dec_runs(a, i, prev, s.len()) == s.take(z as int) + run + rest2);
    }
}

/// Expands the packed value of an 8-nibble group into its positional sum.
proof fn lemma_nibbles_word_8(g: Seq<u8>)
    requires
        g.len() == 8,
        forall|t: int| 0 <= t < 8 ==> g[t] < 16,
    ensures
        nibbles_word(g) == g[0] * 0x10000000 + g[1] * 0x1000000 + g[2] * 0x100000 + g[3] * 0x10000
            + g[4] * 0x1000 + g[5] * 0x100 + g[6] * 0x10 + g[7],
{
    let g7 = g.drop_last();
    let g6 = g7.drop_last();
    let g5 = g6.drop_last();
    let g4 = g5.drop_last();
    let g3 = g4.drop_last();
    let g2 = g3.drop_last();
    let g1 = g2.drop_last();
    let g0 = g1.drop_last();
    assert(nibbles_word(g) == nibbles_word(g7) * 16 + g[7]);
    assert(nibbles_word(g7) == nibbles_word(g6) * 16 + g[6]);
    assert(nibbles_word(g6) == nibbles_word(g5) * 16 + g[5]);
    assert(nibbles_word(g5) == nibbles_word(g4) * 16 + g[4]);
    assert(nibbles_word(g4) == nibbles_word(g3) * 16 + g[3]);
    assert(nibbles_word(g3) == nibbles_word(g2) * 16 + g[2]);
    assert(nibbles_word(g2) == nibbles_word(g1) * 16 + g[1]);
    assert(nibbles_word(g1) == nibbles_word(g0) * 16 + g[0]);
    assert(g0.len() == 0);
    assert(nibbles_word(g0) == 0);
}

/// Unpacking the word packed from an 8-nibble group gives the group back.
proof fn lemma_word_nibbles_of_word(g: Seq<u8>)
    requires
        g.len() == 8,
        forall|t: int| 0 <= t < 8 ==> g[t] < 16,
    ensures
        word_nibbles(word_of_nibbles(g)) == g,
{
    lemma_nibbles_word_8(g);
    assert(g.take(8) =~= g);
    let n0 = g[0];
    let n1 = g[1];
    let n2 = g[2];
    let n3 = g[3];
    let n4 = g[4];
    let n5 = g[5];
    let n6 = g[6];
    let n7 = g[7];
    let w = word_of_nibbles(g);
    assert(w == n0 as u32 * 0x10000000 + n1 as u32 * 0x1000000 + n2 as u32 * 0x100000 + n3 as u32
        * 0x10000 + n4 as u32 * 0x1000 + n5 as u32 * 0x100 + n6 as u32 * 0x10 + n7 as u32);
    assert((w / 0x10000000) % 16 == n0 && (w / 0x1000000) % 16 == n1 && (w / 0x100000) % 16 == n2
        && (w / 0x10000) % 16 == n3 && (w / 0x1000) % 16 == n4 && (w / 0x100) % 16 == n5 && (w
        / 0x10) % 16 == n6 && w % 16 == n7) by (bit_vector)
        requires
            w == n0 as u32 * 0x10000000 + n1 as u32 * 0x1000000 + n2 as u32 * 0x100000 + n3 as u32
                * 0x10000 + n4 as u32 * 0x1000 + n5 as u32 * 0x100 + n6 as u32 * 0x10 + n7 as u32,
            n0 < 16,
            n1 < 16,
            n2 < 16,
            n3 < 16,
            n4 < 16,
            n5 < 16,
            n6 < 16,
            n7 < 16,
    ;
    assert(word_nibbles(w) =~= g);
}

/// Every nibble produced by the run/delta encoder is below 16.
pub proof fn lemma_deltas_nibbles_bound(run: Seq<u16>, prev: u16)
    ensures
        forall|t: int| 0 <= t < deltas_nibbles(run, prev).len() ==> deltas_nibbles(run, prev)[t]
            < 16,
    decreases run.len(),
{
    if run.len() > 0 {
        lemma_vle_nibbles_bound(zigzag(run[0] - prev) as nat);
        lemma_deltas_nibbles_bound(run.drop_first(), run[0]);
        let e = deltas_nibbles(run, prev);
        let e1 = vle_nibbles(zigzag(run[0] - prev) as nat);
        let e2 = deltas_nibbles(run.drop_first(), run[0]);
        assert forall|t: int| 0 <= t < e.len() implies e[t] < 16 by {
            if t < e1.len() {
                assert(e[t] == e1[t]);
            } else {
                assert(e[t] == e2[t - e1.len()]);
            }
        }
    }
}

/// Every nibble of an encoded sample stream is below 16.
pub proof fn lemma_rvl_nibbles_bound(s: Seq<u16>, prev: u16)
    ensures
        forall|t: int| 0 <= t < rvl_nibbles(s, prev).len() ==> rvl_nibbles(s, prev)[t] < 16,
    decreases s.len(),
{
    if s.len() > 0 {
        lemma_count_zeros_le(s);
        let z = count_zeros(s);
        let rest = s.skip(z as int);
        lemma_count_nonzeros_le(rest);
        let nz = count_nonzeros(rest);
        let run = rest.take(nz as int);
        lemma_vle_nibbles_bound(z);
        lemma_vle_nibbles_bound(nz);
        lemma_deltas_nibbles_bound(run, prev);
        if s[0] != 0 {
            assert(z == 0);
            assert(rest =~= s);
        }
        lemma_rvl_nibbles_bound(rest.skip(nz as int), run_end_prev(run, prev));
        let e = rvl_nibbles(s, prev);
        let e1 = vle_nibbles(z);
        let e2 = vle_nibbles(nz);
        let e3 = deltas_nibbles(run, prev);
        let e4 = rvl_nibbles(rest.skip(nz as int), run_end_prev(run, prev));
        assert(e == e1 + e2 + e3 + e4);
        assert forall|t: int| 0 <= t < e.len() implies e[t] < 16 by {
            if t < e1.len() {
                assert(e[t] == e1[t]);
            } else if t < e1.len() + e2.len() {
                assert(e[t] == e2[t - e1.len()]);
            } else if t < e1.len() + e2.len() + e3.len() {
                assert(e[t] == e3[t - e1.len() - e2.len()]);
            } else {
                assert(e[t] == e4[t - e1.len() - e2.len() - e3.len()]);
            }
        }
    }
}

/// Unpacking the words packed from a whole-word nibble stream gives the
/// stream back.
proof fn lemma_unpack_pack(p: Seq<u8>)
    requires
        p.len() % 8 == 0,
        forall|t: int| 0 <= t < p.len() ==> p[t] < 16,
    ensures
        nibbles_of_words(words_of_nibbles(p)) == p,
    decreases p.len(),
{
    if p.len() == 0 {
        assert(words_of_nibbles(p) =~= Seq::<u32>::empty());
        assert(p =~= Seq::<u8>::empty());
    } else {
        assert(p.len() >= 8) by {
            if p.len() < 8 {
                vstd::arithmetic::div_mod::lemma_small_mod(p.len(), 8);
            }
        }
        let g = p.take(8);
        let tail = p.skip(8);
        assert(g.take(8) =~= g);
        assert(word_of_nibbles(p) == word_of_nibbles(g));
        lemma_word_nibbles_of_word(g);
        assert(tail.len() % 8 == 0) by {
            vstd::arithmetic::div_mod::lemma_mod_sub_multiples_vanish(p.len() as int, 8);
        }
        lemma_unpack_pack(tail);
        let ws = words_of_nibbles(p);
        assert(ws == seq![word_of_nibbles(p)] + words_of_nibbles(tail));
        assert(ws.drop_first() =~= words_of_nibbles(tail));
        assert(ws[0] == word_of_nibbles(p));
        assert(nibbles_of_words(ws) == word_nibbles(ws[0]) + nibbles_of_words(ws.drop_first()));
        assert(g + tail =~= p);
    }
}

/// Reading back the little-endian bytes of a word gives the word back.
proof fn lemma_word_le_bytes_round(w: u32)
    ensures
        word_of_le_bytes(
            word_le_bytes(w)[0],
            word_le_bytes(w)[1],
            word_le_bytes(w)[2],
            word_le_bytes(w)[3],
        ) == w,
{
    assert(w % 256 + ((w / 256) % 256) * 256 + ((w / 65536) % 256) * 65536 + ((w / 16777216) % 256)
        * 16777216 == w) by (bit_vector);
}

/// Reading back a serialized word sequence gives the sequence back.
proof fn lemma_words_of_le_bytes_round(ws: Seq<u32>)
    ensures
        words_of_le_bytes(le_bytes(ws)) == ws,
    decreases ws.len(),
{
    if ws.len() == 0 {
        assert(le_bytes(ws) =~= Seq::<u8>::empty());
        assert(words_of_le_bytes(Seq::<u8>::empty()) =~= Seq::<u32>::empty());
        assert(ws =~= Seq::<u32>::empty());
    } else {
        let bs = le_bytes(ws);
        let b0 = word_le_bytes(ws[0]);
        let tail = le_bytes(ws.drop_first());
        assert(bs == b0 + tail);
        assert(bs.len() >= 4);
        lemma_word_le_bytes_round(ws[0]);
        assert(bs[0] == b0[0] && bs[1] == b0[1] && bs[2] == b0[2] && bs[3] == b0[3]);
        assert(bs.skip(4) =~= tail);
        lemma_words_of_le_bytes_round(ws.drop_first());
        assert(words_of_le_bytes(bs) =~= ws);
    }
}

/// The round-trip law: decoding the compression of any sample sequence in
/// the codec's 32-bit length domain, at that sequence's length, gives the
/// sequence back.
pub proof fn lemma_round_trip(s: Seq<u16>)
    requires
        s.len() < 0x100000000,
    ensures
        decompress_spec(compress_spec(s), s.len()) == Some(s),
{
    let content = rvl_nibbles(s, 0);
    let p = pad_to_words(content);
    let ws = words_of_nibbles(p);
    let bytes = le_bytes(ws);
    lemma_le_bytes_len(ws);
    assert(bytes.len() % 4 == 0) by {
        vstd::arithmetic::div_mod::lemma_mod_multiples_basic(ws.len() as int, 4);
    }
    lemma_words_of_le_bytes_round(ws);
    lemma_pad_to_words(content);
    lemma_rvl_nibbles_bound(s, 0);
    assert(forall|t: int| 0 <= t < p.len() ==> p[t] < 16) by {
        assert(forall|t: int| 0 <= t < content.len() ==> p[t] == content[t]);
    }
    lemma_unpack_pack(p);
    assert(p.subrange(0, content.len() as int) == content) by {
        assert(p.take(content.len() as int) == content);
    }
    lemma_dec_runs_encoding(p, 0, s, 0);
}

/// Encoding a sequence of zeros costs one variable-length integer for the
/// run length plus one empty-run marker: at most two words of output for
/// any length in the 32-bit domain, and a single word when the length
/// fits in 7 nibbles.  In particular the output never exceeds 8 bytes,
/// far below the two bytes per sample of the raw form.
pub proof fn lemma_zero_run_compact(n: nat)
    requires
        n < 0x100000000,
    ensures
        compress_spec(Seq::new(n, |q: int| 0u16)).len() <= 8,
        n < 0x200000 ==> compress_spec(Seq::new(n, |q: int| 0u16)).len() <= 4,
        n >= 5 ==> compress_spec(Seq::new(n, |q: int| 0u16)).len() < 2 * n,
{
    let s = Seq::new(n, |q: int| 0u16);
    let content = rvl_nibbles(s, 0);
    let p = pad_to_words(content);
    let ws = words_of_nibbles(p);
    lemma_le_bytes_len(ws);
    lemma_pad_to_words(content);
    if n == 0 {
        assert(content =~= Seq::<u8>::empty());
        assert(p.len() == 0);
        assert(ws =~= Seq::<u32>::empty());
    } else {
        lemma_count_zeros_char(s, n);
        let rest = s.skip(n as int);
        assert(rest =~= Seq::<u16>::empty());
        assert(count_nonzeros(rest) == 0);
        assert(rest.take(0) =~= Seq::<u16>::empty());
        assert(deltas_nibbles(Seq::<u16>::empty(), 0) =~= Seq::<u8>::empty());
        assert(rvl_nibbles(Seq::<u16>::empty(), 0) =~= Seq::<u8>::empty());
        assert(vle_nibbles(0) =~= seq![0u8]);
        assert(content =~= vle_nibbles(n) + seq![0u8]);
        assert(pow8(11) == 0x200000000 && pow8(7) == 0x200000) by {
            reveal_with_fuel(pow8, 12);
        }
        assert(vle_nibbles(n).len() <= 11) by {
            lemma_vle_nibbles_len(n, 11);
        }
        if n < 0x200000 {
            lemma_vle_nibbles_len(n, 7);
        }
        assert(content.len() <= 12);
        assert(p.len() <= 16);
        lemma_words_of_nibbles_len(p);
        assert(ws.len() <= 2);
        if content.len() <= 8 {
            assert(p.len() <= 8) by {
                if p.len() > 8 {
                    vstd::arithmetic::div_mod::lemma_small_mod((p.len() - 8) as nat, 8);
                    vstd::arithmetic::div_mod::lemma_mod_sub_multiples_vanish(p.len() as int, 8);
                }
            }
            assert(ws.len() <= 1);
        }
    }
}

/// A value below `8^k` is encoded in at most `k` nibbles.
proof fn lemma_vle_nibbles_len(v: nat, k: nat)
    requires
        k >= 1,
        v < pow8(k),
    ensures
        vle_nibbles(v).len() <= k,
    decreases v,
{
    if v >= 8 {
        assert(pow8(k) == 8 * pow8((k - 1) as nat));
        lemma_vle_nibbles_len(v / 8, (k - 1) as nat);
    }
}

/// 8 to the power `n`.
spec fn pow8(n: nat) -> int
    decreases n,
{
    if n == 0 {
        1
    } else {
        8 * pow8((n - 1) as nat)
    }
}

/// Packing yields one word for each whole 8-nibble group.
proof fn lemma_words_of_nibbles_len(ns: Seq<u8>)
    ensures
        words_of_nibbles(ns).len() * 8 <= ns.len(),
        ns.len() < words_of_nibbles(ns).len() * 8 + 8,
    decreases ns.len(),
{
    if ns.len() >= 8 {
        lemma_words_of_nibbles_len(ns.skip(8));
    }
}

} // verus!
