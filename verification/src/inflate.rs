//! Reading DEFLATE streams (RFC 1951, 3.2): a decoder, stated as spec functions, and the proofs
//! that what the encoders write decodes back to their tokens.
use vstd::arithmetic::div_mod::{
    lemma_basic_div, lemma_div_denominator, lemma_div_is_ordered, lemma_fundamental_div_mod,
    lemma_mod_breakdown,
};
use vstd::arithmetic::power2::{lemma2_to64, lemma_pow2_pos, lemma_pow2_unfold, pow2};
use vstd::bits::{lemma_u32_shr_is_div, lemma_u64_shr_is_div};
use vstd::prelude::*;

use crate::bit_writer::{bit_at, bytes_to_bits, low_bits, packs, pad_len, zero_bits};
use crate::encoding::{huff_bits, token_bits, tokens_bits};
use crate::lz77::{lz_decode, lz_refs_ok, token_wf, Lz77Token};
use crate::profile::DeflateStrategy;
use crate::stream::{concat_bits, concat_tokens, deflate_bytes, deflate_stream, fresh_blocks, shared_blocks, total_dist_freqs, total_lit_freqs};
use crate::tables::{
    dist_base_seq, dist_extra_seq, dist_index, lemma_dist_index_range, lemma_extra_bounds,
    lemma_length_index_range, length_base_seq, length_extra_seq, length_index,
};
use crate::fixed::{block_header_bits, fixed_block_bits, fixed_dist_lengths, fixed_lit_lengths};
use crate::dynamic_block::{
    cl_decode, cl_freq_of, cl_lens_bits, cl_order, cl_token_ok, cl_tokens_bits, cl_tokens_ok, hclen_of,
    huffman_lengths_of, is_dynamic_block, lemma_cl_code_within, two_symbols, ClToken, block_dist_freqs,
    block_lit_freqs, built_trees, dist_sym_count, is_fresh_block, lemma_built_trees_codes, lemma_counts_bound,
    lit_sym_count, total_dist_freq, total_lit_freq,
};
use crate::huffman::{bit32, canonical_code, count_len, first_code, lemma_count_len_take_step};

verus! {

// ---------------------------------------------------------------------------
// Reading bits
// ---------------------------------------------------------------------------

/// The `n` bits at `p` read as a number, least significant bit first (how DEFLATE sends header
/// fields and extra bits).
pub open spec fn bits_value(bits: Seq<bool>, p: int, n: nat) -> nat
    decreases n,
{
    if n == 0 {
        0
    } else {
        bits_value(bits, p, (n - 1) as nat) + if bits[p + n - 1] {
            pow2((n - 1) as nat)
        } else {
            0
        }
    }
}

/// The `l` bits at `p` read as a number, most significant bit first (how DEFLATE sends Huffman
/// codes).
pub open spec fn msb_value(bits: Seq<bool>, p: int, l: nat) -> nat
    decreases l,
{
    if l == 0 {
        0
    } else {
        2 * msb_value(bits, p, (l - 1) as nat) + if bits[p + l - 1] {
            1nat
        } else {
            0nat
        }
    }
}

/// `n` bits written least significant first read back as the value modulo `2^n`.
pub proof fn lemma_bits_value_low(bits: Seq<bool>, p: int, v: u64, n: nat)
    requires
        n <= 64,
        forall|i: int| 0 <= i < n ==> #[trigger] bits[p + i] == bit_at(v, i),
    ensures
        bits_value(bits, p, n) == v as int % pow2(n) as int,
    decreases n,
{
    lemma_pow2_pos(n);
    lemma2_to64();
    if n == 0 {
        assert(v as int % 1 == 0);
    } else {
        let k = (n - 1) as nat;
        lemma_bits_value_low(bits, p, v, k);
        lemma_pow2_pos(k);
        lemma_u64_shr_is_div(v, k as u64);
        let sh = v >> (k as u64);
        assert((sh & 1u64 == 1u64) == (sh % 2 == 1)) by (bit_vector);
        assert(bits[p + k] == bit_at(v, k as int));
        lemma_mod_breakdown(v as int, pow2(k) as int, 2);
        lemma_pow2_unfold(n);
        assert(pow2(k) * 2 == pow2(n));
        let q = v as int / pow2(k) as int;
        assert(sh as int == q);
        assert(sh % 2 == q % 2);
        if q % 2 == 1 {
            let pk = pow2(k) as int;
            assert(pk * (q % 2) == pk) by (nonlinear_arith)
                requires
                    q % 2 == 1,
            ;
        } else {
            let pk = pow2(k) as int;
            assert(pk * (q % 2) == 0) by (nonlinear_arith)
                requires
                    q % 2 == 0,
            ;
        }
    }
}

/// A value below `2^n`, written as its low `n` bits, reads back as itself.
pub proof fn lemma_bits_value(bits: Seq<bool>, p: int, v: u64, n: nat)
    requires
        n <= 64,
        v < pow2(n),
        forall|i: int| 0 <= i < n ==> #[trigger] bits[p + i] == bit_at(v, i),
    ensures
        bits_value(bits, p, n) == v,
{
    lemma_bits_value_low(bits, p, v, n);
    vstd::arithmetic::div_mod::lemma_small_mod(v as nat, pow2(n));
}

/// The first `l` of the `len` bits of `c`, sent most significant first, read back as `c`
/// shifted right by the rest.
proof fn lemma_msb_value(bits: Seq<bool>, p: int, c: u32, len: nat, l: nat)
    requires
        l <= len <= 32,
        c < pow2(len),
        forall|i: int| 0 <= i < len ==> #[trigger] bits[p + i] == bit32(c, len - 1 - i),
    ensures
        msb_value(bits, p, l) == c as int / pow2((len - l) as nat) as int,
    decreases l,
{
    lemma_pow2_pos((len - l) as nat);
    if l == 0 {
        lemma_basic_div(c as int, pow2(len) as int);
    } else {
        let k = (len - l) as nat;
        lemma_msb_value(bits, p, c, len, (l - 1) as nat);
        assert(bits[p + (l - 1)] == bit32(c, len - 1 - (l - 1)));
        lemma_u32_shr_is_div(c, k as u32);
        let x = c >> (k as u32);
        assert((x & 1u32 == 1u32) == (x % 2 == 1)) by (bit_vector);
        lemma_div_denominator(c as int, pow2(k) as int, 2);
        lemma_pow2_unfold(k + 1);
        assert(pow2(k) * 2 == pow2(k + 1));
        assert((len - (l - 1)) as nat == k + 1);
        lemma_fundamental_div_mod(x as int, 2);
    }
}

// ---------------------------------------------------------------------------
// Canonical Huffman codes, read back
// ---------------------------------------------------------------------------

/// The codes of every length `l` end by `2^l`: what Kraft's inequality gives canonical codes.
pub open spec fn codes_within(lens: Seq<u8>) -> bool {
    forall|l: nat| 1 <= l <= 15 ==> #[trigger] first_code(lens, l) + count_len(lens, l as int) <= pow2(l)
}

proof fn lemma_first_nonneg(lens: Seq<u8>, l: nat)
    ensures
        first_code(lens, l) >= 0,
    decreases l,
{
    if l > 0 {
        lemma_first_nonneg(lens, (l - 1) as nat);
    }
}

/// The first code of a longer length, shifted back to length `l`, lies past every code of
/// length `l`.
proof fn lemma_first_shift(lens: Seq<u8>, l: nat, k: nat)
    requires
        k >= 1,
    ensures
        first_code(lens, l + k) / pow2(k) as int >= first_code(lens, l) + count_len(lens, l as int),
    decreases k,
{
    lemma_pow2_pos(k);
    lemma_first_nonneg(lens, l);
    if k == 1 {
        lemma2_to64();
    } else {
        let k1 = (k - 1) as nat;
        lemma_first_shift(lens, l, k1);
        lemma_pow2_pos(k1);
        lemma_first_nonneg(lens, l + k1);
        lemma_pow2_unfold(k);
        lemma2_to64();
        lemma_div_denominator(first_code(lens, l + k), 2, pow2(k1) as int);
        assert(first_code(lens, l + k) / 2 == first_code(lens, l + k1) + count_len(lens, (l + k1) as int));
        lemma_div_is_ordered(first_code(lens, l + k1), first_code(lens, l + k1) + count_len(lens, (l + k1) as int), pow2(k1) as int);
    }
}

/// A symbol of length `l` comes before a later one of the same length in the count of earlier
/// symbols.
proof fn lemma_rank_increases(lens: Seq<u8>, a: int, b: int, l: int)
    requires
        0 <= a < b <= lens.len(),
        lens[a] == l,
        l != 0,
    ensures
        count_len(lens.take(b), l) >= count_len(lens.take(a), l) + 1,
    decreases b - a,
{
    if b == a + 1 {
        lemma_count_len_take_step(lens, a, l);
    } else {
        lemma_rank_increases(lens, a, b - 1, l);
        lemma_count_len_take_step(lens, b - 1, l);
    }
}

/// The symbol of length `l` with `r` earlier symbols of that length.
pub open spec fn code_symbol(lens: Seq<u8>, l: nat, r: int) -> int {
    choose|s: int| 0 <= s < lens.len() && lens[s] == l && count_len(lens.take(s), l as int) == r
}

/// Decoding a Huffman code at `p` under the code lengths `lens` (RFC 1951, 3.2.2), trying
/// lengths from `l` on: the first length whose codes hold the bits read so far gives the
/// symbol and the position after its code.
pub open spec fn huff_from(lens: Seq<u8>, bits: Seq<bool>, p: int, l: nat) -> Option<(int, int)>
    decreases 16 - l,
{
    if l > 15 || p + l > bits.len() {
        None
    } else {
        let c = msb_value(bits, p, l);
        let f = first_code(lens, l);
        if l >= 1 && f <= c < f + count_len(lens, l as int) {
            Some((code_symbol(lens, l, c - f), p + l))
        } else {
            huff_from(lens, bits, p, l + 1)
        }
    }
}

/// The symbol whose Huffman code starts at `p`, and the position after it.
pub open spec fn huff_decode(lens: Seq<u8>, bits: Seq<bool>, p: int) -> Option<(int, int)> {
    huff_from(lens, bits, p, 1)
}

/// The bits at `p` hold the code of `s` (all of its bits).
pub open spec fn holds_code(bits: Seq<bool>, p: int, lens: Seq<u8>, s: int) -> bool {
    &&& 0 <= p
    &&& p + lens[s] <= bits.len()
    &&& forall|i: int| 0 <= i < lens[s] ==> bits[p + i] == #[trigger] huff_bits(lens, s)[i]
}

proof fn lemma_huff_from(lens: Seq<u8>, bits: Seq<bool>, p: int, s: int, l: nat)
    requires
        0 <= s < lens.len(),
        1 <= l <= lens[s] <= 15,
        codes_within(lens),
        holds_code(bits, p, lens, s),
    ensures
        huff_from(lens, bits, p, l) == Some((s, p + lens[s])),
    decreases lens[s] - l,
{
    let len = lens[s] as nat;
    let r = count_len(lens.take(s), len as int);
    let code = canonical_code(lens, s);
    lemma_first_nonneg(lens, len);
    assert(lens.take(lens.len() as int) =~= lens);
    lemma_rank_increases(lens, s, lens.len() as int, len as int);
    assert(first_code(lens, len) + count_len(lens, len as int) <= pow2(len));
    lemma2_to64();
    vstd::arithmetic::power2::lemma_pow2_strictly_increases(len, 32);
    let c = code as u32;
    assert forall|i: int| 0 <= i < len implies #[trigger] bits[p + i] == bit32(c, len - 1 - i) by {
        assert(bits[p + i] == huff_bits(lens, s)[i]);
    }
    lemma_msb_value(bits, p, c, len, l);
    lemma_pow2_pos((len - l) as nat);
    if l == len {
        assert(c == code);
        vstd::arithmetic::div_mod::lemma_div_basics(code);
        assert(msb_value(bits, p, l) == code);
        let s2 = code_symbol(lens, len, r as int);
        assert(0 <= s < lens.len() && lens[s] == len && count_len(lens.take(s), len as int) == r);
        if s2 != s {
            if s2 < s {
                lemma_rank_increases(lens, s2, s, len as int);
            } else {
                lemma_rank_increases(lens, s, s2, len as int);
            }
        }
    } else {
        let k = (len - l) as nat;
        lemma_first_shift(lens, l, k);
        lemma_div_is_ordered(first_code(lens, len), code, pow2(k) as int);
        assert(msb_value(bits, p, l) >= first_code(lens, l) + count_len(lens, l as int));
        lemma_huff_from(lens, bits, p, s, l + 1);
    }
}

/// Decoding the code of a symbol gives the symbol back, after exactly its code's bits.
pub proof fn lemma_huff_decode(lens: Seq<u8>, bits: Seq<bool>, p: int, s: int)
    requires
        0 <= s < lens.len(),
        1 <= lens[s] <= 15,
        codes_within(lens),
        holds_code(bits, p, lens, s),
    ensures
        huff_decode(lens, bits, p) == Some((s, p + lens[s])),
{
    lemma_huff_from(lens, bits, p, s, 1);
}

/// The code space of the first `n` symbols whose lengths lie in `1..=l`, in units of `2^-l`.
pub open spec fn space_upto(lens: Seq<u8>, l: nat, n: int) -> nat
    decreases n,
{
    if n <= 0 {
        0
    } else {
        space_upto(lens, l, n - 1) + if 1 <= lens[n - 1] <= l {
            pow2((l - lens[n - 1]) as nat)
        } else {
            0
        }
    }
}

proof fn lemma_space_step(lens: Seq<u8>, l: nat, n: int)
    requires
        l >= 1,
        0 <= n <= lens.len(),
    ensures
        space_upto(lens, l, n) == 2 * space_upto(lens, (l - 1) as nat, n) + count_len(lens.take(n), l as int),
    decreases n,
{
    if n > 0 {
        lemma_space_step(lens, l, n - 1);
        lemma_count_len_take_step(lens, n - 1, l as int);
        let x = lens[n - 1];
        if 1 <= x <= l - 1 {
            lemma_pow2_unfold((l - x) as nat);
            assert((l - x) as nat - 1 == (l - 1 - x) as nat);
        } else if x == l {
            lemma2_to64();
        }
    } else {
        assert(lens.take(0) =~= Seq::<u8>::empty());
    }
}

/// The codes of lengths up to `l` and those of length `l` span `space_upto(lens, l, _)` codes.
proof fn lemma_first_space(lens: Seq<u8>, l: nat)
    ensures
        first_code(lens, l) + count_len(lens, l as int) == space_upto(lens, l, lens.len() as int),
    decreases l,
{
    assert(lens.take(lens.len() as int) =~= lens);
    if l == 0 {
        lemma_space_zero(lens, lens.len() as int);
        lemma_count_zero(lens, lens.len() as int, 0);
    } else {
        lemma_first_space(lens, (l - 1) as nat);
        lemma_space_step(lens, l, lens.len() as int);
    }
}

proof fn lemma_space_zero(lens: Seq<u8>, n: int)
    requires
        0 <= n <= lens.len(),
    ensures
        space_upto(lens, 0, n) == 0,
    decreases n,
{
    if n > 0 {
        lemma_space_zero(lens, n - 1);
    }
}

/// No symbol among the first `n` has length `l`: none is counted.
proof fn lemma_count_zero(lens: Seq<u8>, n: int, l: int)
    requires
        0 <= n <= lens.len(),
        l == 0 || forall|i: int| 0 <= i < n ==> lens[i] != l,
    ensures
        count_len(lens.take(n), l) == 0,
    decreases n,
{
    if n > 0 {
        lemma_count_zero(lens, n - 1, l);
        lemma_count_len_take_step(lens, n - 1, l);
    } else {
        assert(lens.take(0) =~= Seq::<u8>::empty());
    }
}

proof fn lemma_space_used(lens: Seq<u8>, l: nat, m: nat, n: int)
    requires
        l <= m,
        0 <= n <= lens.len(),
        forall|i: int| 0 <= i < n ==> lens[i] <= m,
    ensures
        space_upto(lens, l, n) * pow2((m - l) as nat) <= crate::dynamic_block::used_code_space(lens, m, n),
    decreases n,
{
    if n > 0 {
        lemma_space_used(lens, l, m, n - 1);
        let x = lens[n - 1];
        let a = space_upto(lens, l, n - 1);
        let c = pow2((m - l) as nat);
        lemma_pow2_pos((m - l) as nat);
        if 1 <= x <= l {
            vstd::arithmetic::power2::lemma_pow2_adds((l - x) as nat, (m - l) as nat);
            assert((l - x) as nat + (m - l) as nat == (m - x) as nat);
            let b = pow2((l - x) as nat);
            assert((a + b) * c == a * c + b * c) by (nonlinear_arith);
            assert(b * c == pow2((m - x) as nat));
            assert(space_upto(lens, l, n) == a + b);
            assert(crate::dynamic_block::used_code_space(lens, m, n) == crate::dynamic_block::used_code_space(lens, m, n - 1) + pow2((m - x) as nat));
        } else {
            assert(space_upto(lens, l, n) == a);
            assert(crate::dynamic_block::used_code_space(lens, m, n) >= crate::dynamic_block::used_code_space(lens, m, n - 1));
        }
    } else {
        assert(space_upto(lens, l, n) == 0);
        assert(0 * pow2((m - l) as nat) == 0);
    }
}

/// A code whose lengths are at most `m` (at most 15) and use no more than all the code space
/// has every length's codes within that many bits.
pub proof fn lemma_codes_within(lens: Seq<u8>, m: nat)
    requires
        1 <= m <= 15,
        forall|i: int| 0 <= i < lens.len() ==> lens[i] <= m,
        crate::dynamic_block::used_code_space(lens, m, lens.len() as int) <= pow2(m),
    ensures
        codes_within(lens),
{
    assert forall|l: nat| 1 <= l <= 15 implies #[trigger] first_code(lens, l) + count_len(lens, l as int) <= pow2(l) by {
        lemma_first_space(lens, l);
        lemma_codes_within_at(lens, m, l);
    }
}

proof fn lemma_codes_within_at(lens: Seq<u8>, m: nat, l: nat)
    requires
        1 <= m <= 15,
        1 <= l <= 15,
        forall|i: int| 0 <= i < lens.len() ==> lens[i] <= m,
        crate::dynamic_block::used_code_space(lens, m, lens.len() as int) <= pow2(m),
    ensures
        space_upto(lens, l, lens.len() as int) <= pow2(l),
    decreases l,
{
    let n = lens.len() as int;
    if l <= m {
        lemma_space_used(lens, l, m, n);
        vstd::arithmetic::power2::lemma_pow2_adds(l, (m - l) as nat);
        assert(l + (m - l) as nat == m);
        lemma_pow2_pos((m - l) as nat);
        let a = space_upto(lens, l, n) as int;
        let c = pow2((m - l) as nat) as int;
        let d = pow2(l) as int;
        assert(a <= d) by (nonlinear_arith)
            requires
                a * c <= d * c,
                c > 0,
        ;
    } else {
        lemma_codes_within_at(lens, m, (l - 1) as nat);
        lemma_space_step(lens, l, n);
        lemma_count_zero(lens, n, l as int);
        lemma_pow2_unfold(l);
    }
}

proof fn lemma_fixed_lit_space(k: int)
    requires
        0 <= k <= 288,
    ensures
        crate::dynamic_block::used_code_space(fixed_lit_lengths(), 15, k) == if k <= 144 {
            k * 128
        } else if k <= 256 {
            18432 + (k - 144) * 64
        } else if k <= 280 {
            25600 + (k - 256) * 256
        } else {
            31744 + (k - 280) * 128
        },
    decreases k,
{
    if k > 0 {
        lemma_fixed_lit_space(k - 1);
        lemma2_to64();
    }
}

proof fn lemma_fixed_dist_space(k: int)
    requires
        0 <= k <= 30,
    ensures
        crate::dynamic_block::used_code_space(fixed_dist_lengths(), 15, k) == k * 1024,
    decreases k,
{
    if k > 0 {
        lemma_fixed_dist_space(k - 1);
        lemma2_to64();
    }
}

/// The fixed codes of RFC 1951, 3.2.6 fill no more than their code space.
pub proof fn lemma_fixed_codes_within()
    ensures
        codes_within(fixed_lit_lengths()),
        codes_within(fixed_dist_lengths()),
{
    lemma2_to64();
    lemma_fixed_lit_space(288);
    lemma_fixed_dist_space(30);
    lemma_codes_within(fixed_lit_lengths(), 15);
    lemma_codes_within(fixed_dist_lengths(), 15);
}

// ---------------------------------------------------------------------------
// Tokens
// ---------------------------------------------------------------------------

/// Each length symbol's lengths stay below its base plus two to the power of its extra bits.
proof fn lemma_length_bases_step(s: int)
    requires
        0 <= s < 28,
    ensures
        length_base_seq()[s + 1] <= length_base_seq()[s] + pow2(length_extra_seq()[s] as nat),
{
    lemma2_to64();
    if s == 0 {
    } else if s == 1 {
    } else if s == 2 {
    } else if s == 3 {
    } else if s == 4 {
    } else if s == 5 {
    } else if s == 6 {
    } else if s == 7 {
    } else if s == 8 {
    } else if s == 9 {
    } else if s == 10 {
    } else if s == 11 {
    } else if s == 12 {
    } else if s == 13 {
    } else if s == 14 {
    } else if s == 15 {
    } else if s == 16 {
    } else if s == 17 {
    } else if s == 18 {
    } else if s == 19 {
    } else if s == 20 {
    } else if s == 21 {
    } else if s == 22 {
    } else if s == 23 {
    } else if s == 24 {
    } else if s == 25 {
    } else if s == 26 {
    } else if s == 27 {
    }
}

/// Each distance symbol's distances run up to the next symbol's base.
proof fn lemma_dist_bases_step(s: int)
    requires
        0 <= s < 29,
    ensures
        dist_base_seq()[s + 1] == dist_base_seq()[s] + pow2(dist_extra_seq()[s] as nat),
{
    lemma2_to64();
    if s == 0 {
    } else if s == 1 {
    } else if s == 2 {
    } else if s == 3 {
    } else if s == 4 {
    } else if s == 5 {
    } else if s == 6 {
    } else if s == 7 {
    } else if s == 8 {
    } else if s == 9 {
    } else if s == 10 {
    } else if s == 11 {
    } else if s == 12 {
    } else if s == 13 {
    } else if s == 14 {
    } else if s == 15 {
    } else if s == 16 {
    } else if s == 17 {
    } else if s == 18 {
    } else if s == 19 {
    } else if s == 20 {
    } else if s == 21 {
    } else if s == 22 {
    } else if s == 23 {
    } else if s == 24 {
    } else if s == 25 {
    } else if s == 26 {
    } else if s == 27 {
    } else if s == 28 {
    }
}

/// A match length is its symbol's base plus a value that fits the symbol's extra bits.
proof fn lemma_length_extra_fits(len: int)
    requires
        3 <= len <= 258,
    ensures
        0 <= length_index(len) < 29,
        length_base_seq()[length_index(len)] <= len,
        len - length_base_seq()[length_index(len)] < pow2(length_extra_seq()[length_index(len)] as nat),
{
    lemma_length_index_range(len);
    let li = length_index(len);
    lemma2_to64();
    if li < 28 {
        lemma_length_bases_step(li);
        assert(length_base_seq()[li + 1] > len);
    }
}

/// A distance is its symbol's base plus a value that fits the symbol's extra bits.
proof fn lemma_dist_extra_fits(dist: int)
    requires
        1 <= dist <= 32768,
    ensures
        0 <= dist_index(dist) < 30,
        dist_base_seq()[dist_index(dist)] <= dist,
        dist - dist_base_seq()[dist_index(dist)] < pow2(dist_extra_seq()[dist_index(dist)] as nat),
{
    lemma_dist_index_range(dist);
    let di = dist_index(dist);
    lemma2_to64();
    if di < 29 {
        lemma_dist_bases_step(di);
        assert(dist_base_seq()[di + 1] > dist);
    }
}

/// The token whose bits start at `p` under the codes `lit` and `dist`, and the position after
/// it; `None` in the token is the end of the block (RFC 1951, 3.2.5).
pub open spec fn read_token(lit: Seq<u8>, dist: Seq<u8>, bits: Seq<bool>, p: int) -> Option<(Option<Lz77Token>, int)> {
    match huff_decode(lit, bits, p) {
        None => None,
        Some((s, q)) => if s < 256 {
            Some((Some(Lz77Token::Literal(s as u8)), q))
        } else if s == 256 {
            Some((None, q))
        } else if s <= 285 {
            let li = s - 257;
            let le = length_extra_seq()[li] as nat;
            let length = length_base_seq()[li] + bits_value(bits, q, le);
            if q + le > bits.len() {
                None
            } else {
                match huff_decode(dist, bits, q + le) {
                    None => None,
                    Some((ds, r)) => if ds >= 30 || r + dist_extra_seq()[ds] > bits.len() {
                        None
                    } else {
                        let distance = dist_base_seq()[ds] + bits_value(bits, r, dist_extra_seq()[ds] as nat);
                        Some((Some(Lz77Token::Match { length: length as u16, distance: distance as u16 }), r + dist_extra_seq()[ds]))
                    },
                }
            }
        } else {
            None
        },
    }
}

/// The tokens of a block's body from `p` up to its end-of-block code, and the position after
/// that code.
pub open spec fn decode_tokens(lit: Seq<u8>, dist: Seq<u8>, bits: Seq<bool>, p: int) -> Option<(Seq<Lz77Token>, int)>
    decreases bits.len() - p,
{
    match read_token(lit, dist, bits, p) {
        None => None,
        Some((None, q)) => Some((Seq::empty(), q)),
        Some((Some(t), q)) => if q <= p || q > bits.len() {
            None
        } else {
            match decode_tokens(lit, dist, bits, q) {
                Some((ts, e)) => Some((seq![t] + ts, e)),
                None => None,
            }
        },
    }
}

/// `bits` holds `x` from `p` on.
pub open spec fn holds_bits(bits: Seq<bool>, p: int, x: Seq<bool>) -> bool {
    &&& 0 <= p
    &&& p + x.len() <= bits.len()
    &&& forall|i: int| 0 <= i < x.len() ==> bits[p + i] == #[trigger] x[i]
}

proof fn lemma_holds_split(bits: Seq<bool>, p: int, x: Seq<bool>, y: Seq<bool>)
    requires
        holds_bits(bits, p, x + y),
    ensures
        holds_bits(bits, p, x),
        holds_bits(bits, p + x.len(), y),
{
    assert forall|i: int| 0 <= i < x.len() implies bits[p + i] == #[trigger] x[i] by {
        assert((x + y)[i] == x[i]);
    }
    assert forall|i: int| 0 <= i < y.len() implies bits[p + x.len() + i] == #[trigger] y[i] by {
        assert((x + y)[x.len() + i] == y[i]);
    }
}

proof fn lemma_holds_code(bits: Seq<bool>, p: int, lens: Seq<u8>, s: int)
    requires
        holds_bits(bits, p, huff_bits(lens, s)),
    ensures
        holds_code(bits, p, lens, s),
{
}

proof fn lemma_holds_low(bits: Seq<bool>, p: int, v: u64, n: nat)
    requires
        holds_bits(bits, p, crate::bit_writer::low_bits(v, n)),
        n <= 64,
        v < pow2(n),
    ensures
        bits_value(bits, p, n) == v,
{
    assert forall|i: int| 0 <= i < n implies #[trigger] bits[p + i] == bit_at(v, i) by {
        assert(crate::bit_writer::low_bits(v, n)[i] == bit_at(v, i));
    }
    lemma_bits_value(bits, p, v, n);
}

/// The codes a token needs are present (1 to 15 bits long) in `lit` and `dist`.
pub open spec fn token_codes_ok(lit: Seq<u8>, dist: Seq<u8>, t: Lz77Token) -> bool {
    &&& token_wf(t)
    &&& match t {
        Lz77Token::Literal(b) => b < lit.len() && 1 <= lit[b as int] <= 15,
        Lz77Token::Match { length, distance } => {
            let ls = 257 + length_index(length as int);
            let ds = dist_index(distance as int);
            &&& ls < lit.len()
            &&& 1 <= lit[ls] <= 15
            &&& ds < dist.len()
            &&& 1 <= dist[ds] <= 15
        },
    }
}

/// Codes under which a block's tokens can be read back: both within their code space, and the
/// end-of-block code present.
pub open spec fn block_codes_ok(lit: Seq<u8>, dist: Seq<u8>, toks: Seq<Lz77Token>) -> bool {
    &&& codes_within(lit)
    &&& codes_within(dist)
    &&& lit.len() > 256
    &&& 1 <= lit[256] <= 15
    &&& forall|i: int| 0 <= i < toks.len() ==> token_codes_ok(lit, dist, #[trigger] toks[i])
}

/// A token's bits read back as the token.
proof fn lemma_read_token(lit: Seq<u8>, dist: Seq<u8>, bits: Seq<bool>, p: int, t: Lz77Token)
    requires
        codes_within(lit),
        codes_within(dist),
        token_codes_ok(lit, dist, t),
        holds_bits(bits, p, token_bits(lit, dist, t)),
    ensures
        read_token(lit, dist, bits, p) == Some((Some(t), p + token_bits(lit, dist, t).len())),
        token_bits(lit, dist, t).len() >= 1,
{
    match t {
        Lz77Token::Literal(b) => {
            lemma_holds_code(bits, p, lit, b as int);
            lemma_huff_decode(lit, bits, p, b as int);
        },
        Lz77Token::Match { length, distance } => {
            lemma_length_extra_fits(length as int);
            lemma_dist_extra_fits(distance as int);
            lemma_extra_bounds();
            let li = length_index(length as int);
            let di = dist_index(distance as int);
            let a = huff_bits(lit, 257 + li);
            let b = crate::bit_writer::low_bits((length - length_base_seq()[li]) as u64, length_extra_seq()[li] as nat);
            let c = huff_bits(dist, di);
            let d = crate::bit_writer::low_bits((distance - dist_base_seq()[di]) as u64, dist_extra_seq()[di] as nat);
            assert(token_bits(lit, dist, t) == a + b + c + d);
            lemma_holds_split(bits, p, a + b + c, d);
            lemma_holds_split(bits, p, a + b, c);
            lemma_holds_split(bits, p, a, b);
            lemma_holds_code(bits, p, lit, 257 + li);
            lemma_huff_decode(lit, bits, p, 257 + li);
            let q = p + a.len();
            lemma_holds_low(bits, q, (length - length_base_seq()[li]) as u64, length_extra_seq()[li] as nat);
            let q2 = q + b.len();
            lemma_holds_code(bits, q2, dist, di);
            lemma_huff_decode(dist, bits, q2, di);
            let r = q2 + c.len();
            lemma_holds_low(bits, r, (distance - dist_base_seq()[di]) as u64, dist_extra_seq()[di] as nat);
        },
    }
}

proof fn lemma_tokens_bits_concat(lit: Seq<u8>, dist: Seq<u8>, a: Seq<Lz77Token>, b: Seq<Lz77Token>)
    ensures
        tokens_bits(lit, dist, a + b) == tokens_bits(lit, dist, a) + tokens_bits(lit, dist, b),
    decreases b.len(),
{
    if b.len() == 0 {
        assert(a + b =~= a);
        assert(tokens_bits(lit, dist, a) + tokens_bits(lit, dist, b) =~= tokens_bits(lit, dist, a));
    } else {
        lemma_tokens_bits_concat(lit, dist, a, b.drop_last());
        assert((a + b).drop_last() =~= a + b.drop_last());
        assert((a + b).last() == b.last());
        assert(tokens_bits(lit, dist, a + b) =~= tokens_bits(lit, dist, a) + tokens_bits(lit, dist, b));
    }
}

proof fn lemma_tokens_bits_one(lit: Seq<u8>, dist: Seq<u8>, t: Lz77Token)
    ensures
        tokens_bits(lit, dist, seq![t]) == token_bits(lit, dist, t),
{
    assert(seq![t].drop_last() =~= Seq::<Lz77Token>::empty());
    assert(tokens_bits(lit, dist, Seq::<Lz77Token>::empty()) == Seq::<bool>::empty());
    assert(seq![t].last() == t);
    assert(tokens_bits(lit, dist, seq![t]) =~= token_bits(lit, dist, t));
}

proof fn lemma_decode_tokens_step(
    lit: Seq<u8>,
    dist: Seq<u8>,
    bits: Seq<bool>,
    pos: int,
    t: Lz77Token,
    rest: Seq<Lz77Token>,
    end: int,
)
    requires
        codes_within(lit),
        codes_within(dist),
        token_codes_ok(lit, dist, t),
        holds_bits(bits, pos, token_bits(lit, dist, t)),
        decode_tokens(lit, dist, bits, pos + token_bits(lit, dist, t).len()) == Some((rest, end)),
    ensures
        decode_tokens(lit, dist, bits, pos) == Some((seq![t] + rest, end)),
{
    lemma_read_token(lit, dist, bits, pos, t);
}

#[verifier::rlimit(30)]
proof fn lemma_decode_tokens_from(lit: Seq<u8>, dist: Seq<u8>, bits: Seq<bool>, p: int, toks: Seq<Lz77Token>, k: int)
    requires
        block_codes_ok(lit, dist, toks),
        holds_bits(bits, p, tokens_bits(lit, dist, toks) + huff_bits(lit, 256)),
        0 <= k <= toks.len(),
    ensures
        decode_tokens(lit, dist, bits, p + tokens_bits(lit, dist, toks.take(k)).len()) == Some(
            (toks.skip(k), p + tokens_bits(lit, dist, toks).len() + lit[256]),
        ),
    decreases toks.len() - k,
{
    let pre = toks.take(k);
    let rest = toks.skip(k);
    assert(toks =~= pre + rest);
    lemma_tokens_bits_concat(lit, dist, pre, rest);
    let pos = p + tokens_bits(lit, dist, pre).len();
    assert(tokens_bits(lit, dist, toks) + huff_bits(lit, 256) =~= tokens_bits(lit, dist, pre) + (tokens_bits(lit, dist, rest) + huff_bits(lit, 256)));
    lemma_holds_split(bits, p, tokens_bits(lit, dist, pre), tokens_bits(lit, dist, rest) + huff_bits(lit, 256));
    if k == toks.len() {
        assert(rest =~= Seq::<Lz77Token>::empty());
        assert(tokens_bits(lit, dist, rest) + huff_bits(lit, 256) =~= huff_bits(lit, 256));
        lemma_holds_code(bits, pos, lit, 256);
        lemma_huff_decode(lit, bits, pos, 256);
        assert(pre =~= toks);
    } else {
        let t = toks[k];
        assert(rest =~= seq![t] + toks.skip(k + 1));
        lemma_tokens_bits_concat(lit, dist, seq![t], toks.skip(k + 1));
        lemma_tokens_bits_one(lit, dist, t);
        assert(tokens_bits(lit, dist, rest) + huff_bits(lit, 256) =~= token_bits(lit, dist, t) + (tokens_bits(lit, dist, toks.skip(k + 1)) + huff_bits(lit, 256)));
        lemma_holds_split(bits, pos, token_bits(lit, dist, t), tokens_bits(lit, dist, toks.skip(k + 1)) + huff_bits(lit, 256));
        assert(token_codes_ok(lit, dist, toks[k]));
        assert(toks.take(k + 1) =~= pre + seq![t]);
        lemma_tokens_bits_concat(lit, dist, pre, seq![t]);
        lemma_decode_tokens_from(lit, dist, bits, p, toks, k + 1);
        lemma_decode_tokens_step(lit, dist, bits, pos, t, toks.skip(k + 1), p + tokens_bits(lit, dist, toks).len() + lit[256]);
        assert(seq![t] + toks.skip(k + 1) =~= rest);
    }
}

/// A block body, its tokens then the end-of-block code, reads back as the tokens.
pub proof fn lemma_decode_tokens(lit: Seq<u8>, dist: Seq<u8>, bits: Seq<bool>, p: int, toks: Seq<Lz77Token>)
    requires
        block_codes_ok(lit, dist, toks),
        holds_bits(bits, p, tokens_bits(lit, dist, toks) + huff_bits(lit, 256)),
    ensures
        decode_tokens(lit, dist, bits, p) == Some((toks, p + tokens_bits(lit, dist, toks).len() + lit[256])),
{
    lemma_decode_tokens_from(lit, dist, bits, p, toks, 0);
    assert(toks.take(0) =~= Seq::<Lz77Token>::empty());
    assert(toks.skip(0) =~= toks);
}

// ---------------------------------------------------------------------------
// Blocks
// ---------------------------------------------------------------------------

/// The position of code-length symbol `i` in the order its code length is sent
/// (RFC 1951, 3.2.7): the inverse of `cl_order`.
pub open spec fn cl_slot(i: int) -> int {
    seq![3int, 17, 15, 13, 11, 9, 7, 5, 4, 6, 8, 10, 12, 14, 16, 18, 0, 1, 2][i]
}

proof fn lemma_cl_slot(i: int)
    requires
        0 <= i < 19,
    ensures
        0 <= cl_slot(i) < 19,
        cl_order()[cl_slot(i)] == i,
{
    if i == 0 {
    } else if i == 1 {
    } else if i == 2 {
    } else if i == 3 {
    } else if i == 4 {
    } else if i == 5 {
    } else if i == 6 {
    } else if i == 7 {
    } else if i == 8 {
    } else if i == 9 {
    } else if i == 10 {
    } else if i == 11 {
    } else if i == 12 {
    } else if i == 13 {
    } else if i == 14 {
    } else if i == 15 {
    } else if i == 16 {
    } else if i == 17 {
    } else if i == 18 {
    }
}

/// The 19 code lengths of the code-length code: `hclen` of them sent three bits each from
/// `q`, in `cl_order`; the rest zero.
pub open spec fn read_cl_lens(bits: Seq<bool>, q: int, hclen: int) -> Seq<u8> {
    Seq::new(19, |i: int| if cl_slot(i) < hclen {
        bits_value(bits, q + 3 * cl_slot(i), 3) as u8
    } else {
        0u8
    })
}

/// The code lengths of both codes of a dynamic block, run-length coded under the code-length
/// code `cl` (RFC 1951, 3.2.7), read from `p` until `n` lengths are known (after `acc`).
pub open spec fn decode_lengths(cl: Seq<u8>, bits: Seq<bool>, p: int, n: int, acc: Seq<u8>) -> Option<(Seq<u8>, int)>
    decreases bits.len() - p,
{
    if acc.len() >= n {
        if acc.len() == n {
            Some((acc, p))
        } else {
            None
        }
    } else {
        match huff_decode(cl, bits, p) {
            None => None,
            Some((s, q)) => if q <= p || q > bits.len() {
                None
            } else if s < 16 {
                decode_lengths(cl, bits, q, n, acc.push(s as u8))
            } else if s == 16 {
                if acc.len() == 0 || q + 2 > bits.len() {
                    None
                } else {
                    decode_lengths(cl, bits, q + 2, n, acc + Seq::new(bits_value(bits, q, 2) + 3, |i: int| acc.last()))
                }
            } else if s == 17 {
                if q + 3 > bits.len() {
                    None
                } else {
                    decode_lengths(cl, bits, q + 3, n, acc + Seq::new(bits_value(bits, q, 3) + 3, |i: int| 0u8))
                }
            } else if s == 18 {
                if q + 7 > bits.len() {
                    None
                } else {
                    decode_lengths(cl, bits, q + 7, n, acc + Seq::new(bits_value(bits, q, 7) + 11, |i: int| 0u8))
                }
            } else {
                None
            },
        }
    }
}

/// A dynamic block's body after its header bits, from `p`: the code counts, the code-length
/// code, both codes' lengths, then the tokens.
pub open spec fn decode_dynamic(bits: Seq<bool>, p: int) -> Option<(Seq<Lz77Token>, int)> {
    if p + 14 > bits.len() {
        None
    } else {
        let hlit = bits_value(bits, p, 5) + 257int;
        let hdist = bits_value(bits, p + 5, 5) + 1int;
        let hclen = bits_value(bits, p + 10, 4) + 4int;
        let q = p + 14;
        if q + 3 * hclen > bits.len() {
            None
        } else {
            match decode_lengths(read_cl_lens(bits, q, hclen), bits, q + 3 * hclen, hlit + hdist, Seq::empty()) {
                None => None,
                Some((lens, r)) => decode_tokens(lens.take(hlit), lens.skip(hlit), bits, r),
            }
        }
    }
}

/// A stored block's body after its header bits (RFC 1951, 3.2.4): skip to a byte boundary,
/// `LEN` and its complement, then `LEN` bytes, each a literal.
pub open spec fn decode_stored(bits: Seq<bool>, p: int) -> Option<(Seq<Lz77Token>, int)> {
    let a = p + (8 - p % 8) % 8;
    if a + 32 > bits.len() {
        None
    } else {
        let len = bits_value(bits, a, 16);
        let nlen = bits_value(bits, a + 16, 16);
        let d = a + 32;
        if len + nlen != 65535 || d + 8 * len > bits.len() {
            None
        } else {
            Some((Seq::new(len, |i: int| Lz77Token::Literal(bits_value(bits, d + 8 * i, 8) as u8)), d + 8 * len))
        }
    }
}

/// The block that starts at `p`: whether it is the last, its tokens, and the position after it.
pub open spec fn decode_block(bits: Seq<bool>, p: int) -> Option<(bool, Seq<Lz77Token>, int)> {
    if p < 0 || p + 3 > bits.len() {
        None
    } else {
        let hdr = bits_value(bits, p, 3);
        let last = hdr % 2 == 1;
        let btype = hdr / 2;
        let body = if btype == 0 {
            decode_stored(bits, p + 3)
        } else if btype == 1 {
            decode_tokens(fixed_lit_lengths(), fixed_dist_lengths(), bits, p + 3)
        } else if btype == 2 {
            decode_dynamic(bits, p + 3)
        } else {
            None
        };
        match body {
            Some((t, e)) => Some((last, t, e)),
            None => None,
        }
    }
}

proof fn lemma_header(bits: Seq<bool>, p: int, bfinal: bool, btype: u64)
    requires
        1 <= btype <= 2,
        holds_bits(bits, p, block_header_bits(bfinal, btype)),
    ensures
        bits_value(bits, p, 3) % 2 == (if bfinal { 1int } else { 0 }),
        bits_value(bits, p, 3) / 2 == btype,
        block_header_bits(bfinal, btype).len() == 3,
{
    lemma2_to64();
    let v = (if bfinal { 1 + 2 * btype } else { 2 * btype }) as u64;
    lemma_holds_low(bits, p, v, 3);
}

/// A fixed-code block reads back as its tokens.
pub proof fn lemma_decode_fixed_block(bits: Seq<bool>, p: int, toks: Seq<Lz77Token>, bfinal: bool)
    requires
        forall|i: int| 0 <= i < toks.len() ==> token_wf(#[trigger] toks[i]),
        holds_bits(bits, p, fixed_block_bits(toks, bfinal)),
    ensures
        decode_block(bits, p) == Some((bfinal, toks, p + fixed_block_bits(toks, bfinal).len())),
        fixed_block_bits(toks, bfinal).len() >= 3,
{
    let h = block_header_bits(bfinal, 1);
    let body = tokens_bits(fixed_lit_lengths(), fixed_dist_lengths(), toks) + huff_bits(fixed_lit_lengths(), 256);
    assert(fixed_block_bits(toks, bfinal) =~= h + body);
    lemma_holds_split(bits, p, h, body);
    lemma_header(bits, p, bfinal, 1);
    lemma_fixed_codes_within();
    assert forall|i: int| 0 <= i < toks.len() implies token_codes_ok(fixed_lit_lengths(), fixed_dist_lengths(), #[trigger] toks[i]) by {
        match toks[i] {
            Lz77Token::Literal(b) => {},
            Lz77Token::Match { length, distance } => {
                lemma_length_index_range(length as int);
                lemma_dist_index_range(distance as int);
            },
        }
    }
    lemma_decode_tokens(fixed_lit_lengths(), fixed_dist_lengths(), bits, p + 3, toks);
}

proof fn lemma_cl_lens_bits_len(cll: Seq<u8>, m: nat)
    ensures
        cl_lens_bits(cll, m).len() == 3 * m,
    decreases m,
{
    if m > 0 {
        lemma_cl_lens_bits_len(cll, (m - 1) as nat);
    }
}

proof fn lemma_cl_lens_bits_at(bits: Seq<bool>, q: int, cll: Seq<u8>, m: nat, j: int)
    requires
        holds_bits(bits, q, cl_lens_bits(cll, m)),
        0 <= j < m,
    ensures
        holds_bits(bits, q + 3 * j, low_bits(cll[cl_order()[j] as int] as u64, 3)),
    decreases m,
{
    let k = (m - 1) as nat;
    lemma_cl_lens_bits_len(cll, k);
    lemma_holds_split(bits, q, cl_lens_bits(cll, k), low_bits(cll[cl_order()[k as int] as int] as u64, 3));
    if j < k {
        lemma_cl_lens_bits_at(bits, q, cll, k, j);
    }
}

/// The code-length code's lengths read back.
proof fn lemma_read_cl_lens(bits: Seq<bool>, q: int, cll: Seq<u8>, m: nat)
    requires
        cll.len() == 19,
        forall|i: int| 0 <= i < 19 ==> #[trigger] cll[i] <= 7,
        hclen_of(cll, m),
        holds_bits(bits, q, cl_lens_bits(cll, m)),
    ensures
        read_cl_lens(bits, q, m as int) == cll,
{
    lemma2_to64();
    assert forall|i: int| 0 <= i < 19 implies #[trigger] read_cl_lens(bits, q, m as int)[i] == cll[i] by {
        lemma_cl_slot(i);
        let j = cl_slot(i);
        if j < m {
            lemma_cl_lens_bits_at(bits, q, cll, m, j);
            lemma_holds_low(bits, q + 3 * j, cll[i] as u64, 3);
        } else {
            assert(cll[cl_order()[j] as int] == 0);
        }
    }
    assert(read_cl_lens(bits, q, m as int) =~= cll);
}

proof fn lemma_cl_tokens_bits_concat(cll: Seq<u8>, a: Seq<ClToken>, b: Seq<ClToken>)
    ensures
        cl_tokens_bits(cll, a + b) == cl_tokens_bits(cll, a) + cl_tokens_bits(cll, b),
    decreases b.len(),
{
    if b.len() == 0 {
        assert(a + b =~= a);
        assert(cl_tokens_bits(cll, a) + cl_tokens_bits(cll, b) =~= cl_tokens_bits(cll, a));
    } else {
        lemma_cl_tokens_bits_concat(cll, a, b.drop_last());
        assert((a + b).drop_last() =~= a + b.drop_last());
        assert((a + b).last() == b.last());
        assert(cl_tokens_bits(cll, a + b) =~= cl_tokens_bits(cll, a) + cl_tokens_bits(cll, b));
    }
}

/// The bits of one code-length token.
pub open spec fn cl_token_bits(cll: Seq<u8>, t: ClToken) -> Seq<bool> {
    huff_bits(cll, t.0 as int) + low_bits(t.1 as u64, t.2 as nat)
}

proof fn lemma_cl_tokens_bits_one(cll: Seq<u8>, t: ClToken)
    ensures
        cl_tokens_bits(cll, seq![t]) == cl_token_bits(cll, t),
{
    assert(seq![t].drop_last() =~= Seq::<ClToken>::empty());
    assert(cl_tokens_bits(cll, Seq::<ClToken>::empty()) == Seq::<bool>::empty());
    assert(seq![t].last() == t);
    assert(cl_tokens_bits(cll, seq![t]) =~= cl_token_bits(cll, t));
}

/// Every code-length token adds at least one length.
proof fn lemma_cl_decode_grows(toks: Seq<ClToken>, k: int)
    requires
        0 <= k <= toks.len(),
    ensures
        cl_decode(toks.take(k)).len() + (toks.len() - k) <= cl_decode(toks).len(),
    decreases toks.len() - k,
{
    if k < toks.len() {
        lemma_cl_decode_grows(toks, k + 1);
        assert(toks.take(k + 1).drop_last() =~= toks.take(k));
    } else {
        assert(toks.take(k) =~= toks);
    }
}

proof fn lemma_decode_lengths_step(cll: Seq<u8>, bits: Seq<bool>, pos: int, n: int, toks: Seq<ClToken>, k: int, res: Option<(Seq<u8>, int)>)
    requires
        0 <= k < toks.len(),
        cl_tokens_ok(toks),
        codes_within(cll),
        cll.len() == 19,
        1 <= cll[toks[k].0 as int] <= 7,
        cl_decode(toks.take(k)).len() < n,
        holds_bits(bits, pos, cl_token_bits(cll, toks[k])),
        decode_lengths(cll, bits, pos + cl_token_bits(cll, toks[k]).len(), n, cl_decode(toks.take(k + 1))) == res,
    ensures
        decode_lengths(cll, bits, pos, n, cl_decode(toks.take(k))) == res,
{
    let t = toks[k];
    let acc = cl_decode(toks.take(k));
    assert(cl_token_ok(t));
    assert(toks.take(k + 1).drop_last() =~= toks.take(k));
    assert(toks.take(k + 1).last() == t);
    assert(toks.take(k) =~= toks.take(k));
    lemma_holds_split(bits, pos, huff_bits(cll, t.0 as int), low_bits(t.1 as u64, t.2 as nat));
    lemma_holds_code(bits, pos, cll, t.0 as int);
    lemma_huff_decode(cll, bits, pos, t.0 as int);
    lemma2_to64();
    let q = pos + cll[t.0 as int];
    lemma_holds_low(bits, q, t.1 as u64, t.2 as nat);
    if t.0 == 16 {
        assert(cl_decode(toks.take(k)).len() > 0);
    }
}

proof fn lemma_decode_lengths_from(cll: Seq<u8>, bits: Seq<bool>, r: int, toks: Seq<ClToken>, k: int)
    requires
        0 <= k <= toks.len(),
        cl_tokens_ok(toks),
        codes_within(cll),
        cll.len() == 19,
        forall|i: int| 0 <= i < toks.len() ==> 1 <= cll[(#[trigger] toks[i]).0 as int] <= 7,
        holds_bits(bits, r, cl_tokens_bits(cll, toks)),
    ensures
        decode_lengths(cll, bits, r + cl_tokens_bits(cll, toks.take(k)).len(), cl_decode(toks).len() as int, cl_decode(toks.take(k)))
            == Some((cl_decode(toks), r + cl_tokens_bits(cll, toks).len())),
    decreases toks.len() - k,
{
    let pre = toks.take(k);
    let rest = toks.skip(k);
    assert(toks =~= pre + rest);
    lemma_cl_tokens_bits_concat(cll, pre, rest);
    lemma_holds_split(bits, r, cl_tokens_bits(cll, pre), cl_tokens_bits(cll, rest));
    let pos = r + cl_tokens_bits(cll, pre).len();
    if k == toks.len() {
        assert(pre =~= toks);
    } else {
        let t = toks[k];
        assert(rest =~= seq![t] + toks.skip(k + 1));
        lemma_cl_tokens_bits_concat(cll, seq![t], toks.skip(k + 1));
        lemma_cl_tokens_bits_one(cll, t);
        lemma_holds_split(bits, pos, cl_token_bits(cll, t), cl_tokens_bits(cll, toks.skip(k + 1)));
        assert(toks.take(k + 1) =~= pre + seq![t]);
        lemma_cl_tokens_bits_concat(cll, pre, seq![t]);
        lemma_decode_lengths_from(cll, bits, r, toks, k + 1);
        lemma_cl_decode_grows(toks, k);
        lemma_decode_lengths_step(cll, bits, pos, cl_decode(toks).len() as int, toks, k, Some((cl_decode(toks), r + cl_tokens_bits(cll, toks).len())));
    }
}

#[verifier::rlimit(50)]
proof fn lemma_decode_dynamic_parts(
    bits: Seq<bool>,
    p: int,
    bfinal: bool,
    lit: Seq<u8>,
    dist: Seq<u8>,
    toks: Seq<Lz77Token>,
    cl_toks: Seq<ClToken>,
    cll: Seq<u8>,
    m: nat,
)
    requires
        257 <= lit.len() <= 286,
        1 <= dist.len() <= 30,
        block_codes_ok(lit, dist, toks),
        cl_tokens_ok(cl_toks),
        cl_decode(cl_toks) == lit + dist,
        cll.len() == 19,
        forall|i: int| 0 <= i < 19 ==> #[trigger] cll[i] <= 7,
        codes_within(cll),
        hclen_of(cll, m),
        forall|i: int| 0 <= i < cl_toks.len() ==> cll[(#[trigger] cl_toks[i]).0 as int] >= 1,
        holds_bits(bits, p, block_header_bits(bfinal, 2) + low_bits((lit.len() - 257) as u64, 5) + low_bits(
            (dist.len() - 1) as u64,
            5,
        ) + low_bits((m - 4) as u64, 4) + cl_lens_bits(cll, m) + cl_tokens_bits(cll, cl_toks)
            + (tokens_bits(lit, dist, toks) + huff_bits(lit, 256))),
    ensures
        decode_block(bits, p) == Some((bfinal, toks, p + (block_header_bits(bfinal, 2) + low_bits((lit.len() - 257) as u64, 5) + low_bits(
            (dist.len() - 1) as u64,
            5,
        ) + low_bits((m - 4) as u64, 4) + cl_lens_bits(cll, m) + cl_tokens_bits(cll, cl_toks)
            + (tokens_bits(lit, dist, toks) + huff_bits(lit, 256))).len())),
{
    lemma2_to64();
    let h = block_header_bits(bfinal, 2);
    let a = low_bits((lit.len() - 257) as u64, 5);
    let b = low_bits((dist.len() - 1) as u64, 5);
    let c = low_bits((m - 4) as u64, 4);
    let d = cl_lens_bits(cll, m);
    let e = cl_tokens_bits(cll, cl_toks);
    let f = tokens_bits(lit, dist, toks) + huff_bits(lit, 256);
    lemma_holds_split(bits, p, h + a + b + c + d + e, f);
    lemma_holds_split(bits, p, h + a + b + c + d, e);
    lemma_holds_split(bits, p, h + a + b + c, d);
    lemma_holds_split(bits, p, h + a + b, c);
    lemma_holds_split(bits, p, h + a, b);
    lemma_holds_split(bits, p, h, a);
    lemma_header(bits, p, bfinal, 2);
    let p1 = p + 3;
    lemma_holds_low(bits, p1, (lit.len() - 257) as u64, 5);
    lemma_holds_low(bits, p1 + 5, (dist.len() - 1) as u64, 5);
    lemma_holds_low(bits, p1 + 10, (m - 4) as u64, 4);
    let q = p1 + 14;
    lemma_cl_lens_bits_len(cll, m);
    lemma_read_cl_lens(bits, q, cll, m);
    let r = q + 3 * m;
    assert forall|i: int| 0 <= i < cl_toks.len() implies 1 <= cll[(#[trigger] cl_toks[i]).0 as int] <= 7 by {
        assert(cl_token_ok(cl_toks[i]));
    }
    lemma_decode_lengths_from(cll, bits, r, cl_toks, 0);
    assert(cl_toks.take(0) =~= Seq::<ClToken>::empty());
    assert(cl_decode(Seq::<ClToken>::empty()) == Seq::<u8>::empty());
    assert(cl_tokens_bits(cll, Seq::<ClToken>::empty()) == Seq::<bool>::empty());
    let lens = lit + dist;
    assert(lens.take(lit.len() as int) =~= lit);
    assert(lens.skip(lit.len() as int) =~= dist);
    let r2 = r + e.len();
    lemma_decode_tokens(lit, dist, bits, r2, toks);
}

/// A dynamic block reads back as its tokens, given codes it can be read back under.
pub proof fn lemma_decode_dynamic_block(bits: Seq<bool>, p: int, blk: Seq<bool>, bfinal: bool, lit: Seq<u8>, dist: Seq<u8>, toks: Seq<Lz77Token>)
    requires
        is_dynamic_block(blk, bfinal, lit, dist, toks),
        257 <= lit.len() <= 286,
        1 <= dist.len() <= 30,
        block_codes_ok(lit, dist, toks),
        holds_bits(bits, p, blk),
    ensures
        decode_block(bits, p) == Some((bfinal, toks, p + blk.len())),
        blk.len() >= 3,
{
    reveal(is_dynamic_block);
    let (cl_toks, cll, m) = choose|cl_toks: Seq<ClToken>, cl_lens: Seq<u8>, m: nat|
        #![trigger cl_decode(cl_toks), hclen_of(cl_lens, m)]
        {
            &&& cl_tokens_ok(cl_toks)
            &&& cl_decode(cl_toks) == lit + dist
            &&& huffman_lengths_of(two_symbols(cl_freq_of(cl_toks)), 7, 19, cl_lens)
            &&& hclen_of(cl_lens, m)
            &&& forall|i: int| 0 <= i < cl_toks.len() ==> cl_lens[(#[trigger] cl_toks[i]).0 as int] >= 1
            &&& blk == block_header_bits(bfinal, 2) + low_bits((lit.len() - 257) as u64, 5) + low_bits(
                (dist.len() - 1) as u64,
                5,
            ) + low_bits((m - 4) as u64, 4) + cl_lens_bits(cl_lens, m) + cl_tokens_bits(cl_lens, cl_toks)
                + tokens_bits(lit, dist, toks) + huff_bits(lit, 256)
        };
    lemma_cl_code_within(cl_toks, cll);
    let x = block_header_bits(bfinal, 2) + low_bits((lit.len() - 257) as u64, 5) + low_bits(
        (dist.len() - 1) as u64,
        5,
    ) + low_bits((m - 4) as u64, 4) + cl_lens_bits(cll, m) + cl_tokens_bits(cll, cl_toks);
    assert(blk =~= x + (tokens_bits(lit, dist, toks) + huff_bits(lit, 256)));
    lemma_decode_dynamic_parts(bits, p, bfinal, lit, dist, toks, cl_toks, cll, m);
}

// ---------------------------------------------------------------------------
// Streams
// ---------------------------------------------------------------------------

/// The tokens of the blocks from `p` up to and including the one marked last.
pub open spec fn inflate_blocks(bits: Seq<bool>, p: int) -> Option<Seq<Lz77Token>>
    decreases bits.len() - p,
{
    match decode_block(bits, p) {
        None => None,
        Some((last, t, q)) => if q <= p || q > bits.len() {
            None
        } else if last {
            Some(t)
        } else {
            match inflate_blocks(bits, q) {
                Some(r) => Some(t + r),
                None => None,
            }
        },
    }
}

/// The tokens of a raw DEFLATE stream (RFC 1951), block after block until the last; bits
/// after the last block are ignored.
pub open spec fn inflate_tokens(bits: Seq<bool>) -> Option<Seq<Lz77Token>> {
    inflate_blocks(bits, 0)
}

/// Inflating a raw DEFLATE stream: its tokens expanded, each match copying from the bytes before
/// it; `None` for a stream that does not decode or refers back past its start.
pub open spec fn inflate_bits(bits: Seq<bool>) -> Option<Seq<u8>> {
    match inflate_tokens(bits) {
        Some(t) => if lz_refs_ok(Seq::empty(), t) {
            Some(lz_decode(Seq::empty(), t))
        } else {
            None
        },
        None => None,
    }
}

/// `blk` is a block marked `last` that reads back as `toks` wherever it stands.
pub open spec fn block_reads(blk: Seq<bool>, last: bool, toks: Seq<Lz77Token>) -> bool {
    &&& blk.len() >= 1
    &&& forall|bits: Seq<bool>, p: int|
        holds_bits(bits, p, blk) ==> #[trigger] decode_block(bits, p) == Some((last, toks, p + blk.len()))
}

proof fn lemma_concat_bits_concat(a: Seq<Seq<bool>>, b: Seq<Seq<bool>>)
    ensures
        concat_bits(a + b) == concat_bits(a) + concat_bits(b),
    decreases b.len(),
{
    if b.len() == 0 {
        assert(a + b =~= a);
        assert(concat_bits(a) + concat_bits(b) =~= concat_bits(a));
    } else {
        lemma_concat_bits_concat(a, b.drop_last());
        assert((a + b).drop_last() =~= a + b.drop_last());
        assert((a + b).last() == b.last());
        assert(concat_bits(a + b) =~= concat_bits(a) + concat_bits(b));
    }
}

proof fn lemma_concat_tokens_concat(a: Seq<Vec<Lz77Token>>, b: Seq<Vec<Lz77Token>>)
    ensures
        concat_tokens(a + b) == concat_tokens(a) + concat_tokens(b),
    decreases b.len(),
{
    if b.len() == 0 {
        assert(a + b =~= a);
        assert(concat_tokens(a) + concat_tokens(b) =~= concat_tokens(a));
    } else {
        lemma_concat_tokens_concat(a, b.drop_last());
        assert((a + b).drop_last() =~= a + b.drop_last());
        assert((a + b).last() == b.last());
        assert(concat_tokens(a + b) =~= concat_tokens(a) + concat_tokens(b));
    }
}

#[verifier::rlimit(40)]
proof fn lemma_inflate_parts(bits: Seq<bool>, parts: Seq<Seq<bool>>, blocks: Seq<Vec<Lz77Token>>, k: int)
    requires
        parts.len() == blocks.len(),
        0 <= k < parts.len(),
        holds_bits(bits, 0, concat_bits(parts)),
        forall|i: int| 0 <= i < parts.len() ==> block_reads(#[trigger] parts[i], i + 1 == parts.len(), blocks[i]@),
    ensures
        inflate_blocks(bits, concat_bits(parts.take(k)).len() as int) == Some(concat_tokens(blocks.skip(k))),
    decreases parts.len() - k,
{
    let pre = parts.take(k);
    let x = parts[k];
    let post = parts.skip(k + 1);
    assert(parts =~= pre + (seq![x] + post));
    lemma_concat_bits_concat(pre, seq![x] + post);
    lemma_concat_bits_concat(seq![x], post);
    assert(seq![x].drop_last() =~= Seq::<Seq<bool>>::empty());
    assert(concat_bits(Seq::<Seq<bool>>::empty()) == Seq::<bool>::empty());
    assert(seq![x].last() == x);
    assert(concat_bits(seq![x]) =~= x);
    assert(concat_bits(parts) =~= concat_bits(pre) + (x + concat_bits(post)));
    lemma_holds_split(bits, 0, concat_bits(pre), x + concat_bits(post));
    lemma_holds_split(bits, concat_bits(pre).len() as int, x, concat_bits(post));
    let pos = concat_bits(pre).len() as int;
    assert(block_reads(parts[k], k + 1 == parts.len(), blocks[k]@));
    assert(decode_block(bits, pos) == Some((k + 1 == parts.len(), blocks[k]@, pos + x.len())));
    let bk = blocks[k];
    assert(blocks.skip(k) =~= seq![bk] + blocks.skip(k + 1));
    lemma_concat_tokens_concat(seq![bk], blocks.skip(k + 1));
    assert(seq![bk].drop_last() =~= Seq::<Vec<Lz77Token>>::empty());
    assert(concat_tokens(Seq::<Vec<Lz77Token>>::empty()) == Seq::<Lz77Token>::empty());
    assert(seq![bk].last() == bk);
    assert(concat_tokens(seq![bk]) =~= bk@);
    if k + 1 == parts.len() {
        assert(blocks.skip(k + 1) =~= Seq::<Vec<Lz77Token>>::empty());
        assert(concat_tokens(blocks.skip(k)) =~= bk@);
    } else {
        assert(parts.take(k + 1) =~= pre + seq![x]);
        lemma_concat_bits_concat(pre, seq![x]);
        lemma_inflate_parts(bits, parts, blocks, k + 1);
    }
}

/// Several blocks, each reading back as its tokens and only the last marked last, read back
/// as all their tokens.
proof fn lemma_inflate_all_parts(bits: Seq<bool>, parts: Seq<Seq<bool>>, blocks: Seq<Vec<Lz77Token>>)
    requires
        parts.len() == blocks.len(),
        parts.len() >= 1,
        holds_bits(bits, 0, concat_bits(parts)),
        forall|i: int| 0 <= i < parts.len() ==> block_reads(#[trigger] parts[i], i + 1 == parts.len(), blocks[i]@),
    ensures
        inflate_blocks(bits, 0) == Some(concat_tokens(blocks)),
{
    lemma_inflate_parts(bits, parts, blocks, 0);
    assert(parts.take(0) =~= Seq::<Seq<bool>>::empty());
    assert(blocks.skip(0) =~= blocks);
}

proof fn lemma_fixed_reads(toks: Seq<Lz77Token>, last: bool)
    requires
        forall|i: int| 0 <= i < toks.len() ==> token_wf(#[trigger] toks[i]),
    ensures
        block_reads(fixed_block_bits(toks, last), last, toks),
{
    assert forall|bits: Seq<bool>, p: int| holds_bits(bits, p, fixed_block_bits(toks, last)) implies #[trigger] decode_block(bits, p)
        == Some((last, toks, p + fixed_block_bits(toks, last).len())) by {
        lemma_decode_fixed_block(bits, p, toks, last);
    }
    lemma_decode_fixed_block(fixed_block_bits(toks, last), 0, toks, last);
}

proof fn lemma_dynamic_reads(blk: Seq<bool>, last: bool, lit: Seq<u8>, dist: Seq<u8>, toks: Seq<Lz77Token>)
    requires
        is_dynamic_block(blk, last, lit, dist, toks),
        257 <= lit.len() <= 286,
        1 <= dist.len() <= 30,
        block_codes_ok(lit, dist, toks),
    ensures
        block_reads(blk, last, toks),
{
    assert forall|bits: Seq<bool>, p: int| holds_bits(bits, p, blk) implies #[trigger] decode_block(bits, p)
        == Some((last, toks, p + blk.len())) by {
        lemma_decode_dynamic_block(bits, p, blk, last, lit, dist, toks);
    }
    assert forall|i: int| 0 <= i < blk.len() implies blk[i] == #[trigger] blk[i] by {}
    lemma_decode_dynamic_block(blk, 0, blk, last, lit, dist, toks);
}

/// A block with codes built from its own tokens reads back as them.
proof fn lemma_fresh_reads(blk: Seq<bool>, last: bool, toks: Seq<Lz77Token>)
    requires
        is_fresh_block(blk, last, toks),
        forall|i: int| 0 <= i < toks.len() ==> token_wf(#[trigger] toks[i]),
        toks.len() < pow2(62),
    ensures
        block_reads(blk, last, toks),
{
    reveal(is_fresh_block);
    let (lit, dist) = choose|lit: Seq<u8>, dist: Seq<u8>|
        #![trigger built_trees(block_lit_freqs(toks), block_dist_freqs(toks), lit, dist)]
        built_trees(block_lit_freqs(toks), block_dist_freqs(toks), lit, dist) && is_dynamic_block(blk, last, lit, dist, toks);
    lemma2_to64();
    vstd::arithmetic::power2::lemma_pow2_strictly_increases(62, 64);
    assert forall|s: int| 0 <= s < 286 && lit_sym_count(toks, s) > 0 implies block_lit_freqs(toks)[s] > 0 by {
        lemma_counts_bound(toks, s);
    }
    assert forall|s: int| 0 <= s < 30 && dist_sym_count(toks, s) > 0 implies block_dist_freqs(toks)[s] > 0 by {
        lemma_counts_bound(toks, s);
    }
    lemma_built_trees_codes(block_lit_freqs(toks), block_dist_freqs(toks), lit, dist, toks);
    lemma_dynamic_reads(blk, last, lit, dist, toks);
}

proof fn lemma_total_freq_ge(blocks: Seq<Vec<Lz77Token>>, i: int, s: int)
    requires
        0 <= i < blocks.len(),
    ensures
        total_lit_freq(blocks, s) >= lit_sym_count(blocks[i]@, s),
        total_dist_freq(blocks, s) >= dist_sym_count(blocks[i]@, s),
    decreases blocks.len(),
{
    if i < blocks.len() - 1 {
        lemma_total_freq_ge(blocks.drop_last(), i, s);
        assert(blocks.drop_last()[i] == blocks[i]);
    }
}

proof fn lemma_concat_tokens_part(blocks: Seq<Vec<Lz77Token>>, i: int)
    requires
        0 <= i < blocks.len(),
        forall|k: int| 0 <= k < concat_tokens(blocks).len() ==> token_wf(#[trigger] concat_tokens(blocks)[k]),
    ensures
        blocks[i]@.len() <= concat_tokens(blocks).len(),
        forall|j: int| 0 <= j < blocks[i]@.len() ==> token_wf(#[trigger] blocks[i]@[j]),
    decreases blocks.len(),
{
    let c = concat_tokens(blocks.drop_last());
    assert(concat_tokens(blocks) == c + blocks.last()@);
    if i < blocks.len() - 1 {
        assert forall|k: int| 0 <= k < c.len() implies token_wf(#[trigger] c[k]) by {
            assert(concat_tokens(blocks)[k] == c[k]);
        }
        lemma_concat_tokens_part(blocks.drop_last(), i);
        assert(blocks.drop_last()[i] == blocks[i]);
    } else {
        assert forall|j: int| 0 <= j < blocks[i]@.len() implies token_wf(#[trigger] blocks[i]@[j]) by {
            assert(concat_tokens(blocks)[c.len() + j] == blocks[i]@[j]);
        }
    }
}

/// What the encoder writes for `blocks` reads back as all their tokens, block after block,
/// whichever strategy wrote it; the bits after the stream do not matter.
pub proof fn lemma_stream_inflates(
    blocks: Seq<Vec<Lz77Token>>,
    strategy: DeflateStrategy,
    global: bool,
    bits: Seq<bool>,
    bb: Seq<bool>,
)
    requires
        deflate_stream(blocks, strategy, global, bits),
        holds_bits(bb, 0, bits),
        forall|i: int| 0 <= i < concat_tokens(blocks).len() ==> token_wf(#[trigger] concat_tokens(blocks)[i]),
        concat_tokens(blocks).len() < pow2(62),
    ensures
        inflate_blocks(bb, 0) == Some(concat_tokens(blocks)),
{
    assert forall|i: int, j: int| 0 <= i < blocks.len() && 0 <= j < blocks[i]@.len() implies token_wf(#[trigger] blocks[i]@[j]) by {
        lemma_concat_tokens_part(blocks, i);
    }
    assert forall|i: int| 0 <= i < blocks.len() implies (#[trigger] blocks[i])@.len() < pow2(62) by {
        lemma_concat_tokens_part(blocks, i);
    }
    if strategy == DeflateStrategy::Fixed {
        let t = concat_tokens(blocks);
        lemma_decode_fixed_block(bb, 0, t, true);
    } else if global && blocks.len() > 1 {
        let (lit, dist, parts) = choose|lit: Seq<u8>, dist: Seq<u8>, parts: Seq<Seq<bool>>|
            #![trigger built_trees(total_lit_freqs(blocks), total_dist_freqs(blocks), lit, dist), shared_blocks(parts, blocks, lit, dist)]
            {
                &&& built_trees(total_lit_freqs(blocks), total_dist_freqs(blocks), lit, dist)
                &&& shared_blocks(parts, blocks, lit, dist)
                &&& bits == concat_bits(parts)
            };
        assert forall|i: int| 0 <= i < parts.len() implies block_reads(#[trigger] parts[i], i + 1 == parts.len(), blocks[i]@) by {
            let toks = blocks[i]@;
            assert forall|s: int| 0 <= s < 286 && lit_sym_count(toks, s) > 0 implies total_lit_freqs(blocks)[s] > 0 by {
                lemma_total_freq_ge(blocks, i, s);
            }
            assert forall|s: int| 0 <= s < 30 && dist_sym_count(toks, s) > 0 implies total_dist_freqs(blocks)[s] > 0 by {
                lemma_total_freq_ge(blocks, i, s);
            }
            assert forall|j: int| 0 <= j < toks.len() implies token_wf(#[trigger] toks[j]) by {
                assert(token_wf(blocks[i]@[j]));
            }
            lemma_built_trees_codes(total_lit_freqs(blocks), total_dist_freqs(blocks), lit, dist, toks);
            assert(is_dynamic_block(parts[i], i + 1 == blocks.len(), lit, dist, toks));
            lemma_dynamic_reads(parts[i], i + 1 == parts.len(), lit, dist, toks);
        }
        lemma_inflate_all_parts(bb, parts, blocks);
    } else if blocks.len() == 0 {
        lemma2_to64();
        lemma_fresh_reads(bits, true, Seq::empty());
        assert(concat_tokens(blocks) =~= Seq::<Lz77Token>::empty());
        assert(decode_block(bb, 0) == Some((true, Seq::<Lz77Token>::empty(), bits.len() as int)));
    } else {
        let parts = choose|parts: Seq<Seq<bool>>| #[trigger] fresh_blocks(parts, blocks) && bits == concat_bits(parts);
        assert forall|i: int| 0 <= i < parts.len() implies block_reads(#[trigger] parts[i], i + 1 == parts.len(), blocks[i]@) by {
            let toks = blocks[i]@;
            assert forall|j: int| 0 <= j < toks.len() implies token_wf(#[trigger] toks[j]) by {
                assert(token_wf(blocks[i]@[j]));
            }
            assert(is_fresh_block(parts[i], i + 1 == blocks.len(), toks));
            lemma_fresh_reads(parts[i], i + 1 == parts.len(), toks);
        }
        lemma_inflate_all_parts(bb, parts, blocks);
    }
}

/// The law of the encoder: bytes that hold the DEFLATE stream of `blocks` inflate back to all
/// their tokens, and, where those tokens refer back only within what precedes them, to the bytes
/// they expand to.
pub proof fn lemma_deflate_bytes_inflate(blocks: Seq<Vec<Lz77Token>>, strategy: DeflateStrategy, global: bool, bytes: Seq<u8>)
    requires
        deflate_bytes(blocks, strategy, global, bytes),
        forall|i: int| 0 <= i < concat_tokens(blocks).len() ==> token_wf(#[trigger] concat_tokens(blocks)[i]),
        concat_tokens(blocks).len() < pow2(62),
    ensures
        inflate_tokens(bytes_to_bits(bytes)) == Some(concat_tokens(blocks)),
        lz_refs_ok(Seq::empty(), concat_tokens(blocks)) ==> inflate_bits(bytes_to_bits(bytes)) == Some(
            lz_decode(Seq::empty(), concat_tokens(blocks)),
        ),
{
    let bits = choose|bits: Seq<bool>| #[trigger] deflate_stream(blocks, strategy, global, bits) && packs(bits, bytes);
    let bb = bytes_to_bits(bytes);
    assert(bb == bits + zero_bits(pad_len(bits.len())));
    assert forall|i: int| 0 <= i < bits.len() implies bb[0 + i] == #[trigger] bits[i] by {}
    lemma_stream_inflates(blocks, strategy, global, bits, bb);
}

} // verus!
