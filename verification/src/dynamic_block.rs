//! Blocks compressed with dynamic Huffman codes (RFC 1951, 3.2.7): code lengths from the
//! symbol frequencies, sent run-length coded under a code-length code.
use vstd::arithmetic::power2::{lemma2_to64, pow2};
use vstd::prelude::*;

use crate::bit_writer::{low_bits, BitWriter};
use crate::dynamic::{
    lemma_limited_kraft, lemma_limited_positive, lemma_limited_lengths_unique, length_limited_lengths,
    limited_lengths_of, widen,
};
use crate::encoding::{code_table, huff_bits, put_code, put_tokens, tokens_bits, tokens_fit};
use crate::fixed::block_header_bits;
use crate::huffman::{canonical_codes, count_len, lemma_codes_fit_small, lemma_count_len_bound};
use crate::lz77::{token_wf, Lz77Token};
use crate::perm::sum_nat;
use crate::pm::{freq_total, kraft_sum, pm_weights_fit, PmError};
use crate::tables::{
    dist_index, distance_code, lemma_dist_index_range, lemma_dist_index_unique,
    lemma_length_index_range, lemma_length_index_unique, length_code, length_index,
};

use crate::inflate::{block_codes_ok, codes_within, lemma_codes_within};

verus! {

/// The order in which the code-length code's lengths are sent.
pub const CL_ORDER: [usize; 19] = [16, 17, 18, 0, 8, 7, 9, 6, 10, 5, 11, 4, 12, 3, 13, 2, 14, 1, 15];

pub open spec fn cl_order() -> Seq<usize> {
    seq![16usize, 17, 18, 0, 8, 7, 9, 6, 10, 5, 11, 4, 12, 3, 13, 2, 14, 1, 15]
}

/// The code lengths of one block's two codes, and their code tables.
#[derive(Clone, Debug)]
pub struct DynamicTrees {
    pub lit_len: Vec<u8>,
    pub dist: Vec<u8>,
    pub lit_codes: Vec<(u32, u8)>,
    pub dist_codes: Vec<(u32, u8)>,
}

impl DynamicTrees {
    /// Sizes that the block header can express, and tables that match the lengths.
    pub open spec fn wf(&self) -> bool {
        &&& 257 <= self.lit_len.len() <= 286
        &&& 1 <= self.dist.len() <= 30
        &&& code_table(self.lit_len@, self.lit_codes@)
        &&& code_table(self.dist@, self.dist_codes@)
    }
}

// ---------------------------------------------------------------------------
// Symbol frequencies
// ---------------------------------------------------------------------------

/// The literal/length symbol of a token.
pub open spec fn lit_sym(t: Lz77Token) -> int {
    match t {
        Lz77Token::Literal(b) => b as int,
        Lz77Token::Match { length, .. } => 257 + length_index(length as int),
    }
}

/// Occurrences of literal/length symbol `s` among the tokens.
pub open spec fn lit_sym_count(toks: Seq<Lz77Token>, s: int) -> nat
    decreases toks.len(),
{
    if toks.len() == 0 {
        0
    } else {
        lit_sym_count(toks.drop_last(), s) + if lit_sym(toks.last()) == s {
            1nat
        } else {
            0nat
        }
    }
}

/// Occurrences of distance symbol `s` among the tokens.
pub open spec fn dist_sym_count(toks: Seq<Lz77Token>, s: int) -> nat
    decreases toks.len(),
{
    if toks.len() == 0 {
        0
    } else {
        dist_sym_count(toks.drop_last(), s) + match toks.last() {
            Lz77Token::Match { distance, .. } => if dist_index(distance as int) == s {
                1nat
            } else {
                0nat
            },
            Lz77Token::Literal(_) => 0nat,
        }
    }
}

/// Frequency of literal/length symbol `s` in one block, the end-of-block symbol included.
pub open spec fn block_lit_freq(toks: Seq<Lz77Token>, s: int) -> nat {
    lit_sym_count(toks, s) + if s == 256 {
        1nat
    } else {
        0nat
    }
}

proof fn lemma_counts_step(toks: Seq<Lz77Token>, i: int, s: int)
    requires
        0 <= i < toks.len(),
    ensures
        lit_sym_count(toks.take(i + 1), s) == lit_sym_count(toks.take(i), s) + if lit_sym(toks[i])
            == s {
            1nat
        } else {
            0nat
        },
        dist_sym_count(toks.take(i + 1), s) == dist_sym_count(toks.take(i), s) + match toks[i] {
            Lz77Token::Match { distance, .. } => if dist_index(distance as int) == s {
                1nat
            } else {
                0nat
            },
            Lz77Token::Literal(_) => 0nat,
        },
{
    assert(toks.take(i + 1).drop_last() =~= toks.take(i));
}

/// Symbol counts never exceed the number of tokens.
pub proof fn lemma_counts_bound(toks: Seq<Lz77Token>, s: int)
    ensures
        lit_sym_count(toks, s) <= toks.len(),
        dist_sym_count(toks, s) <= toks.len(),
    decreases toks.len(),
{
    if toks.len() > 0 {
        lemma_counts_bound(toks.drop_last(), s);
    }
}

proof fn lemma_no_eob_token(toks: Seq<Lz77Token>)
    requires
        forall|i: int| 0 <= i < toks.len() ==> token_wf(#[trigger] toks[i]),
    ensures
        lit_sym_count(toks, 256) == 0,
    decreases toks.len(),
{
    if toks.len() > 0 {
        assert forall|i: int| 0 <= i < toks.drop_last().len() implies token_wf(
            #[trigger] toks.drop_last()[i],
        ) by {
            assert(toks.drop_last()[i] == toks[i]);
        }
        lemma_no_eob_token(toks.drop_last());
        assert(token_wf(toks[toks.len() - 1]));
        match toks.last() {
            Lz77Token::Literal(_) => {},
            Lz77Token::Match { length, .. } => {
                lemma_length_index_range(length as int);
            },
        }
    }
}

/// Count how often each literal/length and distance symbol occurs in one block, the
/// end-of-block symbol counted once.
pub fn count_block_freq(tokens: &[Lz77Token]) -> (r: ([u64; 286], [u64; 30]))
    requires
        forall|i: int| 0 <= i < tokens.len() ==> token_wf(#[trigger] tokens[i]),
    ensures
        forall|s: int| 0 <= s < 286 ==> #[trigger] r.0@[s] == block_lit_freq(tokens@, s),
        forall|s: int| 0 <= s < 30 ==> #[trigger] r.1@[s] == dist_sym_count(tokens@, s),
{
    let mut lit = [0u64; 286];
    let mut dist = [0u64; 30];
    let mut i = 0usize;
    proof {
        assert(tokens@.take(0) =~= Seq::<Lz77Token>::empty());
    }
    while i < tokens.len()
        invariant
            i <= tokens.len(),
            forall|k: int| 0 <= k < tokens.len() ==> token_wf(#[trigger] tokens[k]),
            forall|s: int| 0 <= s < 286 ==> #[trigger] lit@[s] == lit_sym_count(tokens@.take(i as int), s),
            forall|s: int| 0 <= s < 30 ==> #[trigger] dist@[s] == dist_sym_count(tokens@.take(i as int), s),
        decreases tokens.len() - i,
    {
        proof {
            assert forall|s: int| 0 <= s < 286 implies lit_sym_count(tokens@.take(i as int), s) < u64::MAX by {
                lemma_counts_bound(tokens@.take(i as int), s);
            }
            assert forall|s: int| 0 <= s < 30 implies dist_sym_count(tokens@.take(i as int), s) < u64::MAX by {
                lemma_counts_bound(tokens@.take(i as int), s);
            }
            assert forall|s: int| #![auto] 0 <= s < 286 implies lit_sym_count(tokens@.take(i + 1), s) == lit_sym_count(tokens@.take(i as int), s) + if lit_sym(tokens@[i as int]) == s { 1nat } else { 0nat } by {
                lemma_counts_step(tokens@, i as int, s);
            }
            assert forall|s: int| #![auto] 0 <= s < 30 implies dist_sym_count(tokens@.take(i + 1), s) == dist_sym_count(tokens@.take(i as int), s) + match tokens@[i as int] {
                Lz77Token::Match { distance, .. } => if dist_index(distance as int) == s { 1nat } else { 0nat },
                Lz77Token::Literal(_) => 0nat,
            } by {
                lemma_counts_step(tokens@, i as int, s);
            }
        }
        match &tokens[i] {
            Lz77Token::Literal(b) => {
                let k = *b as usize;
                lit[k] = lit[k].saturating_add(1);
            },
            Lz77Token::Match { length, distance } => {
                let len = *length as usize;
                let distv = *distance as usize;
                let (sym, _) = length_code(len);
                proof {
                    lemma_length_index_unique(len as int, sym - 257);
                }
                let k = sym as usize;
                lit[k] = lit[k].saturating_add(1);
                let (dsym, _) = distance_code(distv);
                proof {
                    lemma_dist_index_unique(distv as int, dsym as int);
                }
                let dk = dsym as usize;
                dist[dk] = dist[dk].saturating_add(1);
            },
        }
        i = i + 1;
    }
    proof {
        assert(tokens@.take(tokens.len() as int) =~= tokens@);
        lemma_no_eob_token(tokens@);
    }
    lit[256] = lit[256].saturating_add(1);
    (lit, dist)
}

/// Frequency of literal/length symbol `s` over all blocks.
pub open spec fn total_lit_freq(blocks: Seq<Vec<Lz77Token>>, s: int) -> nat
    decreases blocks.len(),
{
    if blocks.len() == 0 {
        0
    } else {
        total_lit_freq(blocks.drop_last(), s) + block_lit_freq(blocks.last()@, s)
    }
}

/// Frequency of distance symbol `s` over all blocks.
pub open spec fn total_dist_freq(blocks: Seq<Vec<Lz77Token>>, s: int) -> nat
    decreases blocks.len(),
{
    if blocks.len() == 0 {
        0
    } else {
        total_dist_freq(blocks.drop_last(), s) + dist_sym_count(blocks.last()@, s)
    }
}

/// `x`, or `u64::MAX` when it does not fit.
pub open spec fn saturate(x: nat) -> u64 {
    if x > u64::MAX {
        u64::MAX
    } else {
        x as u64
    }
}

/// Symbol frequencies summed over blocks (saturating at `u64::MAX`).
pub fn aggregate_freq(blocks: &[Vec<Lz77Token>]) -> (r: ([u64; 286], [u64; 30]))
    requires
        forall|b: int, i: int|
            0 <= b < blocks.len() && 0 <= i < blocks[b].len() ==> token_wf(#[trigger] blocks[b][i]),
    ensures
        forall|s: int| 0 <= s < 286 ==> #[trigger] r.0@[s] == saturate(total_lit_freq(blocks@, s)),
        forall|s: int| 0 <= s < 30 ==> #[trigger] r.1@[s] == saturate(total_dist_freq(blocks@, s)),
{
    let mut lit = [0u64; 286];
    let mut dist = [0u64; 30];
    let mut k = 0usize;
    while k < blocks.len()
        invariant
            k <= blocks.len(),
            forall|b: int, i: int|
                0 <= b < blocks.len() && 0 <= i < blocks[b].len() ==> token_wf(#[trigger] blocks[b][i]),
            forall|s: int| 0 <= s < 286 ==> #[trigger] lit@[s] == saturate(total_lit_freq(blocks@.take(k as int), s)),
            forall|s: int| 0 <= s < 30 ==> #[trigger] dist@[s] == saturate(total_dist_freq(blocks@.take(k as int), s)),
        decreases blocks.len() - k,
    {
        proof {
            assert(blocks@.take(k + 1).drop_last() =~= blocks@.take(k as int));
            assert forall|i: int| 0 <= i < blocks[k as int].len() implies token_wf(#[trigger] blocks[k as int]@[i]) by {
                assert(token_wf(blocks[k as int][i]));
            }
        }
        let (l, d) = count_block_freq(&blocks[k]);
        let mut i = 0usize;
        while i < 286
            invariant
                i <= 286,
                forall|s: int| 0 <= s < 286 ==> #[trigger] l@[s] == block_lit_freq(blocks[k as int]@, s),
                forall|s: int| 0 <= s < i ==> #[trigger] lit@[s] == saturate(total_lit_freq(blocks@.take(k + 1), s)),
                forall|s: int| i <= s < 286 ==> #[trigger] lit@[s] == saturate(total_lit_freq(blocks@.take(k as int), s)),
                blocks@.take(k + 1).drop_last() == blocks@.take(k as int),
                k < blocks.len(),
            decreases 286 - i,
        {
            lit[i] = lit[i].saturating_add(l[i]);
            i = i + 1;
        }
        let mut j = 0usize;
        while j < 30
            invariant
                j <= 30,
                forall|s: int| 0 <= s < 30 ==> #[trigger] d@[s] == dist_sym_count(blocks[k as int]@, s),
                forall|s: int| 0 <= s < j ==> #[trigger] dist@[s] == saturate(total_dist_freq(blocks@.take(k + 1), s)),
                forall|s: int| j <= s < 30 ==> #[trigger] dist@[s] == saturate(total_dist_freq(blocks@.take(k as int), s)),
                blocks@.take(k + 1).drop_last() == blocks@.take(k as int),
                k < blocks.len(),
            decreases 30 - j,
        {
            dist[j] = dist[j].saturating_add(d[j]);
            j = j + 1;
        }
        k = k + 1;
    }
    proof {
        assert(blocks@.take(blocks.len() as int) =~= blocks@);
    }
    (lit, dist)
}

// ---------------------------------------------------------------------------
// Code lengths
// ---------------------------------------------------------------------------

/// The symbols below `n` that occur (nonzero frequency), in increasing order.
pub open spec fn active(freq: Seq<u64>, n: int) -> Seq<usize>
    decreases n,
{
    if n <= 0 {
        Seq::empty()
    } else {
        active(freq, n - 1) + if freq[n - 1] > 0 {
            seq![(n - 1) as usize]
        } else {
            Seq::empty()
        }
    }
}

/// The frequencies of the symbols listed in `act`.
pub open spec fn freqs_of(freq: Seq<u64>, act: Seq<usize>) -> Seq<u64> {
    Seq::new(act.len(), |j: int| freq[act[j] as int])
}

/// The code lengths of the symbols listed in `act`.
pub open spec fn lens_of(out: Seq<u8>, act: Seq<usize>) -> Seq<u8> {
    Seq::new(act.len(), |j: int| out[act[j] as int])
}

/// `out` gives the first `n` symbols of `freq` their code lengths: none for a symbol that does
/// not occur, one bit for a lone symbol, otherwise the package-merge lengths limited to
/// `max_bits` of the symbols that occur.
pub open spec fn huffman_lengths_of(freq: Seq<u64>, max_bits: nat, n: int, out: Seq<u8>) -> bool {
    let act = active(freq, n);
    &&& out.len() == n
    &&& forall|i: int| 0 <= i < n && freq[i] == 0 ==> #[trigger] out[i] == 0
    &&& act.len() == 1 ==> out[act[0] as int] == 1
    &&& act.len() >= 2 ==> limited_lengths_of(freqs_of(freq, act), max_bits, lens_of(out, act))
}

proof fn lemma_active(freq: Seq<u64>, n: int)
    requires
        0 <= n <= freq.len(),
        freq.len() <= usize::MAX,
    ensures
        active(freq, n).len() <= n,
        forall|j: int| 0 <= j < active(freq, n).len() ==> #[trigger] active(freq, n)[j] < n,
        forall|j: int| 0 <= j < active(freq, n).len() ==> freq[#[trigger] active(freq, n)[j] as int] > 0,
        forall|j: int, k: int| 0 <= j < k < active(freq, n).len() ==> active(freq, n)[j] < active(freq, n)[k],
        active(freq, n).len() == 0 ==> forall|i: int| 0 <= i < n ==> freq[i] == 0,
    decreases n,
{
    if n > 0 {
        lemma_active(freq, n - 1);
        let a = active(freq, n - 1);
        let b = active(freq, n);
        if freq[n - 1] > 0 {
            assert(b =~= a.push((n - 1) as usize));
            assert forall|j: int| 0 <= j < a.len() implies #[trigger] b[j] == a[j] by {}
        } else {
            assert(b =~= a);
        }
    }
}

/// The frequencies of the symbols that occur total no more than all frequencies.
proof fn lemma_active_total(freq: Seq<u64>, n: int)
    requires
        0 <= n <= freq.len(),
        freq.len() <= usize::MAX,
    ensures
        freq_total(freqs_of(freq, active(freq, n))) <= sum_nat(Seq::new(n as nat, |i: int| freq[i] as nat)),
    decreases n,
{
    if n > 0 {
        lemma_active_total(freq, n - 1);
        lemma_active(freq, n - 1);
        let a0 = active(freq, n - 1);
        let a1 = active(freq, n);
        let f0 = freqs_of(freq, a0);
        let f1 = freqs_of(freq, a1);
        assert(Seq::new(n as nat, |i: int| freq[i] as nat).drop_last() =~= Seq::new(
            (n - 1) as nat,
            |i: int| freq[i] as nat,
        ));
        if freq[n - 1] > 0 {
            assert(Seq::new(f1.len(), |i: int| f1[i] as nat).drop_last() =~= Seq::new(
                f0.len(),
                |i: int| f0[i] as nat,
            ));
        } else {
            assert(a1 =~= a0);
        }
    }
}

/// The sum of the first `n` frequencies is at most the sum of all.
proof fn lemma_prefix_total(freq: Seq<u64>, n: int)
    requires
        0 <= n <= freq.len(),
    ensures
        sum_nat(Seq::new(n as nat, |i: int| freq[i] as nat)) <= freq_total(freq),
    decreases freq.len() - n,
{
    if n < freq.len() {
        lemma_prefix_total(freq, n + 1);
        assert(Seq::new((n + 1) as nat, |i: int| freq[i] as nat).drop_last() =~= Seq::new(
            n as nat,
            |i: int| freq[i] as nat,
        ));
    } else {
        assert(Seq::new(n as nat, |i: int| freq[i] as nat) =~= Seq::new(
            freq.len(),
            |i: int| freq[i] as nat,
        ));
    }
}

/// Package-merge on the symbols that occur stays within `u64` whenever it does on all of them.
proof fn lemma_active_fit(freq: Seq<u64>, m: nat, n: int)
    requires
        0 <= n <= freq.len(),
        freq.len() <= usize::MAX,
        pm_weights_fit(freq, m),
    ensures
        pm_weights_fit(freqs_of(freq, active(freq, n)), m),
{
    let f = freqs_of(freq, active(freq, n));
    lemma_active(freq, n);
    if m > 0 {
        if forall|i: int| 0 <= i < freq.len() ==> freq[i] * pow2((m - 1) as nat) <= u64::MAX {
            assert forall|q: int| 0 <= q < f.len() implies f[q] * pow2((m - 1) as nat) <= u64::MAX by {
                assert(f[q] == freq[active(freq, n)[q] as int]);
            }
        } else {
            lemma_active_total(freq, n);
            lemma_prefix_total(freq, n);
            let a = freq_total(f);
            let b = freq_total(freq);
            assert((m - 1) * a <= (m - 1) * b) by (nonlinear_arith)
                requires
                    a <= b,
                    m >= 1,
            ;
        }
    }
}

/// Frequency tables whose counts are at most `2^49` stay within `u64` under package-merge at
/// 15 bits, also after the end-of-block and lone-distance adjustments.
pub proof fn lemma_adjusted_fit(lit: Seq<u64>, dist: Seq<u64>)
    requires
        lit.len() == 286,
        dist.len() == 30,
        forall|s: int| 0 <= s < 286 ==> #[trigger] lit[s] <= pow2(49),
        forall|s: int| 0 <= s < 30 ==> #[trigger] dist[s] <= pow2(49),
    ensures
        pm_weights_fit(adj_lit(lit), 15),
        pm_weights_fit(adj_dist(dist), 15),
{
    lemma2_to64();
    vstd::arithmetic::power2::lemma2_to64_rest();
    let al = adj_lit(lit);
    let ad = adj_dist(dist);
    assert forall|s: int| 0 <= s < al.len() implies al[s] * pow2((15 - 1) as nat) <= u64::MAX by {
        assert(al[s] <= lit[s] || al[s] == 1);
        let x = al[s] as int;
        assert(x * 16384 <= 0x2_0000_0000_0000 * 16384) by (nonlinear_arith)
            requires
                x <= 0x2_0000_0000_0000,
        ;
    }
    assert forall|s: int| 0 <= s < ad.len() implies ad[s] * pow2((15 - 1) as nat) <= u64::MAX by {
        assert(ad[s] <= dist[s] || ad[s] == 1);
        let x = ad[s] as int;
        assert(x * 16384 <= 0x2_0000_0000_0000 * 16384) by (nonlinear_arith)
            requires
                x <= 0x2_0000_0000_0000,
        ;
    }
}

/// Code lengths (at most `max_bits`) for the first `alphabet_size` symbols of `freq`.
fn huffman_lengths(freq: &[u64], max_bits: u32, alphabet_size: usize) -> (r: Result<Vec<u8>, PmError>)
    requires
        alphabet_size <= freq.len(),
        1 <= max_bits <= 15,
        alphabet_size <= pow2(max_bits as nat),
        pm_weights_fit(freq@, max_bits as nat),
    ensures
        active(freq@, alphabet_size as int).len() == 0 <==> r is Err,
        r is Err ==> r == Err::<Vec<u8>, PmError>(PmError::NoSymbols),
        r matches Ok(out) ==> huffman_lengths_of(freq@, max_bits as nat, alphabet_size as int, out@),
{
    let ghost act_s = active(freq@, alphabet_size as int);
    proof {
        lemma_active(freq@, alphabet_size as int);
        lemma2_to64();
    }
    let mut out: Vec<u8> = Vec::new();
    let mut act: Vec<usize> = Vec::new();
    let mut i = 0usize;
    while i < alphabet_size
        invariant
            i <= alphabet_size <= freq.len(),
            out.len() == i,
            forall|k: int| 0 <= k < i ==> #[trigger] out@[k] == 0,
            act@ == active(freq@, i as int),
        decreases alphabet_size - i,
    {
        out.push(0);
        if freq[i] > 0 {
            act.push(i);
        }
        i = i + 1;
    }
    if act.len() == 0 {
        return Err(PmError::NoSymbols);
    }
    if act.len() == 1 {
        out.set(act[0], 1);
        return Ok(out);
    }
    let mut f: Vec<u64> = Vec::new();
    let mut j = 0usize;
    while j < act.len()
        invariant
            act@ == act_s,
            j <= act.len(),
            f@ == freqs_of(freq@, act@).take(j as int),
            forall|q: int| 0 <= q < act.len() ==> #[trigger] act@[q] < alphabet_size,
            alphabet_size <= freq.len(),
        decreases act.len() - j,
    {
        f.push(freq[act[j]]);
        j = j + 1;
        proof {
            assert(f@ =~= freqs_of(freq@, act@).take(j as int));
        }
    }
    proof {
        assert(f@ =~= freqs_of(freq@, act@));
        assert(pm_weights_fit(f@, max_bits as nat)) by {
            lemma_active_fit(freq@, max_bits as nat, alphabet_size as int);
        }
        assert(f.len() <= pow2(max_bits as nat));
    }
    let part = match length_limited_lengths(&f, max_bits) {
        Ok(p) => p,
        Err(e) => {
            return Err(e);
        },
    };
    let mut k = 0usize;
    while k < act.len()
        invariant
            act@ == act_s,
            k <= act.len(),
            part.len() == act.len(),
            out.len() == alphabet_size,
            forall|q: int| 0 <= q < act.len() ==> #[trigger] act@[q] < alphabet_size,
            forall|q: int, t: int| 0 <= q < t < act.len() ==> act@[q] < act@[t],
            forall|q: int| 0 <= q < k ==> out@[#[trigger] act@[q] as int] == part@[q],
            forall|x: int| 0 <= x < alphabet_size && (forall|q: int| 0 <= q < k ==> act@[q] != x) ==> #[trigger] out@[x] == 0,
        decreases act.len() - k,
    {
        out.set(act[k], part[k]);
        k = k + 1;
    }
    proof {
        assert(lens_of(out@, act@) =~= part@);
        assert forall|x: int| 0 <= x < alphabet_size && freq@[x] == 0 implies #[trigger] out@[x] == 0 by {
            assert forall|q: int| 0 <= q < act.len() implies act@[q] != x by {
                assert(freq@[act@[q] as int] > 0);
            }
        }
    }
    Ok(out)
}

/// The symbols below `n` with nonzero frequency, in increasing order.
fn active_symbols(freq: &[u64], n: usize) -> (r: Vec<usize>)
    requires
        n <= freq.len(),
    ensures
        r@ == active(freq@, n as int),
{
    let mut act: Vec<usize> = Vec::new();
    let mut i = 0usize;
    while i < n
        invariant
            i <= n <= freq.len(),
            act@ == active(freq@, i as int),
        decreases n - i,
    {
        if freq[i] > 0 {
            act.push(i);
        }
        i = i + 1;
    }
    act
}

/// Drop trailing unused literal/length codes, keeping at least 257.
pub open spec fn trimmed_lit(s: Seq<u8>) -> Seq<u8>
    decreases s.len(),
{
    if s.len() > 257 && s.last() == 0 {
        trimmed_lit(s.drop_last())
    } else {
        s
    }
}

/// Drop trailing unused distance codes, keeping at least one.
pub open spec fn trimmed_dist(s: Seq<u8>) -> Seq<u8>
    decreases s.len(),
{
    if s.len() > 1 && s.last() == 0 {
        trimmed_dist(s.drop_last())
    } else if s.len() == 0 {
        seq![0u8]
    } else {
        s
    }
}

fn trim_lit(lit: Vec<u8>) -> (r: Vec<u8>)
    ensures
        r@ == trimmed_lit(lit@),
{
    let mut lit = lit;
    let ghost l0 = lit@;
    while lit.len() > 257 && lit[lit.len() - 1] == 0
        invariant
            trimmed_lit(lit@) == trimmed_lit(l0),
        decreases lit.len(),
    {
        let ghost before = lit@;
        lit.pop();
        proof {
            assert(lit@ =~= before.drop_last());
        }
    }
    lit
}

fn trim_dist(dist: Vec<u8>) -> (r: Vec<u8>)
    ensures
        r@ == trimmed_dist(dist@),
{
    let mut dist = dist;
    let ghost d0 = dist@;
    while dist.len() > 1 && dist[dist.len() - 1] == 0
        invariant
            trimmed_dist(dist@) == trimmed_dist(d0),
        decreases dist.len(),
    {
        let ghost before = dist@;
        dist.pop();
        proof {
            assert(dist@ =~= before.drop_last());
        }
    }
    if dist.len() == 0 {
        dist.push(0);
        proof {
            assert(dist@ =~= seq![0u8]);
        }
    }
    dist
}

// ---------------------------------------------------------------------------
// Run-length coding of code lengths
// ---------------------------------------------------------------------------

/// A code-length token: (symbol, extra value, extra bit count).
pub type ClToken = (u8, u32, u8);

/// The code lengths that code-length tokens stand for: symbols 0..=15 are lengths, 16
/// repeats the previous length 3..=6 times, 17 and 18 give 3..=10 and 11..=138 zeros.
pub open spec fn cl_decode(toks: Seq<ClToken>) -> Seq<u8>
    decreases toks.len(),
{
    if toks.len() == 0 {
        Seq::empty()
    } else {
        let out = cl_decode(toks.drop_last());
        let t = toks.last();
        if t.0 == 16 {
            out + Seq::new((t.1 + 3) as nat, |i: int| out.last())
        } else if t.0 == 17 {
            out + Seq::new((t.1 + 3) as nat, |i: int| 0u8)
        } else if t.0 == 18 {
            out + Seq::new((t.1 + 11) as nat, |i: int| 0u8)
        } else {
            out.push(t.0)
        }
    }
}

/// A token that the code-length alphabet can carry, its extra value within its extra bits.
pub open spec fn cl_token_ok(t: ClToken) -> bool {
    ||| t.0 < 16 && t.1 == 0 && t.2 == 0
    ||| t.0 == 16 && t.1 <= 3 && t.2 == 2
    ||| t.0 == 17 && t.1 <= 7 && t.2 == 3
    ||| t.0 == 18 && t.1 <= 127 && t.2 == 7
}

/// Every token is well formed, and a repeat always has a previous length to repeat.
pub open spec fn cl_tokens_ok(toks: Seq<ClToken>) -> bool {
    forall|i: int|
        0 <= i < toks.len() ==> cl_token_ok(#[trigger] toks[i]) && (toks[i].0 == 16 ==> cl_decode(
            toks.take(i),
        ).len() > 0)
}

proof fn lemma_cl_push(toks: Seq<ClToken>, t: ClToken)
    requires
        cl_tokens_ok(toks),
        cl_token_ok(t),
        t.0 == 16 ==> cl_decode(toks).len() > 0,
    ensures
        cl_tokens_ok(toks.push(t)),
        cl_decode(toks.push(t)) == if t.0 == 16 {
            cl_decode(toks) + Seq::new((t.1 + 3) as nat, |i: int| cl_decode(toks).last())
        } else if t.0 == 17 {
            cl_decode(toks) + Seq::new((t.1 + 3) as nat, |i: int| 0u8)
        } else if t.0 == 18 {
            cl_decode(toks) + Seq::new((t.1 + 11) as nat, |i: int| 0u8)
        } else {
            cl_decode(toks).push(t.0)
        },
{
    let p = toks.push(t);
    assert(p.drop_last() =~= toks);
    assert forall|i: int| 0 <= i < p.len() implies cl_token_ok(#[trigger] p[i]) && (p[i].0 == 16
        ==> cl_decode(p.take(i)).len() > 0) by {
        if i < toks.len() {
            assert(p.take(i) =~= toks.take(i));
        } else {
            assert(p.take(i) =~= toks);
        }
    }
}

/// How many lengths from position `n` on equal `c`, without a break.
pub open spec fn run_from(l: Seq<u8>, n: int, c: u8) -> nat
    decreases l.len() - n,
{
    if 0 <= n < l.len() && l[n] == c {
        1 + run_from(l, n + 1, c)
    } else {
        0
    }
}

/// A run of `run` zero lengths: symbol 18 for up to 138 of them at a time while 11 or more
/// remain, then 17 for 3 to 10, else single zeros.
pub open spec fn zero_run_tokens(run: nat) -> Seq<ClToken>
    decreases run,
{
    if run >= 11 {
        let k: nat = if run < 138 {
            run
        } else {
            138
        };
        seq![(18u8, (k - 11) as u32, 7u8)] + zero_run_tokens((run - k) as nat)
    } else if run >= 3 {
        seq![(17u8, (run - 3) as u32, 3u8)]
    } else {
        Seq::new(run, |i: int| (0u8, 0u32, 0u8))
    }
}

/// A run of `run` copies of the length just sent: symbol 16 for up to 6 of them at a time
/// while 3 or more remain, the rest as literal lengths.
pub open spec fn repeat_run_tokens(run: nat, c: u8) -> Seq<ClToken>
    decreases run,
{
    if run >= 3 {
        let k: nat = if run < 6 {
            run
        } else {
            6
        };
        seq![(16u8, (k - 3) as u32, 2u8)] + repeat_run_tokens((run - k) as nat, c)
    } else {
        Seq::new(run, |i: int| (c, 0u32, 0u8))
    }
}

/// A run from position `n` stays within the lengths, and is nonempty where `l[n]` is `c`.
pub proof fn lemma_run_from_bounds(l: Seq<u8>, n: int, c: u8)
    requires
        0 <= n <= l.len(),
    ensures
        run_from(l, n, c) <= l.len() - n,
        n < l.len() && l[n] == c ==> run_from(l, n, c) >= 1,
    decreases l.len() - n,
{
    if n < l.len() && l[n] == c {
        lemma_run_from_bounds(l, n + 1, c);
    }
}

/// The run-length coding of the lengths from position `n` on, `prev` being the length just
/// before them (0 at the start): each maximal run of equal lengths in turn, zeros by
/// `zero_run_tokens`, a run of three or more repeating the length before it by
/// `repeat_run_tokens`, any other run as literal lengths.
pub open spec fn cl_rle_from(l: Seq<u8>, n: int, prev: u8) -> Seq<ClToken>
    decreases l.len() - n,
{
    if n < 0 || n >= l.len() {
        Seq::empty()
    } else {
        let c = l[n];
        let run = run_from(l, n, c);
        proof {
            lemma_run_from_bounds(l, n, c);
        }
        if c == 0 {
            zero_run_tokens(run) + cl_rle_from(l, n + run, 0)
        } else if c == prev && run >= 3 {
            repeat_run_tokens(run, c) + cl_rle_from(l, n + run, c)
        } else {
            Seq::new(run, |i: int| (c, 0u32, 0u8)) + cl_rle_from(l, n + run, c)
        }
    }
}

/// The code-length tokens for a whole sequence of code lengths.
pub open spec fn cl_rle(l: Seq<u8>) -> Seq<ClToken> {
    cl_rle_from(l, 0, 0)
}

/// Run-length code a sequence of code lengths (each at most 15) with the code-length alphabet.
fn cl_rle_tokens(lengths: &[u8]) -> (out: Vec<ClToken>)
    requires
        forall|i: int| 0 <= i < lengths.len() ==> #[trigger] lengths[i] <= 15,
    ensures
        cl_tokens_ok(out@),
        cl_decode(out@) == lengths@,
        out.len() <= lengths.len(),
        out@ == cl_rle(lengths@),
{
    let mut n = 0usize;
    let mut prev: u8 = 0;
    let mut out: Vec<ClToken> = Vec::new();
    let ghost l = lengths@;
    let ghost total = cl_rle(l);
    proof {
        assert(lengths@.take(0) =~= Seq::<u8>::empty());
        assert(out@ + cl_rle_from(l, 0, 0) =~= total);
    }
    while n < lengths.len()
        invariant
            n <= lengths.len(),
            l == lengths@,
            total == cl_rle(l),
            forall|i: int| 0 <= i < lengths.len() ==> #[trigger] lengths[i] <= 15,
            cl_tokens_ok(out@),
            cl_decode(out@) == lengths@.take(n as int),
            out.len() <= n,
            prev == (if n == 0 {
                0u8
            } else {
                lengths[n - 1]
            }),
            out@ + cl_rle_from(l, n as int, prev) == total,
        decreases lengths.len() - n,
    {
        let c = lengths[n];
        let mut run = 0usize;
        while n + run < lengths.len() && lengths[n + run] == c
            invariant
                n < lengths.len(),
                l == lengths@,
                n + run <= lengths.len(),
                forall|k: int| n <= k < n + run ==> lengths[k] == c,
                run_from(l, n as int, c) == run + run_from(l, (n + run) as int, c),
            decreases lengths.len() - n - run,
        {
            run = run + 1;
        }
        assert(run >= 1);
        assert(run == run_from(l, n as int, c));
        let ghost rest = cl_rle_from(l, (n + run) as int, c);
        if c == 0 {
            let mut rem = run;
            proof {
                assert(out@ + zero_run_tokens(rem as nat) + rest =~= total);
            }
            while rem >= 11
                invariant
                    rem <= run,
                    n + run <= lengths.len(),
                    forall|k: int| n <= k < n + run ==> lengths[k] == 0,
                    cl_tokens_ok(out@),
                    cl_decode(out@) == lengths@.take(n + run - rem),
                    out.len() <= n + run - rem,
                    out@ + zero_run_tokens(rem as nat) + rest == total,
                decreases rem,
            {
                let k = if rem < 138 {
                    rem
                } else {
                    138
                };
                let ghost before = out@;
                let t: ClToken = (18, (k - 11) as u32, 7);
                proof {
                    lemma_cl_push(before, t);
                }
                out.push(t);
                proof {
                    assert(lengths@.take(n + run - rem + k) =~= lengths@.take(n + run - rem)
                        + Seq::new((t.1 + 11) as nat, |i: int| 0u8));
                    assert(out@ + zero_run_tokens((rem - k) as nat) + rest =~= before
                        + zero_run_tokens(rem as nat) + rest);
                }
                rem = rem - k;
            }
            if rem >= 3 {
                let ghost before = out@;
                let t: ClToken = (17, (rem - 3) as u32, 3);
                proof {
                    lemma_cl_push(before, t);
                }
                out.push(t);
                proof {
                    assert(lengths@.take(n + run) =~= lengths@.take(n + run - rem)
                        + Seq::new((t.1 + 3) as nat, |i: int| 0u8));
                    assert(out@ + zero_run_tokens(0) + rest =~= before + zero_run_tokens(rem as nat)
                        + rest);
                }
                rem = 0;
            }
            while rem > 0
                invariant
                    rem <= run,
                    rem < 3,
                    n + run <= lengths.len(),
                    forall|k: int| n <= k < n + run ==> lengths[k] == 0,
                    cl_tokens_ok(out@),
                    cl_decode(out@) == lengths@.take(n + run - rem),
                    out.len() <= n + run - rem,
                    out@ + zero_run_tokens(rem as nat) + rest == total,
                decreases rem,
            {
                let ghost before = out@;
                let t: ClToken = (0, 0, 0);
                proof {
                    lemma_cl_push(before, t);
                }
                out.push(t);
                proof {
                    assert(lengths@.take(n + run - rem + 1) =~= lengths@.take(n + run - rem).push(
                        0u8,
                    ));
                    assert(out@ + zero_run_tokens((rem - 1) as nat) + rest =~= before
                        + zero_run_tokens(rem as nat) + rest);
                }
                rem = rem - 1;
            }
            proof {
                assert(out@ + rest =~= out@ + zero_run_tokens(0) + rest);
            }
            prev = 0;
            n = n + run;
            continue;
        }
        if c == prev && run >= 3 {
            let mut rem = run;
            proof {
                assert(out@ + repeat_run_tokens(rem as nat, c) + rest =~= total);
            }
            while rem >= 3
                invariant
                    rem <= run,
                    c != 0,
                    n >= 1,
                    lengths[n - 1] == c,
                    n + run <= lengths.len(),
                    forall|k: int| n <= k < n + run ==> lengths[k] == c,
                    cl_tokens_ok(out@),
                    cl_decode(out@) == lengths@.take(n + run - rem),
                    out.len() <= n + run - rem,
                    out@ + repeat_run_tokens(rem as nat, c) + rest == total,
                decreases rem,
            {
                let k = if rem < 6 {
                    rem
                } else {
                    6
                };
                let ghost before = out@;
                let t: ClToken = (16, (k - 3) as u32, 2);
                proof {
                    assert(cl_decode(before).last() == c);
                    lemma_cl_push(before, t);
                }
                out.push(t);
                proof {
                    assert(lengths@.take(n + run - rem + k) =~= lengths@.take(n + run - rem)
                        + Seq::new((t.1 + 3) as nat, |i: int| c));
                    assert(out@ + repeat_run_tokens((rem - k) as nat, c) + rest =~= before
                        + repeat_run_tokens(rem as nat, c) + rest);
                }
                rem = rem - k;
            }
            while rem > 0
                invariant
                    rem <= run,
                    rem < 3,
                    c <= 15,
                    n + run <= lengths.len(),
                    forall|k: int| n <= k < n + run ==> lengths[k] == c,
                    cl_tokens_ok(out@),
                    cl_decode(out@) == lengths@.take(n + run - rem),
                    out.len() <= n + run - rem,
                    out@ + repeat_run_tokens(rem as nat, c) + rest == total,
                decreases rem,
            {
                let ghost before = out@;
                let t: ClToken = (c, 0, 0);
                proof {
                    lemma_cl_push(before, t);
                }
                out.push(t);
                proof {
                    assert(lengths@.take(n + run - rem + 1) =~= lengths@.take(n + run - rem).push(
                        c,
                    ));
                    assert(out@ + repeat_run_tokens((rem - 1) as nat, c) + rest =~= before
                        + repeat_run_tokens(rem as nat, c) + rest);
                }
                rem = rem - 1;
            }
            proof {
                assert(out@ + rest =~= out@ + repeat_run_tokens(0, c) + rest);
            }
            prev = c;
            n = n + run;
            continue;
        }
        let mut m = 0usize;
        proof {
            assert(out@ + Seq::new(run as nat, |i: int| (c, 0u32, 0u8)) + rest =~= total);
        }
        while m < run
            invariant
                m <= run,
                c <= 15,
                n + run <= lengths.len(),
                forall|k: int| n <= k < n + run ==> lengths[k] == c,
                cl_tokens_ok(out@),
                cl_decode(out@) == lengths@.take(n + m),
                out.len() <= n + m,
                out@ + Seq::new((run - m) as nat, |i: int| (c, 0u32, 0u8)) + rest == total,
            decreases run - m,
        {
            let ghost before = out@;
            let t: ClToken = (c, 0, 0);
            proof {
                lemma_cl_push(before, t);
            }
            out.push(t);
            proof {
                assert(lengths@.take(n + m + 1) =~= lengths@.take(n + m).push(c));
                assert(out@ + Seq::new((run - (m + 1)) as nat, |i: int| (c, 0u32, 0u8)) + rest
                    =~= before + Seq::new((run - m) as nat, |i: int| (c, 0u32, 0u8)) + rest);
            }
            m = m + 1;
        }
        proof {
            assert(out@ + rest =~= out@ + Seq::new((run - m) as nat, |i: int| (c, 0u32, 0u8)) + rest);
        }
        prev = c;
        n = n + run;
    }
    proof {
        assert(lengths@.take(lengths.len() as int) =~= lengths@);
        assert(out@ + cl_rle_from(l, n as int, prev) =~= out@);
    }
    out
}

/// Occurrences of code-length symbol `s` among the tokens.
pub open spec fn cl_count(toks: Seq<ClToken>, s: int) -> nat
    decreases toks.len(),
{
    if toks.len() == 0 {
        0
    } else {
        cl_count(toks.drop_last(), s) + if toks.last().0 == s {
            1nat
        } else {
            0nat
        }
    }
}

proof fn lemma_cl_count_bound(toks: Seq<ClToken>, s: int)
    ensures
        cl_count(toks, s) <= toks.len(),
    decreases toks.len(),
{
    if toks.len() > 0 {
        lemma_cl_count_bound(toks.drop_last(), s);
    }
}

/// How often each code-length symbol occurs.
fn count_cl_freq(tokens: &[ClToken]) -> (f: [u64; 19])
    requires
        forall|i: int| 0 <= i < tokens.len() ==> (#[trigger] tokens[i]).0 <= 18,
    ensures
        forall|s: int| 0 <= s < 19 ==> #[trigger] f@[s] == cl_count(tokens@, s),
{
    let mut f = [0u64; 19];
    let mut i = 0usize;
    proof {
        assert(tokens@.take(0) =~= Seq::<ClToken>::empty());
    }
    while i < tokens.len()
        invariant
            i <= tokens.len(),
            forall|k: int| 0 <= k < tokens.len() ==> (#[trigger] tokens[k]).0 <= 18,
            forall|s: int| 0 <= s < 19 ==> #[trigger] f@[s] == cl_count(tokens@.take(i as int), s),
        decreases tokens.len() - i,
    {
        proof {
            assert(tokens@.take(i + 1).drop_last() =~= tokens@.take(i as int));
            assert forall|s: int| 0 <= s < 19 implies cl_count(tokens@.take(i as int), s) < u64::MAX by {
                lemma_cl_count_bound(tokens@.take(i as int), s);
            }
        }
        let s = tokens[i].0 as usize;
        f[s] = f[s].saturating_add(1);
        i = i + 1;
    }
    proof {
        assert(tokens@.take(tokens.len() as int) =~= tokens@);
    }
    f
}

/// A code needs two symbols: with none in use, symbols 0 and 1 each get frequency 1; with one
/// in use, symbol 1 (or 0, if the one in use is 0) gets frequency 1.
pub open spec fn two_symbols(f: Seq<u64>) -> Seq<u64> {
    let nz = active(f, 19);
    if nz.len() >= 2 {
        f
    } else if nz.len() == 0 {
        f.update(0, 1).update(1, 1)
    } else {
        f.update(if nz[0] == 0 { 1 } else { 0 }, 1)
    }
}

fn ensure_two_symbols(freq: &mut [u64; 19])
    ensures
        final(freq)@ == two_symbols(old(freq)@),
{
    let nz = active_symbols(freq, 19);
    proof {
        lemma_active(old(freq)@, 19);
    }
    if nz.len() >= 2 {
        return;
    }
    if nz.len() == 0 {
        freq[0] = 1;
        freq[1] = 1;
        return;
    }
    let a = nz[0];
    let b: usize = if a == 0 {
        1
    } else {
        0
    };
    proof {
        if old(freq)@[b as int] > 0 {
            lemma_active_contains(old(freq)@, 19, b as int);
        }
    }
    freq[b] = freq[b].saturating_add(1);
}

proof fn lemma_active_contains(freq: Seq<u64>, n: int, i: int)
    requires
        0 <= i < n <= freq.len(),
        freq.len() <= usize::MAX,
        freq[i] > 0,
    ensures
        exists|j: int| 0 <= j < active(freq, n).len() && active(freq, n)[j] == i,
    decreases n,
{
    let a = active(freq, n - 1);
    if i == n - 1 {
        assert(active(freq, n)[a.len() as int] == i);
    } else {
        lemma_active_contains(freq, n - 1, i);
        let j = choose|j: int| 0 <= j < a.len() && a[j] == i;
        assert(active(freq, n)[j] == a[j]);
    }
}

/// `m` code-length code lengths are sent: at least 4, and no nonzero one left out.
pub open spec fn hclen_of(cl_lens: Seq<u8>, m: nat) -> bool {
    &&& 4 <= m <= 19
    &&& forall|i: int| m <= i < 19 ==> cl_lens[#[trigger] cl_order()[i] as int] == 0
    &&& m > 4 ==> cl_lens[cl_order()[m - 1] as int] != 0
}

/// Number of code-length code lengths to send, in `CL_ORDER`.
fn hclen_plus4(cl_lens: &[u8; 19]) -> (m: usize)
    ensures
        hclen_of(cl_lens@, m as nat),
{
    proof {
        assert(CL_ORDER@ =~= cl_order());
    }
    let mut last = 3usize;
    let mut i = 0usize;
    while i < 19
        invariant
            i <= 19,
            CL_ORDER@ == cl_order(),
            last < 19,
            forall|k: int| last < k < i && k >= 3 ==> cl_lens@[#[trigger] cl_order()[k] as int] == 0,
            last > 3 ==> cl_lens@[cl_order()[last as int] as int] != 0,
            last >= 3 || cl_lens@[cl_order()[last as int] as int] != 0,
            last <= 3 ==> forall|k: int| 3 < k < i ==> cl_lens@[#[trigger] cl_order()[k] as int] == 0,
            last > 3 ==> last < i,
        decreases 19 - i,
    {
        let sym = CL_ORDER[i];
        if cl_lens[sym] != 0 {
            last = i;
        }
        i = i + 1;
    }
    let r = if last < 3 {
        3
    } else {
        last
    };
    r + 1
}

// ---------------------------------------------------------------------------
// Building the two codes
// ---------------------------------------------------------------------------

/// The end-of-block symbol always gets a code.
pub open spec fn adj_lit(f: Seq<u64>) -> Seq<u64> {
    if f[256] == 0 {
        f.update(256, 1)
    } else {
        f
    }
}

/// A block without matches still sends a distance code with one symbol.
pub open spec fn adj_dist(f: Seq<u64>) -> Seq<u64> {
    if active(f, 30).len() == 0 {
        f.update(0, 1)
    } else {
        f
    }
}

/// `lit` and `dist` are the trimmed code lengths built from the two frequency tables.
#[verifier::opaque]
pub open spec fn built_trees(lit_freq: Seq<u64>, dist_freq: Seq<u64>, lit: Seq<u8>, dist: Seq<u8>) -> bool {
    exists|l: Seq<u8>, d: Seq<u8>|
        #![trigger huffman_lengths_of(adj_lit(lit_freq), 15, 286, l), huffman_lengths_of(adj_dist(dist_freq), 15, 30, d)]
        {
            &&& huffman_lengths_of(adj_lit(lit_freq), 15, 286, l)
            &&& lit == trimmed_lit(l)
            &&& huffman_lengths_of(adj_dist(dist_freq), 15, 30, d)
            &&& dist == trimmed_dist(d)
        }
}

proof fn lemma_trimmed_lit(s: Seq<u8>)
    requires
        s.len() >= 257,
    ensures
        257 <= trimmed_lit(s).len() <= s.len(),
        forall|i: int| 0 <= i < trimmed_lit(s).len() ==> #[trigger] trimmed_lit(s)[i] == s[i],
        forall|i: int| trimmed_lit(s).len() <= i < s.len() ==> #[trigger] s[i] == 0,
    decreases s.len(),
{
    if s.len() > 257 && s.last() == 0 {
        lemma_trimmed_lit(s.drop_last());
        assert forall|i: int| trimmed_lit(s).len() <= i < s.len() implies #[trigger] s[i] == 0 by {
            if i < s.len() - 1 {
                assert(s.drop_last()[i] == s[i]);
            }
        }
    }
}

proof fn lemma_trimmed_dist(s: Seq<u8>)
    requires
        s.len() >= 1,
    ensures
        1 <= trimmed_dist(s).len() <= s.len(),
        forall|i: int| 0 <= i < trimmed_dist(s).len() ==> #[trigger] trimmed_dist(s)[i] == s[i],
        forall|i: int| trimmed_dist(s).len() <= i < s.len() ==> #[trigger] s[i] == 0,
    decreases s.len(),
{
    if s.len() > 1 && s.last() == 0 {
        lemma_trimmed_dist(s.drop_last());
        assert forall|i: int| trimmed_dist(s).len() <= i < s.len() implies #[trigger] s[i] == 0 by {
            if i < s.len() - 1 {
                assert(s.drop_last()[i] == s[i]);
            }
        }
    }
}

/// Code lengths from `huffman_lengths` never exceed `max_bits`.
proof fn lemma_lengths_bounded(freq: Seq<u64>, max_bits: nat, n: int, out: Seq<u8>)
    requires
        huffman_lengths_of(freq, max_bits, n, out),
        max_bits >= 1,
        0 <= n <= freq.len() <= usize::MAX,
    ensures
        forall|i: int| 0 <= i < n ==> #[trigger] out[i] <= max_bits,
{
    let act = active(freq, n);
    lemma_active(freq, n);
    assert forall|i: int| 0 <= i < n implies #[trigger] out[i] <= max_bits by {
        if freq[i] > 0 {
            lemma_active_contains(freq, n, i);
            let j = choose|j: int| 0 <= j < act.len() && act[j] == i;
            if act.len() >= 2 {
                assert(lens_of(out, act)[j] == out[i]);
            } else {
                assert(j == 0);
            }
        }
    }
}

/// Canonical code tables for code lengths of at most 15 bits.
fn code_tables_for(lengths: &[u8]) -> (codes: Vec<(u32, u8)>)
    requires
        lengths.len() <= 286,
        forall|i: int| 0 <= i < lengths.len() ==> #[trigger] lengths[i] <= 15,
    ensures
        code_table(lengths@, codes@),
{
    proof {
        lemma2_to64();
        assert(lengths.len() * pow2(15) <= 286 * 32768) by (nonlinear_arith)
            requires
                lengths.len() <= 286,
                pow2(15) == 32768,
        ;
        lemma_codes_fit_small(lengths@, 15);
        assert forall|b: int| 1 <= b <= 15 implies count_len(lengths@, b) <= u16::MAX by {
            lemma_count_len_bound(lengths@, b);
        }
    }
    canonical_codes(lengths, 15)
}

/// Build the literal/length and distance codes (at most 15 bits) for the given frequencies.
pub fn build_dynamic_trees(lit_freq: &[u64; 286], dist_freq: &[u64; 30]) -> (r: Result<
    DynamicTrees,
    PmError,
>)
    requires
        pm_weights_fit(adj_lit(lit_freq@), 15),
        pm_weights_fit(adj_dist(dist_freq@), 15),
    ensures
        r matches Ok(t) && t.wf() && built_trees(lit_freq@, dist_freq@, t.lit_len@, t.dist@),
{
    let mut lit_freq = *lit_freq;
    let mut dist_freq = *dist_freq;
    let ghost lf0 = lit_freq@;
    let ghost df0 = dist_freq@;
    proof {
        lemma2_to64();
    }
    if lit_freq[256] == 0 {
        lit_freq[256] = 1;
    }
    let nz = active_symbols(&dist_freq, 30);
    if nz.len() == 0 {
        dist_freq[0] = 1;
    }
    proof {
        assert(lit_freq@ == adj_lit(lf0));
        assert(dist_freq@ == adj_dist(df0));
        assert(lit_freq@[256] > 0);
        lemma_active_contains(lit_freq@, 286, 256);
        if active(dist_freq@, 30).len() == 0 {
            lemma_active(dist_freq@, 30);
            if nz.len() == 0 {
                assert(dist_freq@[0] == 1);
            } else {
                assert(dist_freq@ == df0);
                lemma_active(df0, 30);
                assert(df0[nz@[0] as int] > 0);
            }
        }
    }
    let lit_len = match huffman_lengths(&lit_freq, 15, 286) {
        Ok(v) => v,
        Err(e) => {
            return Err(e);
        },
    };
    let dist_len = match huffman_lengths(&dist_freq, 15, 30) {
        Ok(v) => v,
        Err(e) => {
            return Err(e);
        },
    };
    let ghost l = lit_len@;
    let ghost d = dist_len@;
    proof {
        lemma_lengths_bounded(lit_freq@, 15, 286, l);
        lemma_lengths_bounded(dist_freq@, 15, 30, d);
        lemma_trimmed_lit(l);
        lemma_trimmed_dist(d);
    }
    let lit_trim = trim_lit(lit_len);
    let dist_trim = trim_dist(dist_len);
    let lit_codes = code_tables_for(&lit_trim);
    let dist_codes = code_tables_for(&dist_trim);
    let t = DynamicTrees { lit_len: lit_trim, dist: dist_trim, lit_codes, dist_codes };
    proof {
        assert(huffman_lengths_of(adj_lit(lf0), 15, 286, l));
        assert(huffman_lengths_of(adj_dist(df0), 15, 30, d));
        reveal(built_trees);
    }
    Ok(t)
}

// ---------------------------------------------------------------------------
// Writing a block
// ---------------------------------------------------------------------------

/// The first `m` code-length code lengths, three bits each, in `CL_ORDER`.
pub open spec fn cl_lens_bits(cl_lens: Seq<u8>, m: nat) -> Seq<bool>
    decreases m,
{
    if m == 0 {
        Seq::empty()
    } else {
        cl_lens_bits(cl_lens, (m - 1) as nat) + low_bits(cl_lens[cl_order()[m - 1] as int] as u64, 3)
    }
}

/// The code-length tokens: each symbol's code, then its extra bits.
pub open spec fn cl_tokens_bits(cl_lens: Seq<u8>, toks: Seq<ClToken>) -> Seq<bool>
    decreases toks.len(),
{
    if toks.len() == 0 {
        Seq::empty()
    } else {
        cl_tokens_bits(cl_lens, toks.drop_last()) + huff_bits(cl_lens, toks.last().0 as int) + low_bits(
            toks.last().1 as u64,
            toks.last().2 as nat,
        )
    }
}

/// The frequencies of the code-length symbols.
pub open spec fn cl_freq_of(toks: Seq<ClToken>) -> Seq<u64> {
    Seq::new(19, |s: int| cl_count(toks, s) as u64)
}

/// `blk` is a dynamic block for `tokens` under the codes `lit` and `dist`: the header, the
/// code-length code's lengths, the lengths of both codes run-length coded by `cl_rle` (which
/// decode to exactly `lit` followed by `dist`), the tokens, and the end-of-block code.
#[verifier::opaque]
pub open spec fn is_dynamic_block(blk: Seq<bool>, bfinal: bool, lit: Seq<u8>, dist: Seq<u8>, tokens: Seq<Lz77Token>) -> bool {
    exists|cl_toks: Seq<ClToken>, cl_lens: Seq<u8>, m: nat|
        #![trigger cl_decode(cl_toks), hclen_of(cl_lens, m)]
        {
            &&& cl_tokens_ok(cl_toks)
            &&& cl_decode(cl_toks) == lit + dist
            &&& cl_toks == cl_rle(lit + dist)
            &&& huffman_lengths_of(two_symbols(cl_freq_of(cl_toks)), 7, 19, cl_lens)
            &&& hclen_of(cl_lens, m)
            &&& forall|i: int| 0 <= i < cl_toks.len() ==> cl_lens[(#[trigger] cl_toks[i]).0 as int] >= 1
            &&& blk == block_header_bits(bfinal, 2) + low_bits((lit.len() - 257) as u64, 5) + low_bits(
                (dist.len() - 1) as u64,
                5,
            ) + low_bits((m - 4) as u64, 4) + cl_lens_bits(cl_lens, m) + cl_tokens_bits(cl_lens, cl_toks)
                + tokens_bits(lit, dist, tokens) + huff_bits(lit, 256)
        }
}

/// The code-length code for a sequence of code lengths: its tokens, its code lengths (at most 7
/// bits), and its code table.
fn build_cl_code(lengths: &[u8]) -> (r: (Vec<ClToken>, Vec<u8>, Vec<(u32, u8)>))
    requires
        forall|k: int| 0 <= k < lengths.len() ==> #[trigger] lengths[k] <= 15,
        lengths.len() <= 316,
    ensures
        cl_tokens_ok(r.0@),
        cl_decode(r.0@) == lengths@,
        r.0@ == cl_rle(lengths@),
        huffman_lengths_of(two_symbols(cl_freq_of(r.0@)), 7, 19, r.1@),
        forall|i: int| 0 <= i < r.0.len() ==> r.1@[(#[trigger] r.0@[i]).0 as int] >= 1,
        forall|t: int| 0 <= t < 19 ==> #[trigger] r.1@[t] <= 7,
        code_table(r.1@, r.2@),
{
    let cl_tokens = cl_rle_tokens(lengths);
    proof {
        assert forall|k: int| 0 <= k < cl_tokens.len() implies (#[trigger] cl_tokens[k]).0 <= 18 by {
            assert(cl_token_ok(cl_tokens@[k]));
        }
    }
    let mut cl_freq = count_cl_freq(&cl_tokens);
    proof {
        assert(cl_freq@ =~= cl_freq_of(cl_tokens@));
    }
    ensure_two_symbols(&mut cl_freq);
    let ghost cf = cl_freq@;
    proof {
        lemma2_to64();
        assert forall|s: int| 0 <= s < 19 implies cf[s] <= 317 by {
            lemma_cl_count_bound(cl_tokens@, s);
        }
        assert(pm_weights_fit(cf, 7)) by {
            assert forall|s: int| 0 <= s < cf.len() implies cf[s] * pow2((7 - 1) as nat) <= u64::MAX by {
                assert(cf[s] <= 317);
                let x = cf[s] as int;
                assert(x * 64 <= 317 * 64) by (nonlinear_arith)
                    requires
                        x <= 317,
                ;
            }
        }
        lemma_active(cf, 19);
        let old_nz = active(cl_freq_of(cl_tokens@), 19);
        lemma_active(cl_freq_of(cl_tokens@), 19);
        if old_nz.len() >= 2 {
        } else if old_nz.len() == 0 {
            lemma_active_contains(cf, 19, 0);
        } else {
            lemma_active_contains(cf, 19, old_nz[0] as int);
        }
    }
    let cl_lens = match huffman_lengths(&cl_freq, 7, 19) {
        Ok(v) => v,
        Err(_) => {
            proof {
                assert(false);
            }
            Vec::new()
        },
    };
    let ghost cll = cl_lens@;
    proof {
        lemma_lengths_bounded(cf, 7, 19, cll);
        assert forall|i: int| 0 <= i < cl_tokens@.len() implies cll[(#[trigger] cl_tokens@[i]).0 as int] >= 1 by {
            let sy = cl_tokens@[i].0 as int;
            assert(cl_token_ok(cl_tokens@[i]));
            lemma_cl_count_positive(cl_tokens@, i);
            assert(cl_freq_of(cl_tokens@)[sy] > 0);
            assert(cf[sy] > 0);
            lemma_lengths_positive(cf, 7, 19, cll, sy);
        }
    }
    let cl_codes = code_tables_for(&cl_lens);
    (cl_tokens, cl_lens, cl_codes)
}

/// Send the first `m` code-length code lengths in `CL_ORDER`, three bits each.
fn put_cl_lens(w: &mut BitWriter, cl_lens: &[u8; 19], m: usize)
    requires
        old(w).wf(),
        m <= 19,
        forall|t: int| 0 <= t < 19 ==> #[trigger] cl_lens@[t] <= 7,
    ensures
        final(w).wf(),
        final(w).bits() == old(w).bits() + cl_lens_bits(cl_lens@, m as nat),
{
    let ghost b0 = w.bits();
    proof {
        assert(CL_ORDER@ =~= cl_order());
        assert(w.bits() =~= b0 + cl_lens_bits(cl_lens@, 0));
    }
    let mut q = 0usize;
    while q < m
        invariant
            q <= m <= 19,
            w.wf(),
            CL_ORDER@ == cl_order(),
            forall|t: int| 0 <= t < 19 ==> #[trigger] cl_lens@[t] <= 7,
            w.bits() == b0 + cl_lens_bits(cl_lens@, q as nat),
        decreases m - q,
    {
        let sym = CL_ORDER[q];
        proof {
            assert(sym < 19) by {
                assert(cl_order()[q as int] < 19);
            }
        }
        w.put_bits(cl_lens[sym] as u32, 3);
        q = q + 1;
        proof {
            assert(w.bits() =~= b0 + cl_lens_bits(cl_lens@, q as nat));
        }
    }
}

/// Send the code-length tokens: each symbol's code and its extra bits.
#[verifier::spinoff_prover]
#[verifier::rlimit(30)]
fn put_cl_tokens(w: &mut BitWriter, cl_tokens: &[ClToken], cl_codes: &[(u32, u8)], Ghost(cll): Ghost<Seq<u8>>)
    requires
        old(w).wf(),
        code_table(cll, cl_codes@),
        cll.len() == 19,
        cl_tokens_ok(cl_tokens@),
    ensures
        final(w).wf(),
        final(w).bits() == old(w).bits() + cl_tokens_bits(cll, cl_tokens@),
{
    let ghost b_toks = w.bits();
    let mut t = 0usize;
    proof {
        assert(cl_tokens@.take(0) =~= Seq::<ClToken>::empty());
        assert(w.bits() =~= b_toks + cl_tokens_bits(cll, cl_tokens@.take(0)));
    }
    while t < cl_tokens.len()
        invariant
            t <= cl_tokens.len(),
            w.wf(),
            code_table(cll, cl_codes@),
            cll.len() == 19,
            cl_tokens_ok(cl_tokens@),
            w.bits() == b_toks + cl_tokens_bits(cll, cl_tokens@.take(t as int)),
        decreases cl_tokens.len() - t,
    {
        let (sym, extra, xbits) = cl_tokens[t];
        proof {
            assert(cl_token_ok(cl_tokens@[t as int]));
        }
        put_code(w, cl_codes, sym as usize, Ghost(cll));
        let ghost bc = w.bits();
        if xbits > 0 {
            w.put_bits(extra, xbits);
        } else {
            proof {
                crate::bit_writer::lemma_low_bits_zero(extra as u64);
                assert(w.bits() =~= bc + low_bits(extra as u64, xbits as nat));
            }
        }
        proof {
            assert(cl_tokens@.take(t + 1).drop_last() =~= cl_tokens@.take(t as int));
            assert(w.bits() =~= b_toks + cl_tokens_bits(cll, cl_tokens@.take(t + 1)));
        }
        t = t + 1;
    }
    proof {
        assert(cl_tokens@.take(cl_tokens.len() as int) =~= cl_tokens@);
    }
}

/// Append one block coded with the given dynamic codes.
#[verifier::rlimit(40)]
pub fn encode_dynamic_block(
    w: &mut BitWriter,
    tokens: &[Lz77Token],
    trees: &DynamicTrees,
    bfinal: bool,
) -> (r: Result<(), PmError>)
    requires
        old(w).wf(),
        trees.wf(),
        tokens_fit(trees.lit_len.len() as int, trees.dist.len() as int, tokens@),
    ensures
        r is Ok,
        final(w).wf(),
        exists|blk: Seq<bool>|
            final(w).bits() == old(w).bits() + blk && is_dynamic_block(
                blk,
                bfinal,
                trees.lit_len@,
                trees.dist@,
                tokens@,
            ),
{
    let ghost b0 = w.bits();
    let hdr: u32 = if bfinal {
        5
    } else {
        4
    };
    w.put_bits(hdr, 3);
    let hlit = (trees.lit_len.len() - 257) as u32;
    let hdist = (trees.dist.len() - 1) as u32;
    let mut concat: Vec<u8> = Vec::with_capacity(trees.lit_len.len() + trees.dist.len());
    let mut i = 0usize;
    while i < trees.lit_len.len()
        invariant
            i <= trees.lit_len.len(),
            concat@ == trees.lit_len@.take(i as int),
        decreases trees.lit_len.len() - i,
    {
        concat.push(trees.lit_len[i]);
        i = i + 1;
        proof {
            assert(concat@ =~= trees.lit_len@.take(i as int));
        }
    }
    let mut j = 0usize;
    while j < trees.dist.len()
        invariant
            j <= trees.dist.len(),
            concat@ == trees.lit_len@ + trees.dist@.take(j as int),
        decreases trees.dist.len() - j,
    {
        concat.push(trees.dist[j]);
        j = j + 1;
        proof {
            assert(concat@ =~= trees.lit_len@ + trees.dist@.take(j as int));
        }
    }
    proof {
        assert(trees.lit_len@.take(trees.lit_len.len() as int) =~= trees.lit_len@);
        assert(trees.dist@.take(trees.dist.len() as int) =~= trees.dist@);
        assert forall|k: int| 0 <= k < concat.len() implies #[trigger] concat@[k] <= 15 by {
            if k < trees.lit_len.len() {
                assert(concat@[k] == trees.lit_len@[k]);
            } else {
                assert(concat@[k] == trees.dist@[k - trees.lit_len.len()]);
            }
        }
    }
    let (cl_tokens, cl_lens_v, cl_codes) = build_cl_code(&concat);
    let ghost cll = cl_lens_v@;
    let mut cl_lens = [0u8; 19];
    let mut k = 0usize;
    while k < 19
        invariant
            k <= 19,
            cl_lens_v@ == cll,
            cll.len() == 19,
            forall|q: int| 0 <= q < k ==> #[trigger] cl_lens@[q] == cll[q],
        decreases 19 - k,
    {
        cl_lens[k] = cl_lens_v[k];
        k = k + 1;
    }
    proof {
        assert(cl_lens@ =~= cll);
    }
    let m = hclen_plus4(&cl_lens);
    w.put_bits(hlit, 5);
    w.put_bits(hdist, 5);
    w.put_bits((m - 4) as u32, 4);
    put_cl_lens(w, &cl_lens, m);
    put_cl_tokens(w, &cl_tokens, &cl_codes, Ghost(cll));
    put_tokens(w, tokens, &trees.lit_codes, &trees.dist_codes, Ghost(trees.lit_len@), Ghost(trees.dist@));
    put_code(w, &trees.lit_codes, 256, Ghost(trees.lit_len@));
    proof {
        let blk = block_header_bits(bfinal, 2) + low_bits(hlit as u64, 5) + low_bits(hdist as u64, 5)
            + low_bits((m - 4) as u64, 4) + cl_lens_bits(cll, m as nat) + cl_tokens_bits(cll, cl_tokens@)
            + tokens_bits(trees.lit_len@, trees.dist@, tokens@) + huff_bits(trees.lit_len@, 256);
        assert(w.bits() =~= b0 + blk);
        assert(hclen_of(cll, m as nat));
        reveal(is_dynamic_block);
        assert(is_dynamic_block(blk, bfinal, trees.lit_len@, trees.dist@, tokens@));
    }
    Ok(())
}

/// A symbol that occurs gets a code of at least one bit.
proof fn lemma_lengths_positive(freq: Seq<u64>, max_bits: nat, n: int, out: Seq<u8>, i: int)
    requires
        huffman_lengths_of(freq, max_bits, n, out),
        n <= pow2(max_bits),
        0 <= i < n <= freq.len() <= usize::MAX,
        freq[i] > 0,
    ensures
        out[i] >= 1,
{
    let act = active(freq, n);
    lemma_active(freq, n);
    lemma_active_contains(freq, n, i);
    let j = choose|j: int| 0 <= j < act.len() && act[j] == i;
    if act.len() >= 2 {
        lemma_limited_positive(freqs_of(freq, act), max_bits, lens_of(out, act), j);
        assert(lens_of(out, act)[j] == out[i]);
    }
}

proof fn lemma_count_positive(toks: Seq<Lz77Token>, i: int)
    requires
        0 <= i < toks.len(),
    ensures
        lit_sym_count(toks, lit_sym(toks[i])) >= 1,
        toks[i] matches Lz77Token::Match { distance, .. } ==> dist_sym_count(
            toks,
            dist_index(distance as int),
        ) >= 1,
    decreases toks.len(),
{
    if i < toks.len() - 1 {
        lemma_count_positive(toks.drop_last(), i);
        assert(toks.drop_last()[i] == toks[i]);
    }
}

/// The frequencies of one block's literal/length symbols, the end-of-block symbol included.
pub open spec fn block_lit_freqs(toks: Seq<Lz77Token>) -> Seq<u64> {
    Seq::new(286, |s: int| block_lit_freq(toks, s) as u64)
}

/// The frequencies of one block's distance symbols.
pub open spec fn block_dist_freqs(toks: Seq<Lz77Token>) -> Seq<u64> {
    Seq::new(30, |s: int| dist_sym_count(toks, s) as u64)
}

/// Codes built from frequencies that count every symbol of `tokens` cover all of them.
pub proof fn lemma_built_trees_fit(
    lit_freq: Seq<u64>,
    dist_freq: Seq<u64>,
    lit: Seq<u8>,
    dist: Seq<u8>,
    tokens: Seq<Lz77Token>,
)
    requires
        lit_freq.len() == 286,
        dist_freq.len() == 30,
        built_trees(lit_freq, dist_freq, lit, dist),
        forall|i: int| 0 <= i < tokens.len() ==> token_wf(#[trigger] tokens[i]),
        forall|s: int| 0 <= s < 286 && lit_sym_count(tokens, s) > 0 ==> lit_freq[s] > 0,
        forall|s: int| 0 <= s < 30 && dist_sym_count(tokens, s) > 0 ==> dist_freq[s] > 0,
    ensures
        tokens_fit(lit.len() as int, dist.len() as int, tokens),
{
    reveal(built_trees);
    let (l, d) = choose|l: Seq<u8>, d: Seq<u8>|
        #![trigger huffman_lengths_of(adj_lit(lit_freq), 15, 286, l), huffman_lengths_of(adj_dist(dist_freq), 15, 30, d)]
        {
            &&& huffman_lengths_of(adj_lit(lit_freq), 15, 286, l)
            &&& lit == trimmed_lit(l)
            &&& huffman_lengths_of(adj_dist(dist_freq), 15, 30, d)
            &&& dist == trimmed_dist(d)
        };
    lemma2_to64();
    lemma_trimmed_lit(l);
    lemma_trimmed_dist(d);
    assert forall|i: int| 0 <= i < tokens.len() implies crate::encoding::token_fits(
        lit.len() as int,
        dist.len() as int,
        #[trigger] tokens[i],
    ) by {
        assert(token_wf(tokens[i]));
        lemma_count_positive(tokens, i);
        match tokens[i] {
            Lz77Token::Literal(_) => {},
            Lz77Token::Match { length, distance } => {
                lemma_length_index_range(length as int);
                lemma_dist_index_range(distance as int);
                let s = 257 + length_index(length as int);
                assert(lit_freq[s] > 0);
                assert(adj_lit(lit_freq)[s] > 0);
                lemma_lengths_positive(adj_lit(lit_freq), 15, 286, l, s);
                let ds = dist_index(distance as int);
                assert(dist_freq[ds] > 0);
                lemma_active_contains(dist_freq, 30, ds);
                assert(adj_dist(dist_freq)[ds] > 0);
                lemma_lengths_positive(adj_dist(dist_freq), 15, 30, d, ds);
            },
        }
    }
}

/// `blk` is a dynamic block for `tokens` whose codes are built from the tokens' own symbol
/// frequencies.
#[verifier::opaque]
pub open spec fn is_fresh_block(blk: Seq<bool>, bfinal: bool, tokens: Seq<Lz77Token>) -> bool {
    exists|lit: Seq<u8>, dist: Seq<u8>|
        #![trigger built_trees(block_lit_freqs(tokens), block_dist_freqs(tokens), lit, dist)]
        built_trees(block_lit_freqs(tokens), block_dist_freqs(tokens), lit, dist)
            && is_dynamic_block(blk, bfinal, lit, dist, tokens)
}

/// Append one block coded with dynamic codes built from its own symbol frequencies.
pub fn encode_dynamic_block_fresh(w: &mut BitWriter, tokens: &[Lz77Token], bfinal: bool) -> (r: Result<
    (),
    PmError,
>)
    requires
        old(w).wf(),
        forall|i: int| 0 <= i < tokens.len() ==> token_wf(#[trigger] tokens[i]),
        tokens.len() < pow2(49),
    ensures
        r is Ok,
        final(w).wf(),
        exists|blk: Seq<bool>| final(w).bits() == old(w).bits() + blk && is_fresh_block(blk, bfinal, tokens@),
{
    let (lf, df) = count_block_freq(tokens);
    proof {
        lemma2_to64();
        lemma_vstd_pow2_49();
        assert(lf@ =~= block_lit_freqs(tokens@)) by {
            assert forall|s: int| 0 <= s < 286 implies block_lit_freq(tokens@, s) <= tokens.len() + 1 by {
                lemma_counts_bound(tokens@, s);
            }
        }
        assert(df@ =~= block_dist_freqs(tokens@)) by {
            assert forall|s: int| 0 <= s < 30 implies dist_sym_count(tokens@, s) <= tokens.len() by {
                lemma_counts_bound(tokens@, s);
            }
        }
        assert forall|s: int| 0 <= s < 286 implies #[trigger] lf@[s] <= pow2(49) by {
            lemma_counts_bound(tokens@, s);
        }
        assert forall|s: int| 0 <= s < 30 implies #[trigger] df@[s] <= pow2(49) by {
            lemma_counts_bound(tokens@, s);
        }
        lemma_adjusted_fit(lf@, df@);
    }
    let trees = match build_dynamic_trees(&lf, &df) {
        Ok(t) => t,
        Err(e) => {
            return Err(e);
        },
    };
    proof {
        lemma_built_trees_fit(lf@, df@, trees.lit_len@, trees.dist@, tokens@);
    }
    let r = encode_dynamic_block(w, tokens, &trees, bfinal);
    proof {
        let blk = choose|blk: Seq<bool>|
            final(w).bits() == old(w).bits() + blk && is_dynamic_block(
                blk,
                bfinal,
                trees.lit_len@,
                trees.dist@,
                tokens@,
            );
        reveal(is_fresh_block);
        assert(is_fresh_block(blk, bfinal, tokens@));
    }
    r
}

proof fn lemma_vstd_pow2_49()
    ensures
        pow2(49) == 0x2_0000_0000_0000,
        pow2(14) == 16384,
        pow2(49) * pow2(14) <= u64::MAX,
{
    lemma2_to64();
    vstd::arithmetic::power2::lemma2_to64_rest();
}

proof fn lemma_cl_count_positive(toks: Seq<ClToken>, i: int)
    requires
        0 <= i < toks.len(),
    ensures
        cl_count(toks, toks[i].0 as int) >= 1,
    decreases toks.len(),
{
    if i < toks.len() - 1 {
        lemma_cl_count_positive(toks.drop_last(), i);
        assert(toks.drop_last()[i] == toks[i]);
    }
}

// ---------------------------------------------------------------------------
// Code space
// ---------------------------------------------------------------------------

/// The code space the nonzero lengths among the first `n` use, in units of `2^-m`:
/// `Σ 2^(m - len)` over the symbols that have a code.
pub open spec fn used_code_space(lens: Seq<u8>, m: nat, n: int) -> nat
    decreases n,
{
    if n <= 0 {
        0
    } else {
        used_code_space(lens, m, n - 1) + if lens[n - 1] > 0 {
            pow2((m - lens[n - 1]) as nat)
        } else {
            0
        }
    }
}

/// A symbol that occurs is listed among the active ones.
proof fn lemma_active_has(freq: Seq<u64>, n: int, i: int)
    requires
        0 <= i < n <= freq.len(),
        freq.len() <= usize::MAX,
        freq[i] > 0,
    ensures
        exists|j: int| 0 <= j < active(freq, n).len() && active(freq, n)[j] == i,
    decreases n,
{
    lemma_active(freq, n);
    let a = active(freq, n - 1);
    lemma_active(freq, n - 1);
    if i == n - 1 {
        assert(active(freq, n) =~= a.push((n - 1) as usize));
        assert(active(freq, n)[a.len() as int] == i);
    } else {
        lemma_active_has(freq, n - 1, i);
        let j = choose|j: int| 0 <= j < a.len() && a[j] == i;
        if freq[n - 1] > 0 {
            assert(active(freq, n) =~= a.push((n - 1) as usize));
        } else {
            assert(active(freq, n) =~= a);
        }
        assert(active(freq, n)[j] == i);
    }
}

/// When exactly the occurring symbols have codes, the code space sums over the active list.
proof fn lemma_used_space_active(freq: Seq<u64>, lens: Seq<u8>, m: nat, n: int)
    requires
        0 <= n <= freq.len(),
        n <= lens.len(),
        freq.len() <= usize::MAX,
        forall|i: int| 0 <= i < n ==> (lens[i] > 0 <==> freq[i] > 0),
    ensures
        used_code_space(lens, m, n) == sum_nat(
            Seq::new(active(freq, n).len(), |j: int| pow2((m - lens[active(freq, n)[j] as int]) as nat)),
        ),
    decreases n,
{
    if n > 0 {
        lemma_used_space_active(freq, lens, m, n - 1);
        lemma_active(freq, n - 1);
        let a = active(freq, n - 1);
        let b = active(freq, n);
        if freq[n - 1] > 0 {
            assert(b =~= a.push((n - 1) as usize));
            assert(Seq::new(b.len(), |j: int| pow2((m - lens[b[j] as int]) as nat)).drop_last() =~= Seq::new(
                a.len(),
                |j: int| pow2((m - lens[a[j] as int]) as nat),
            ));
        } else {
            assert(b =~= a);
        }
    }
}

/// Code lengths built for the first `n` symbols use no more code space than there is (for up to
/// `2^m` occurring symbols): canonical codes of these lengths form a prefix code.
pub proof fn lemma_huffman_kraft(freq: Seq<u64>, m: nat, n: int, out: Seq<u8>)
    requires
        huffman_lengths_of(freq, m, n, out),
        0 <= n <= freq.len(),
        freq.len() <= usize::MAX,
        m >= 1,
        active(freq, n).len() <= pow2(m),
    ensures
        used_code_space(out, m, n) <= pow2(m),
{
    lemma_active(freq, n);
    let act = active(freq, n);
    let k = act.len() as int;
    vstd::arithmetic::power2::lemma_pow2_pos(m);
    assert forall|i: int| 0 <= i < n implies (out[i] > 0 <==> freq[i] > 0) by {
        if freq[i] > 0 {
            lemma_active_has(freq, n, i);
            let j = choose|j: int| 0 <= j < act.len() && act[j] == i;
            if k >= 2 {
                lemma_limited_positive(freqs_of(freq, act), m, lens_of(out, act), j);
                assert(lens_of(out, act)[j] == out[i]);
            } else {
                assert(j == 0);
            }
        }
    }
    lemma_used_space_active(freq, out, m, n);
    let g = Seq::new(act.len(), |j: int| pow2((m - out[act[j] as int]) as nat));
    assert(used_code_space(out, m, n) == sum_nat(g));
    if k == 0 {
        assert(g =~= Seq::<nat>::empty());
        assert(sum_nat(g) == 0);
    } else if k == 1 {
        assert(g.drop_last() =~= Seq::<nat>::empty());
        assert(out[act[0] as int] == 1);
        assert(g.last() == pow2((m - 1) as nat));
        assert(sum_nat(g.drop_last()) == 0);
        vstd::arithmetic::power2::lemma_pow2_strictly_increases((m - 1) as nat, m);
        assert(sum_nat(g) == pow2((m - 1) as nat));
    } else {
        let fr = freqs_of(freq, act);
        let ls = lens_of(out, act);
        lemma_limited_kraft(fr, m, ls);
        assert(Seq::new(widen(ls).len(), |i: int| pow2((m - widen(ls)[i]) as nat)) =~= g);
        assert(kraft_sum(widen(ls), m) == sum_nat(g));
    }
}

/// Code lengths that only lose trailing zeros keep their code space.
proof fn lemma_used_space_trim(s: Seq<u8>, t: Seq<u8>, m: nat, k: int)
    requires
        t.len() <= k <= s.len(),
        forall|i: int| 0 <= i < t.len() ==> #[trigger] t[i] == s[i],
        forall|i: int| t.len() <= i < s.len() ==> #[trigger] s[i] == 0,
    ensures
        used_code_space(s, m, k) == used_code_space(t, m, t.len() as int),
    decreases k,
{
    if k > t.len() {
        lemma_used_space_trim(s, t, m, k - 1);
        assert(s[k - 1] == 0);
    } else {
        lemma_used_space_prefix(s, t, m, k);
    }
}

proof fn lemma_used_space_prefix(s: Seq<u8>, t: Seq<u8>, m: nat, k: int)
    requires
        0 <= k <= t.len(),
        k <= s.len(),
        forall|i: int| 0 <= i < t.len() ==> #[trigger] t[i] == s[i],
    ensures
        used_code_space(s, m, k) == used_code_space(t, m, k),
    decreases k,
{
    if k > 0 {
        lemma_used_space_prefix(s, t, m, k - 1);
        assert(t[k - 1] == s[k - 1]);
    }
}

/// The code lengths of a dynamic block's trees use no more code space than 15-bit codes have:
/// canonical codes of these lengths form prefix codes.
pub proof fn lemma_built_trees_kraft(lit_freq: Seq<u64>, dist_freq: Seq<u64>, lit: Seq<u8>, dist: Seq<u8>)
    requires
        lit_freq.len() == 286,
        dist_freq.len() == 30,
        built_trees(lit_freq, dist_freq, lit, dist),
    ensures
        used_code_space(lit, 15, lit.len() as int) <= pow2(15),
        used_code_space(dist, 15, dist.len() as int) <= pow2(15),
{
    reveal(built_trees);
    let (l, d) = choose|l: Seq<u8>, d: Seq<u8>|
        #![trigger huffman_lengths_of(adj_lit(lit_freq), 15, 286, l), huffman_lengths_of(adj_dist(dist_freq), 15, 30, d)]
        {
            &&& huffman_lengths_of(adj_lit(lit_freq), 15, 286, l)
            &&& lit == trimmed_lit(l)
            &&& huffman_lengths_of(adj_dist(dist_freq), 15, 30, d)
            &&& dist == trimmed_dist(d)
        };
    lemma2_to64();
    lemma_active(adj_lit(lit_freq), 286);
    lemma_active(adj_dist(dist_freq), 30);
    lemma_huffman_kraft(adj_lit(lit_freq), 15, 286, l);
    lemma_huffman_kraft(adj_dist(dist_freq), 15, 30, d);
    lemma_trimmed_lit(l);
    lemma_trimmed_dist(d);
    lemma_used_space_trim(l, lit, 15, 286);
    lemma_used_space_trim(d, dist, 15, 30);
}

/// The code-length code's lengths are at most 7 bits and fill no more than their code space.
pub proof fn lemma_cl_code_within(toks: Seq<ClToken>, cl_lens: Seq<u8>)
    requires
        huffman_lengths_of(two_symbols(cl_freq_of(toks)), 7, 19, cl_lens),
    ensures
        cl_lens.len() == 19,
        forall|i: int| 0 <= i < 19 ==> #[trigger] cl_lens[i] <= 7,
        codes_within(cl_lens),
{
    let f = two_symbols(cl_freq_of(toks));
    assert(f.len() == 19);
    lemma_active(f, 19);
    lemma2_to64();
    lemma_lengths_bounded(f, 7, 19, cl_lens);
    lemma_huffman_kraft(f, 7, 19, cl_lens);
    lemma_codes_within(cl_lens, 7);
}

/// Codes built from frequencies that count every symbol of `tokens` read those tokens back:
/// they stay within their code space, hold the end-of-block code, and give every symbol the
/// tokens use a code.
pub proof fn lemma_built_trees_codes(
    lit_freq: Seq<u64>,
    dist_freq: Seq<u64>,
    lit: Seq<u8>,
    dist: Seq<u8>,
    tokens: Seq<Lz77Token>,
)
    requires
        lit_freq.len() == 286,
        dist_freq.len() == 30,
        built_trees(lit_freq, dist_freq, lit, dist),
        forall|i: int| 0 <= i < tokens.len() ==> token_wf(#[trigger] tokens[i]),
        forall|s: int| 0 <= s < 286 && lit_sym_count(tokens, s) > 0 ==> lit_freq[s] > 0,
        forall|s: int| 0 <= s < 30 && dist_sym_count(tokens, s) > 0 ==> dist_freq[s] > 0,
    ensures
        block_codes_ok(lit, dist, tokens),
        257 <= lit.len() <= 286,
        1 <= dist.len() <= 30,
{
    lemma_built_trees_kraft(lit_freq, dist_freq, lit, dist);
    reveal(built_trees);
    let (l, d) = choose|l: Seq<u8>, d: Seq<u8>|
        #![trigger huffman_lengths_of(adj_lit(lit_freq), 15, 286, l), huffman_lengths_of(adj_dist(dist_freq), 15, 30, d)]
        {
            &&& huffman_lengths_of(adj_lit(lit_freq), 15, 286, l)
            &&& lit == trimmed_lit(l)
            &&& huffman_lengths_of(adj_dist(dist_freq), 15, 30, d)
            &&& dist == trimmed_dist(d)
        };
    lemma2_to64();
    lemma_trimmed_lit(l);
    lemma_trimmed_dist(d);
    lemma_lengths_bounded(adj_lit(lit_freq), 15, 286, l);
    lemma_lengths_bounded(adj_dist(dist_freq), 15, 30, d);
    lemma_codes_within(lit, 15);
    lemma_codes_within(dist, 15);
    lemma_lengths_positive(adj_lit(lit_freq), 15, 286, l, 256);
    assert forall|i: int| 0 <= i < tokens.len() implies crate::inflate::token_codes_ok(lit, dist, #[trigger] tokens[i]) by {
        lemma_count_positive(tokens, i);
        match tokens[i] {
            Lz77Token::Literal(b) => {
                assert(lit_freq[b as int] > 0);
                assert(adj_lit(lit_freq)[b as int] > 0);
                lemma_lengths_positive(adj_lit(lit_freq), 15, 286, l, b as int);
            },
            Lz77Token::Match { length, distance } => {
                lemma_length_index_range(length as int);
                lemma_dist_index_range(distance as int);
                let s = 257 + length_index(length as int);
                assert(lit_freq[s] > 0);
                assert(adj_lit(lit_freq)[s] > 0);
                lemma_lengths_positive(adj_lit(lit_freq), 15, 286, l, s);
                let ds = dist_index(distance as int);
                assert(dist_freq[ds] > 0);
                lemma_active_contains(dist_freq, 30, ds);
                assert(adj_dist(dist_freq)[ds] > 0);
                lemma_lengths_positive(adj_dist(dist_freq), 15, 30, d, ds);
            },
        }
    }
}

/// `huffman_lengths_of` names one set of code lengths only.
proof fn lemma_huffman_lengths_unique(freq: Seq<u64>, max_bits: nat, n: int, a: Seq<u8>, b: Seq<u8>)
    requires
        0 <= n <= freq.len(),
        freq.len() <= usize::MAX,
        huffman_lengths_of(freq, max_bits, n, a),
        huffman_lengths_of(freq, max_bits, n, b),
    ensures
        a == b,
{
    let act = active(freq, n);
    lemma_active(freq, n);
    if act.len() >= 2 {
        lemma_limited_lengths_unique(freqs_of(freq, act), max_bits, lens_of(a, act), lens_of(b, act));
    }
    assert forall|i: int| 0 <= i < n implies a[i] == b[i] by {
        if freq[i] > 0 {
            lemma_active_contains(freq, n, i);
            let j = choose|j: int| 0 <= j < act.len() && act[j] == i;
            if act.len() >= 2 {
                assert(lens_of(a, act)[j] == lens_of(b, act)[j]);
            } else {
                assert(j == 0);
            }
        }
    }
    assert(a =~= b);
}

/// `hclen_of` names one count only.
proof fn lemma_hclen_unique(cl_lens: Seq<u8>, m1: nat, m2: nat)
    requires
        hclen_of(cl_lens, m1),
        hclen_of(cl_lens, m2),
    ensures
        m1 == m2,
{
    if m1 < m2 {
        assert(cl_lens[cl_order()[m2 - 1] as int] == 0);
    } else if m2 < m1 {
        assert(cl_lens[cl_order()[m1 - 1] as int] == 0);
    }
}

/// `built_trees` names one pair of codes only.
proof fn lemma_built_trees_unique(lf: Seq<u64>, df: Seq<u64>, l1: Seq<u8>, d1: Seq<u8>, l2: Seq<u8>, d2: Seq<u8>)
    requires
        lf.len() == 286,
        df.len() == 30,
        built_trees(lf, df, l1, d1),
        built_trees(lf, df, l2, d2),
    ensures
        l1 == l2,
        d1 == d2,
{
    reveal(built_trees);
    let (la, da) = choose|l: Seq<u8>, d: Seq<u8>| {
        &&& huffman_lengths_of(adj_lit(lf), 15, 286, l)
        &&& l1 == trimmed_lit(l)
        &&& huffman_lengths_of(adj_dist(df), 15, 30, d)
        &&& d1 == trimmed_dist(d)
    };
    let (lb, db) = choose|l: Seq<u8>, d: Seq<u8>| {
        &&& huffman_lengths_of(adj_lit(lf), 15, 286, l)
        &&& l2 == trimmed_lit(l)
        &&& huffman_lengths_of(adj_dist(df), 15, 30, d)
        &&& d2 == trimmed_dist(d)
    };
    lemma_huffman_lengths_unique(adj_lit(lf), 15, 286, la, lb);
    lemma_huffman_lengths_unique(adj_dist(df), 15, 30, da, db);
}

/// `is_dynamic_block` names one bit string only.
proof fn lemma_dynamic_block_unique(
    b1: Seq<bool>,
    b2: Seq<bool>,
    bfinal: bool,
    lit: Seq<u8>,
    dist: Seq<u8>,
    tokens: Seq<Lz77Token>,
)
    requires
        is_dynamic_block(b1, bfinal, lit, dist, tokens),
        is_dynamic_block(b2, bfinal, lit, dist, tokens),
    ensures
        b1 == b2,
{
    reveal(is_dynamic_block);
    let (t1, c1, m1) = choose|cl_toks: Seq<ClToken>, cl_lens: Seq<u8>, m: nat| {
        &&& cl_tokens_ok(cl_toks)
        &&& cl_decode(cl_toks) == lit + dist
        &&& cl_toks == cl_rle(lit + dist)
        &&& huffman_lengths_of(two_symbols(cl_freq_of(cl_toks)), 7, 19, cl_lens)
        &&& hclen_of(cl_lens, m)
        &&& forall|i: int| 0 <= i < cl_toks.len() ==> cl_lens[(#[trigger] cl_toks[i]).0 as int] >= 1
        &&& b1 == block_header_bits(bfinal, 2) + low_bits((lit.len() - 257) as u64, 5) + low_bits(
            (dist.len() - 1) as u64,
            5,
        ) + low_bits((m - 4) as u64, 4) + cl_lens_bits(cl_lens, m) + cl_tokens_bits(cl_lens, cl_toks)
            + tokens_bits(lit, dist, tokens) + huff_bits(lit, 256)
    };
    let (t2, c2, m2) = choose|cl_toks: Seq<ClToken>, cl_lens: Seq<u8>, m: nat| {
        &&& cl_tokens_ok(cl_toks)
        &&& cl_decode(cl_toks) == lit + dist
        &&& cl_toks == cl_rle(lit + dist)
        &&& huffman_lengths_of(two_symbols(cl_freq_of(cl_toks)), 7, 19, cl_lens)
        &&& hclen_of(cl_lens, m)
        &&& forall|i: int| 0 <= i < cl_toks.len() ==> cl_lens[(#[trigger] cl_toks[i]).0 as int] >= 1
        &&& b2 == block_header_bits(bfinal, 2) + low_bits((lit.len() - 257) as u64, 5) + low_bits(
            (dist.len() - 1) as u64,
            5,
        ) + low_bits((m - 4) as u64, 4) + cl_lens_bits(cl_lens, m) + cl_tokens_bits(cl_lens, cl_toks)
            + tokens_bits(lit, dist, tokens) + huff_bits(lit, 256)
    };
    assert(t1 == t2);
    let f = two_symbols(cl_freq_of(t1));
    assert(f.len() == 19);
    lemma_huffman_lengths_unique(f, 7, 19, c1, c2);
    lemma_hclen_unique(c1, m1, m2);
}

/// A block coded with codes built from its own symbol frequencies (what
/// `encode_dynamic_block_fresh` writes) is bit for bit the block coded with the trees that
/// those frequencies give (what `encode_dynamic_block` writes with the trees that
/// `build_dynamic_trees` makes from `count_block_freq`).
pub proof fn lemma_fresh_block_is_explicit(
    b1: Seq<bool>,
    b2: Seq<bool>,
    bfinal: bool,
    tokens: Seq<Lz77Token>,
    lit: Seq<u8>,
    dist: Seq<u8>,
)
    requires
        is_fresh_block(b1, bfinal, tokens),
        built_trees(block_lit_freqs(tokens), block_dist_freqs(tokens), lit, dist),
        is_dynamic_block(b2, bfinal, lit, dist, tokens),
    ensures
        b1 == b2,
{
    reveal(is_fresh_block);
    let (l1, d1) = choose|l: Seq<u8>, d: Seq<u8>|
        built_trees(block_lit_freqs(tokens), block_dist_freqs(tokens), l, d)
            && is_dynamic_block(b1, bfinal, l, d, tokens);
    lemma_built_trees_unique(block_lit_freqs(tokens), block_dist_freqs(tokens), l1, d1, lit, dist);
    lemma_dynamic_block_unique(b1, b2, bfinal, lit, dist, tokens);
}

} // verus!
