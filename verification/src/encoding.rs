//! The bit layout of compressed symbols (RFC 1951, 3.2): Huffman codes sent most significant
//! bit first, extra bits least significant bit first.
use vstd::prelude::*;

use crate::bit_writer::{bit_at, lemma_low_bits_zero, low_bits, BitWriter};
use crate::huffman::{bit32, canonical_code, canonical_entry_ok};
use crate::lz77::{token_wf, Lz77Token};
use crate::tables::{
    dist_base_seq, dist_extra_seq, dist_index, distance_code, lemma_dist_index_unique,
    lemma_extra_bounds, lemma_length_index_unique, lemma_tables_agree, length_base_seq,
    length_code, length_extra_seq, length_index, DIST_BASE, LENGTH_BASE,
};

verus! {

/// The bits of the canonical Huffman code of `sym`, most significant bit first.
pub open spec fn huff_bits(lengths: Seq<u8>, sym: int) -> Seq<bool> {
    Seq::new(
        lengths[sym] as nat,
        |i: int| bit32(canonical_code(lengths, sym) as u32, lengths[sym] - 1 - i),
    )
}

/// `codes` holds, for every symbol of `lengths`, its canonical code bit-reversed for output,
/// and no code is longer than 15 bits.
pub open spec fn code_table(lengths: Seq<u8>, codes: Seq<(u32, u8)>) -> bool {
    &&& codes.len() == lengths.len()
    &&& forall|s: int| 0 <= s < lengths.len() ==> #[trigger] lengths[s] <= 15
    &&& forall|s: int| 0 <= s < lengths.len() ==> canonical_entry_ok(lengths, s, #[trigger] codes[s])
}

/// The bits of one token under the literal/length code `lit` and the distance code `dist`.
pub open spec fn token_bits(lit: Seq<u8>, dist: Seq<u8>, t: Lz77Token) -> Seq<bool> {
    match t {
        Lz77Token::Literal(b) => huff_bits(lit, b as int),
        Lz77Token::Match { length, distance } => {
            let ls = length_index(length as int);
            let ds = dist_index(distance as int);
            huff_bits(lit, 257 + ls) + low_bits(
                (length - length_base_seq()[ls]) as u64,
                length_extra_seq()[ls] as nat,
            ) + huff_bits(dist, ds) + low_bits(
                (distance - dist_base_seq()[ds]) as u64,
                dist_extra_seq()[ds] as nat,
            )
        },
    }
}

/// The bits of a token sequence, one token after another.
pub open spec fn tokens_bits(lit: Seq<u8>, dist: Seq<u8>, toks: Seq<Lz77Token>) -> Seq<bool>
    decreases toks.len(),
{
    if toks.len() == 0 {
        Seq::empty()
    } else {
        tokens_bits(lit, dist, toks.drop_last()) + token_bits(lit, dist, toks.last())
    }
}

/// A token that DEFLATE can carry and whose symbols the two codes cover.
pub open spec fn token_fits(n_lit: int, n_dist: int, t: Lz77Token) -> bool {
    &&& token_wf(t)
    &&& match t {
        Lz77Token::Literal(b) => b < n_lit,
        Lz77Token::Match { length, distance } => 257 + length_index(length as int) < n_lit
            && dist_index(distance as int) < n_dist,
    }
}

/// Every token fits codes of `n_lit` literal/length and `n_dist` distance symbols.
pub open spec fn tokens_fit(n_lit: int, n_dist: int, toks: Seq<Lz77Token>) -> bool {
    forall|i: int| 0 <= i < toks.len() ==> token_fits(n_lit, n_dist, #[trigger] toks[i])
}

proof fn lemma_bit32_wide(x: u32, i: u32)
    requires
        i < 32,
    ensures
        bit_at(x as u64, i as int) == bit32(x, i as int),
{
    let iw = i as u64;
    assert(((x as u64) >> iw) & 1u64 == 1u64 <==> (x >> i) & 1u32 == 1u32) by (bit_vector)
        requires
            i < 32,
            iw == i,
    ;
}

/// Sending a table entry's low bits sends the symbol's code, most significant bit first.
pub proof fn lemma_entry_bits(lengths: Seq<u8>, sym: int, e: (u32, u8))
    requires
        0 <= sym < lengths.len(),
        lengths[sym] <= 32,
        canonical_entry_ok(lengths, sym, e),
    ensures
        low_bits(e.0 as u64, e.1 as nat) == huff_bits(lengths, sym),
{
    if lengths[sym] == 0 {
        lemma_low_bits_zero(e.0 as u64);
        assert(huff_bits(lengths, sym) =~= Seq::<bool>::empty());
    } else {
        let len = e.1 as int;
        assert forall|j: int| 0 <= j < len implies low_bits(e.0 as u64, e.1 as nat)[j] == huff_bits(
            lengths,
            sym,
        )[j] by {
            lemma_bit32_wide(e.0, j as u32);
            assert(bit32(e.0, j) == (j < len && len - 1 - j < 32 && bit32(
                canonical_code(lengths, sym) as u32,
                len - 1 - j,
            )));
        }
        assert(low_bits(e.0 as u64, e.1 as nat) =~= huff_bits(lengths, sym));
    }
}

pub proof fn lemma_tokens_bits_step(lit: Seq<u8>, dist: Seq<u8>, toks: Seq<Lz77Token>, i: int)
    requires
        0 <= i < toks.len(),
    ensures
        tokens_bits(lit, dist, toks.take(i + 1)) == tokens_bits(lit, dist, toks.take(i))
            + token_bits(lit, dist, toks[i]),
{
    assert(toks.take(i + 1).drop_last() =~= toks.take(i));
}

/// Send the code of `sym`.
pub fn put_code(w: &mut BitWriter, codes: &[(u32, u8)], sym: usize, Ghost(lengths): Ghost<Seq<u8>>)
    requires
        old(w).wf(),
        code_table(lengths, codes@),
        sym < codes.len(),
    ensures
        final(w).wf(),
        final(w).bits() == old(w).bits() + huff_bits(lengths, sym as int),
{
    let (c, l) = codes[sym];
    proof {
        assert(lengths[sym as int] <= 15);
        lemma_entry_bits(lengths, sym as int, codes@[sym as int]);
    }
    w.put_bits(c, l);
}

/// Send one token: a literal's code, or a match's length code, extra length bits, distance
/// code and extra distance bits.
pub fn put_token(
    w: &mut BitWriter,
    t: &Lz77Token,
    lit_codes: &[(u32, u8)],
    dist_codes: &[(u32, u8)],
    Ghost(lit): Ghost<Seq<u8>>,
    Ghost(dist): Ghost<Seq<u8>>,
)
    requires
        old(w).wf(),
        code_table(lit, lit_codes@),
        code_table(dist, dist_codes@),
        token_fits(lit.len() as int, dist.len() as int, *t),
    ensures
        final(w).wf(),
        final(w).bits() == old(w).bits() + token_bits(lit, dist, *t),
{
    proof {
        lemma_tables_agree();
        lemma_extra_bounds();
    }
    match t {
        Lz77Token::Literal(b) => {
            put_code(w, lit_codes, *b as usize, Ghost(lit));
        },
        Lz77Token::Match { length, distance } => {
            let ghost b0 = w.bits();
            let len = *length as usize;
            let distv = *distance as usize;
            let (sym, extra_len) = length_code(len);
            proof {
                lemma_length_index_unique(len as int, sym - 257);
            }
            put_code(w, lit_codes, sym as usize, Ghost(lit));
            let ghost b1 = w.bits();
            let base = LENGTH_BASE[(sym - 257) as usize] as usize;
            let extra = (len - base) as u32;
            if extra_len > 0 {
                w.put_bits(extra, extra_len);
            } else {
                proof {
                    lemma_low_bits_zero(extra as u64);
                    assert(w.bits() =~= b1 + low_bits(extra as u64, extra_len as nat));
                }
            }
            let ghost b2 = w.bits();
            let (dsym, dextra_len) = distance_code(distv);
            proof {
                lemma_dist_index_unique(distv as int, dsym as int);
            }
            put_code(w, dist_codes, dsym as usize, Ghost(dist));
            let ghost b3 = w.bits();
            let dbase = DIST_BASE[dsym as usize] as usize;
            let dextra = (distv - dbase) as u32;
            if dextra_len > 0 {
                w.put_bits(dextra, dextra_len);
            } else {
                proof {
                    lemma_low_bits_zero(dextra as u64);
                    assert(w.bits() =~= b3 + low_bits(dextra as u64, dextra_len as nat));
                }
            }
            proof {
                assert(w.bits() =~= b0 + token_bits(lit, dist, *t));
            }
        },
    }
}

/// Send every token in order.
pub fn put_tokens(
    w: &mut BitWriter,
    tokens: &[Lz77Token],
    lit_codes: &[(u32, u8)],
    dist_codes: &[(u32, u8)],
    Ghost(lit): Ghost<Seq<u8>>,
    Ghost(dist): Ghost<Seq<u8>>,
)
    requires
        old(w).wf(),
        code_table(lit, lit_codes@),
        code_table(dist, dist_codes@),
        tokens_fit(lit.len() as int, dist.len() as int, tokens@),
    ensures
        final(w).wf(),
        final(w).bits() == old(w).bits() + tokens_bits(lit, dist, tokens@),
{
    let ghost b0 = w.bits();
    let mut i = 0usize;
    proof {
        assert(tokens@.take(0) =~= Seq::<Lz77Token>::empty());
        assert(w.bits() =~= b0 + tokens_bits(lit, dist, tokens@.take(0)));
    }
    while i < tokens.len()
        invariant
            i <= tokens.len(),
            w.wf(),
            code_table(lit, lit_codes@),
            code_table(dist, dist_codes@),
            tokens_fit(lit.len() as int, dist.len() as int, tokens@),
            w.bits() == b0 + tokens_bits(lit, dist, tokens@.take(i as int)),
        decreases tokens.len() - i,
    {
        let ghost bi = w.bits();
        proof {
            assert(token_fits(lit.len() as int, dist.len() as int, tokens@[i as int]));
        }
        put_token(w, &tokens[i], lit_codes, dist_codes, Ghost(lit), Ghost(dist));
        proof {
            lemma_tokens_bits_step(lit, dist, tokens@, i as int);
            assert(w.bits() =~= b0 + tokens_bits(lit, dist, tokens@.take(i + 1)));
        }
        i = i + 1;
    }
    proof {
        assert(tokens@.take(tokens.len() as int) =~= tokens@);
    }
}

} // verus!
