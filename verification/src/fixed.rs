//! Blocks compressed with the fixed Huffman codes of RFC 1951, 3.2.6.
use vstd::arithmetic::power2::lemma2_to64;
use vstd::prelude::*;

use crate::bit_writer::{low_bits, BitWriter};
use crate::encoding::{code_table, huff_bits, put_code, put_tokens, tokens_bits};
use crate::huffman::{canonical_codes, count_len, lemma_codes_fit_small, lemma_count_len_bound};
use crate::lz77::{token_wf, Lz77Token};
use crate::tables::{lemma_dist_index_range, lemma_length_index_range};

verus! {

/// Code lengths of the fixed literal/length code: 8, 9, 7 and 8 bits by symbol range.
pub open spec fn fixed_lit_lengths() -> Seq<u8> {
    Seq::new(
        288,
        |i: int|
            if i < 144 {
                8u8
            } else if i < 256 {
                9u8
            } else if i < 280 {
                7u8
            } else {
                8u8
            },
    )
}

/// Code lengths of the fixed distance code: 5 bits for each of the 30 symbols.
pub open spec fn fixed_dist_lengths() -> Seq<u8> {
    Seq::new(30, |i: int| 5u8)
}

/// The three header bits of a block: `BFINAL`, then the two-bit block type.
pub open spec fn block_header_bits(bfinal: bool, btype: u64) -> Seq<bool> {
    low_bits(
        if bfinal {
            1 + 2 * btype
        } else {
            2 * btype
        } as u64,
        3,
    )
}

/// A complete fixed-code block: header, the tokens, and the end-of-block code.
pub open spec fn fixed_block_bits(tokens: Seq<Lz77Token>, bfinal: bool) -> Seq<bool> {
    block_header_bits(bfinal, 1) + tokens_bits(fixed_lit_lengths(), fixed_dist_lengths(), tokens)
        + huff_bits(fixed_lit_lengths(), 256)
}

/// The code tables of the fixed literal/length and distance codes.
pub fn fixed_tables() -> (r: (Vec<(u32, u8)>, Vec<(u32, u8)>))
    ensures
        code_table(fixed_lit_lengths(), r.0@),
        code_table(fixed_dist_lengths(), r.1@),
{
    let mut lit_len = [0u8; 288];
    let mut i = 0usize;
    while i < 288
        invariant
            i <= 288,
            forall|k: int| 0 <= k < i ==> lit_len@[k] == fixed_lit_lengths()[k],
        decreases 288 - i,
    {
        let v: u8 = if i < 144 {
            8
        } else if i < 256 {
            9
        } else if i < 280 {
            7
        } else {
            8
        };
        lit_len[i] = v;
        i = i + 1;
    }
    let mut dist_len = [0u8; 30];
    let mut j = 0usize;
    while j < 30
        invariant
            j <= 30,
            forall|k: int| 0 <= k < j ==> dist_len@[k] == 5u8,
        decreases 30 - j,
    {
        dist_len[j] = 5;
        j = j + 1;
    }
    proof {
        assert(lit_len@ =~= fixed_lit_lengths());
        assert(dist_len@ =~= fixed_dist_lengths());
        lemma2_to64();
        lemma_codes_fit_small(lit_len@, 15);
        lemma_codes_fit_small(dist_len@, 15);
        assert forall|b: int| 1 <= b <= 15 implies count_len(lit_len@, b) <= u16::MAX by {
            lemma_count_len_bound(lit_len@, b);
        }
        assert forall|b: int| 1 <= b <= 15 implies count_len(dist_len@, b) <= u16::MAX by {
            lemma_count_len_bound(dist_len@, b);
        }
    }
    let lc = canonical_codes(&lit_len, 15);
    let dc = canonical_codes(&dist_len, 15);
    (lc, dc)
}

/// Append one block coded with the fixed Huffman codes.
pub fn encode_fixed_block(w: &mut BitWriter, tokens: &[Lz77Token], bfinal: bool)
    requires
        old(w).wf(),
        forall|i: int| 0 <= i < tokens.len() ==> token_wf(#[trigger] tokens[i]),
    ensures
        final(w).wf(),
        final(w).bits() == old(w).bits() + fixed_block_bits(tokens@, bfinal),
{
    let ghost b0 = w.bits();
    let hdr: u32 = if bfinal {
        3
    } else {
        2
    };
    w.put_bits(hdr, 3);
    let (lit, dist) = fixed_tables();
    proof {
        assert forall|i: int| 0 <= i < tokens.len() implies crate::encoding::token_fits(
            288,
            30,
            #[trigger] tokens@[i],
        ) by {
            assert(token_wf(tokens[i]));
            match tokens@[i] {
                Lz77Token::Literal(_) => {},
                Lz77Token::Match { length, distance } => {
                    lemma_length_index_range(length as int);
                    lemma_dist_index_range(distance as int);
                },
            }
        }
    }
    put_tokens(w, tokens, &lit, &dist, Ghost(fixed_lit_lengths()), Ghost(fixed_dist_lengths()));
    put_code(w, &lit, 256, Ghost(fixed_lit_lengths()));
    proof {
        assert(w.bits() =~= b0 + fixed_block_bits(tokens@, bfinal));
    }
}

} // verus!
