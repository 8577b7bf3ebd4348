use vstd::arithmetic::power2::{lemma2_to64, lemma_pow2_pos, lemma_pow2_strictly_increases, lemma_pow2_unfold, pow2};
use vstd::bits::{lemma_u32_low_bits_mask_is_mod, lemma_u32_pow2_no_overflow, lemma_u32_shl_is_mul, low_bits_mask};
use vstd::prelude::*;

verus! {

/// Bit `i` of a 32-bit value, counting from the least significant bit.
pub open spec fn bit32(x: u32, i: int) -> bool {
    (x >> (i as u32)) & 1u32 == 1u32
}

/// `r` holds the low `len` bits of `c` in reverse order (bit 0 of `r` is bit `len - 1` of `c`),
/// and nothing above them.
pub open spec fn reversed_bits(r: u32, c: u32, len: int) -> bool {
    forall|j: int|
        0 <= j < 32 ==> #[trigger] bit32(r, j) == (j < len && len - 1 - j < 32 && bit32(
            c,
            len - 1 - j,
        ))
}

/// Two 32-bit values with the same bits are equal.
proof fn lemma_bit32_ext(a: u32, b: u32)
    requires
        forall|j: int| 0 <= j < 32 ==> #[trigger] bit32(a, j) == bit32(b, j),
    ensures
        a == b,
{
    assert(bit32(a, 0) == bit32(b, 0));
    assert(bit32(a, 1) == bit32(b, 1));
    assert(bit32(a, 2) == bit32(b, 2));
    assert(bit32(a, 3) == bit32(b, 3));
    assert(bit32(a, 4) == bit32(b, 4));
    assert(bit32(a, 5) == bit32(b, 5));
    assert(bit32(a, 6) == bit32(b, 6));
    assert(bit32(a, 7) == bit32(b, 7));
    assert(bit32(a, 8) == bit32(b, 8));
    assert(bit32(a, 9) == bit32(b, 9));
    assert(bit32(a, 10) == bit32(b, 10));
    assert(bit32(a, 11) == bit32(b, 11));
    assert(bit32(a, 12) == bit32(b, 12));
    assert(bit32(a, 13) == bit32(b, 13));
    assert(bit32(a, 14) == bit32(b, 14));
    assert(bit32(a, 15) == bit32(b, 15));
    assert(bit32(a, 16) == bit32(b, 16));
    assert(bit32(a, 17) == bit32(b, 17));
    assert(bit32(a, 18) == bit32(b, 18));
    assert(bit32(a, 19) == bit32(b, 19));
    assert(bit32(a, 20) == bit32(b, 20));
    assert(bit32(a, 21) == bit32(b, 21));
    assert(bit32(a, 22) == bit32(b, 22));
    assert(bit32(a, 23) == bit32(b, 23));
    assert(bit32(a, 24) == bit32(b, 24));
    assert(bit32(a, 25) == bit32(b, 25));
    assert(bit32(a, 26) == bit32(b, 26));
    assert(bit32(a, 27) == bit32(b, 27));
    assert(bit32(a, 28) == bit32(b, 28));
    assert(bit32(a, 29) == bit32(b, 29));
    assert(bit32(a, 30) == bit32(b, 30));
    assert(bit32(a, 31) == bit32(b, 31));
    assert(a == b) by (bit_vector)
        requires
            ((a >> 0u32) & 1u32 == 1u32) == ((b >> 0u32) & 1u32 == 1u32),
            ((a >> 1u32) & 1u32 == 1u32) == ((b >> 1u32) & 1u32 == 1u32),
            ((a >> 2u32) & 1u32 == 1u32) == ((b >> 2u32) & 1u32 == 1u32),
            ((a >> 3u32) & 1u32 == 1u32) == ((b >> 3u32) & 1u32 == 1u32),
            ((a >> 4u32) & 1u32 == 1u32) == ((b >> 4u32) & 1u32 == 1u32),
            ((a >> 5u32) & 1u32 == 1u32) == ((b >> 5u32) & 1u32 == 1u32),
            ((a >> 6u32) & 1u32 == 1u32) == ((b >> 6u32) & 1u32 == 1u32),
            ((a >> 7u32) & 1u32 == 1u32) == ((b >> 7u32) & 1u32 == 1u32),
            ((a >> 8u32) & 1u32 == 1u32) == ((b >> 8u32) & 1u32 == 1u32),
            ((a >> 9u32) & 1u32 == 1u32) == ((b >> 9u32) & 1u32 == 1u32),
            ((a >> 10u32) & 1u32 == 1u32) == ((b >> 10u32) & 1u32 == 1u32),
            ((a >> 11u32) & 1u32 == 1u32) == ((b >> 11u32) & 1u32 == 1u32),
            ((a >> 12u32) & 1u32 == 1u32) == ((b >> 12u32) & 1u32 == 1u32),
            ((a >> 13u32) & 1u32 == 1u32) == ((b >> 13u32) & 1u32 == 1u32),
            ((a >> 14u32) & 1u32 == 1u32) == ((b >> 14u32) & 1u32 == 1u32),
            ((a >> 15u32) & 1u32 == 1u32) == ((b >> 15u32) & 1u32 == 1u32),
            ((a >> 16u32) & 1u32 == 1u32) == ((b >> 16u32) & 1u32 == 1u32),
            ((a >> 17u32) & 1u32 == 1u32) == ((b >> 17u32) & 1u32 == 1u32),
            ((a >> 18u32) & 1u32 == 1u32) == ((b >> 18u32) & 1u32 == 1u32),
            ((a >> 19u32) & 1u32 == 1u32) == ((b >> 19u32) & 1u32 == 1u32),
            ((a >> 20u32) & 1u32 == 1u32) == ((b >> 20u32) & 1u32 == 1u32),
            ((a >> 21u32) & 1u32 == 1u32) == ((b >> 21u32) & 1u32 == 1u32),
            ((a >> 22u32) & 1u32 == 1u32) == ((b >> 22u32) & 1u32 == 1u32),
            ((a >> 23u32) & 1u32 == 1u32) == ((b >> 23u32) & 1u32 == 1u32),
            ((a >> 24u32) & 1u32 == 1u32) == ((b >> 24u32) & 1u32 == 1u32),
            ((a >> 25u32) & 1u32 == 1u32) == ((b >> 25u32) & 1u32 == 1u32),
            ((a >> 26u32) & 1u32 == 1u32) == ((b >> 26u32) & 1u32 == 1u32),
            ((a >> 27u32) & 1u32 == 1u32) == ((b >> 27u32) & 1u32 == 1u32),
            ((a >> 28u32) & 1u32 == 1u32) == ((b >> 28u32) & 1u32 == 1u32),
            ((a >> 29u32) & 1u32 == 1u32) == ((b >> 29u32) & 1u32 == 1u32),
            ((a >> 30u32) & 1u32 == 1u32) == ((b >> 30u32) & 1u32 == 1u32),
            ((a >> 31u32) & 1u32 == 1u32) == ((b >> 31u32) & 1u32 == 1u32),
    ;
}

/// The bits of `x` under the mask of its low `l` bits: those of `x` below `l`, none above.
proof fn lemma_bit32_low_mask(x: u32, l: nat)
    requires
        l < 32,
    ensures
        forall|j: int| 0 <= j < 32 ==> #[trigger] bit32(x & (low_bits_mask(l) as u32), j) == (j < l && bit32(x, j)),
{
    let lu = l as u32;
    lemma_u32_pow2_no_overflow(l);
    lemma_u32_shl_is_mul(1u32, lu);
    assert(low_bits_mask(l) as u32 == ((1u32 << lu) - 1) as u32);
    assert forall|j: int| 0 <= j < 32 implies #[trigger] bit32(x & (low_bits_mask(l) as u32), j) == (j < l && bit32(x, j)) by {
        let ju = j as u32;
        assert((((x & (((1u32 << lu) - 1) as u32)) >> ju) & 1u32 == 1u32) == (ju < lu && ((x >> ju) & 1u32 == 1u32)))
            by (bit_vector)
            requires
                lu < 32u32,
                ju < 32u32,
        ;
    }
}

/// Reversing the low `len` bits of a code twice gives back those bits, and a reversal has no
/// bit at or above `len`: it is below `2^len`.
pub proof fn lemma_reverse_bits_involution(c: u32, r: u32, r2: u32, len: int)
    requires
        0 <= len <= 32,
        reversed_bits(r, c, len),
        reversed_bits(r2, r, len),
    ensures
        (r as int) < pow2(len as nat),
        r2 == (if len == 32 {
            c
        } else {
            c & (low_bits_mask(len as nat) as u32)
        }),
{
    lemma2_to64();
    assert forall|j: int| 0 <= j < 32 implies #[trigger] bit32(r2, j) == (j < len && bit32(c, j)) by {
        if j < len {
            assert(bit32(r, len - 1 - j) == bit32(c, len - 1 - (len - 1 - j)));
        }
    }
    if len == 32 {
        lemma_bit32_ext(r2, c);
    } else {
        let l = len as nat;
        lemma_bit32_low_mask(c, l);
        lemma_bit32_ext(r2, c & (low_bits_mask(l) as u32));
    }
    lemma_reversed_bits_bound(r, c, len);
}

/// A reversal of the low `len` bits has no bit at or above `len`: it is below `2^len`.
proof fn lemma_reversed_bits_bound(r: u32, c: u32, len: int)
    requires
        0 <= len <= 32,
        reversed_bits(r, c, len),
    ensures
        (r as int) < pow2(len as nat),
{
    lemma2_to64();
    if len < 32 {
        let l = len as nat;
        lemma_bit32_low_mask(r, l);
        lemma_bit32_ext(r, r & (low_bits_mask(l) as u32));
        lemma_u32_low_bits_mask_is_mod(r, l);
        lemma_u32_pow2_no_overflow(l);
        lemma_pow2_pos(l);
    }
}

/// Reverse the low `len` bits of `code` (Huffman codes are sent MSB-first, bits LSB-first).
pub fn reverse_bits(code: u32, len: u8) -> (out: u32)
    ensures
        reversed_bits(out, code, len as int),
        len <= 32 ==> (out as int) < pow2(len as nat),
{
    let mut code = code;
    let ghost code0 = code;
    let mut out = 0u32;
    let mut i = 0u8;
    proof {
        assert forall|k: int| 0 <= k < 32 implies #[trigger] bit32(code, k) == (0 + k < 32
            && bit32(code0, 0 + k)) by {}
        assert forall|j: int| 0 <= j < 32 implies #[trigger] bit32(out, j) == (j < 0 && 0 - 1
            - j < 32 && bit32(code0, 0 - 1 - j)) by {
            let ju = j as u32;
            assert((0u32 >> ju) & 1u32 == 0u32) by (bit_vector);
        }
    }
    while i < len
        invariant
            i <= len,
            forall|k: int|
                0 <= k < 32 ==> #[trigger] bit32(code, k) == (i + k < 32 && bit32(code0, i + k)),
            forall|j: int|
                0 <= j < 32 ==> #[trigger] bit32(out, j) == (j < i && i - 1 - j < 32 && bit32(
                    code0,
                    i - 1 - j,
                )),
        decreases len - i,
    {
        let ghost out0 = out;
        let ghost c0 = code;
        out = (out << 1u32) | (code & 1u32);
        code = code >> 1u32;
        proof {
            assert forall|k: int| 0 <= k < 32 implies #[trigger] bit32(code, k) == (i + 1 + k < 32
                && bit32(code0, i + 1 + k)) by {
                let ku = k as u32;
                if k < 31 {
                    assert(((c0 >> 1u32) >> ku) & 1u32 == (c0 >> (ku + 1) as u32) & 1u32)
                        by (bit_vector)
                        requires
                            ku < 31,
                    ;
                    assert(bit32(c0, k + 1) == (i + k + 1 < 32 && bit32(code0, i + k + 1)));
                } else {
                    assert(((c0 >> 1u32) >> ku) & 1u32 == 0u32) by (bit_vector)
                        requires
                            ku == 31,
                    ;
                }
            }
            assert forall|j: int| 0 <= j < 32 implies #[trigger] bit32(out, j) == (j < i + 1
                && i + 1 - 1 - j < 32 && bit32(code0, i + 1 - 1 - j)) by {
                let ju = j as u32;
                if j == 0 {
                    assert((((out0 << 1u32) | (c0 & 1u32)) >> 0u32) & 1u32 == (c0 >> 0u32) & 1u32)
                        by (bit_vector);
                    assert(bit32(c0, 0) == (i < 32 && bit32(code0, i + 0)));
                } else {
                    assert((((out0 << 1u32) | (c0 & 1u32)) >> ju) & 1u32 == (out0 >> (ju
                        - 1) as u32) & 1u32) by (bit_vector)
                        requires
                            1 <= ju < 32,
                    ;
                    assert(bit32(out0, j - 1) == (j - 1 < i && i - 1 - (j - 1) < 32 && bit32(
                        code0,
                        i - 1 - (j - 1),
                    )));
                }
            }
        }
        i = i + 1;
    }
    proof {
        if len <= 32 {
            lemma_reversed_bits_bound(out, code0, len as int);
        }
    }
    out
}

/// Number of symbols whose code length is `l` (zero lengths are never counted).
pub open spec fn count_len(lengths: Seq<u8>, l: int) -> nat
    decreases lengths.len(),
{
    if lengths.len() == 0 {
        0
    } else {
        count_len(lengths.drop_last(), l) + if l != 0 && lengths.last() == l {
            1nat
        } else {
            0nat
        }
    }
}

/// The first canonical code of length `b` (RFC 1951, 3.2.2): codes of each length are
/// consecutive, and each length starts where the shorter ones leave off, shifted left.
pub open spec fn first_code(lengths: Seq<u8>, b: nat) -> int
    decreases b,
{
    if b == 0 {
        0
    } else {
        2 * (first_code(lengths, (b - 1) as nat) + count_len(lengths, b - 1))
    }
}

/// The canonical Huffman code of symbol `sym`: the first code of its length plus the number of
/// earlier symbols of the same length.
pub open spec fn canonical_code(lengths: Seq<u8>, sym: int) -> int {
    first_code(lengths, lengths[sym] as nat) + count_len(lengths.take(sym), lengths[sym] as int)
}

/// The canonical codes of every length up to `max_bits` fit in 32 bits.
pub open spec fn codes_fit(lengths: Seq<u8>, max_bits: int) -> bool {
    forall|b: int|
        1 <= b <= max_bits ==> first_code(lengths, b as nat) + count_len(lengths, b) <= u32::MAX
}

/// The entry of `canonical_codes` for one symbol: its code, bit-reversed, and its length.
pub open spec fn canonical_entry_ok(lengths: Seq<u8>, sym: int, e: (u32, u8)) -> bool {
    if lengths[sym] == 0 {
        e == (0u32, 0u8)
    } else {
        &&& e.1 == lengths[sym]
        &&& 0 <= canonical_code(lengths, sym) <= u32::MAX
        &&& reversed_bits(e.0, canonical_code(lengths, sym) as u32, e.1 as int)
    }
}

pub proof fn lemma_count_len_take_step(lengths: Seq<u8>, i: int, l: int)
    requires
        0 <= i < lengths.len(),
    ensures
        count_len(lengths.take(i + 1), l) == count_len(lengths.take(i), l) + if l != 0
            && lengths[i] == l {
            1nat
        } else {
            0nat
        },
{
    assert(lengths.take(i + 1).drop_last() =~= lengths.take(i));
}

pub proof fn lemma_count_len_bound(lengths: Seq<u8>, l: int)
    ensures
        count_len(lengths, l) <= lengths.len(),
    decreases lengths.len(),
{
    if lengths.len() > 0 {
        lemma_count_len_bound(lengths.drop_last(), l);
    }
}

proof fn lemma_count_len_take_mono(lengths: Seq<u8>, i: int, j: int, l: int)
    requires
        0 <= i <= j <= lengths.len(),
    ensures
        count_len(lengths.take(i), l) <= count_len(lengths.take(j), l),
    decreases j - i,
{
    if i < j {
        lemma_count_len_take_step(lengths, j - 1, l);
        lemma_count_len_take_mono(lengths, i, j - 1, l);
    }
}

proof fn lemma_count_len_rank(lengths: Seq<u8>, sym: int)
    requires
        0 <= sym < lengths.len(),
        lengths[sym] != 0,
    ensures
        count_len(lengths.take(sym), lengths[sym] as int) < count_len(
            lengths,
            lengths[sym] as int,
        ),
{
    lemma_count_len_take_step(lengths, sym, lengths[sym] as int);
    lemma_count_len_take_mono(lengths, sym + 1, lengths.len() as int, lengths[sym] as int);
    assert(lengths.take(lengths.len() as int) =~= lengths);
}

proof fn lemma_first_code_nonneg(lengths: Seq<u8>, b: nat)
    ensures
        first_code(lengths, b) >= 0,
    decreases b,
{
    if b > 0 {
        lemma_first_code_nonneg(lengths, (b - 1) as nat);
    }
}

/// Assign canonical Huffman codes (bit-reversed for LSB-first output) to the given code lengths.
pub fn canonical_codes(lengths: &[u8], max_bits: u8) -> (out: Vec<(u32, u8)>)
    requires
        forall|i: int| 0 <= i < lengths.len() ==> lengths[i] <= max_bits,
        forall|b: int| 1 <= b <= max_bits ==> count_len(lengths@, b) <= u16::MAX,
        codes_fit(lengths@, max_bits as int),
    ensures
        out.len() == lengths.len(),
        forall|sym: int| 0 <= sym < lengths.len() ==> canonical_entry_ok(lengths@, sym, out@[sym]),
{
    let n = lengths.len();
    let mb = max_bits as usize;
    let mut bl_count: Vec<u16> = Vec::new();
    let mut k = 0usize;
    while k <= mb
        invariant
            k <= mb + 1,
            mb == max_bits,
            bl_count.len() == k,
            forall|t: int| 0 <= t < k ==> bl_count[t] == 0,
        decreases mb + 1 - k,
    {
        bl_count.push(0);
        k = k + 1;
    }
    let mut i = 0usize;
    while i < n
        invariant
            n == lengths.len(),
            mb == max_bits,
            i <= n,
            bl_count.len() == mb + 1,
            bl_count[0] == 0,
            forall|b: int| 1 <= b <= max_bits ==> count_len(lengths@, b) <= u16::MAX,
            forall|t: int| 0 <= t < lengths.len() ==> lengths[t] <= max_bits,
            forall|b: int| 1 <= b <= mb ==> bl_count[b] == count_len(lengths@.take(i as int), b),
        decreases n - i,
    {
        let l = lengths[i];
        proof {
            assert forall|b: int| 1 <= b <= mb implies count_len(lengths@.take(i + 1), b)
                == count_len(lengths@.take(i as int), b) + if lengths@[i as int] == b {
                1nat
            } else {
                0nat
            } by {
                lemma_count_len_take_step(lengths@, i as int, b);
            }
        }
        if (l as usize) <= mb {
            if l > 0 {
                proof {
                    lemma_count_len_take_mono(lengths@, i + 1, n as int, l as int);
                    assert(lengths@.take(n as int) =~= lengths@);
                }
                let c = bl_count[l as usize];
                bl_count.set(l as usize, c + 1);
            }
        }
        i = i + 1;
    }
    proof {
        assert(lengths@.take(n as int) =~= lengths@);
    }
    let mut code = 0u32;
    let mut next_code: Vec<u32> = Vec::new();
    let mut k = 0usize;
    while k <= mb
        invariant
            k <= mb + 1,
            mb == max_bits,
            next_code.len() == k,
            forall|t: int| 0 <= t < k ==> next_code[t] == 0,
        decreases mb + 1 - k,
    {
        next_code.push(0);
        k = k + 1;
    }
    let mut bits = 1usize;
    while bits <= mb
        invariant
            1 <= bits <= mb + 1,
            mb == max_bits,
            bl_count.len() == mb + 1,
            next_code.len() == mb + 1,
            bl_count[0] == 0,
            forall|b: int| 1 <= b <= mb ==> bl_count[b] == count_len(lengths@, b),
            codes_fit(lengths@, max_bits as int),
            code == first_code(lengths@, (bits - 1) as nat),
            next_code[0] == 0,
            forall|b: int| 1 <= b < bits ==> next_code[b] == first_code(lengths@, b as nat),
        decreases mb + 1 - bits,
    {
        proof {
            lemma_first_code_nonneg(lengths@, (bits - 1) as nat);
            if bits >= 2 {
                assert(first_code(lengths@, (bits - 1) as nat) + count_len(lengths@, bits - 1)
                    <= u32::MAX);
            } else {
                assert(count_len(lengths@, 0) == 0) by {
                    lemma_count_len_zero(lengths@);
                }
            }
            assert(first_code(lengths@, bits as nat) == 2 * (first_code(
                lengths@,
                (bits - 1) as nat,
            ) + count_len(lengths@, bits - 1)));
            assert(first_code(lengths@, bits as nat) + count_len(lengths@, bits as int)
                <= u32::MAX);
        }
        let sum = code + bl_count[bits - 1] as u32;
        proof {
            assert(sum * 2 <= u32::MAX);
            assert((sum << 1u32) == sum * 2) by (bit_vector)
                requires
                    sum * 2 <= u32::MAX,
            ;
        }
        code = sum << 1u32;
        next_code.set(bits, code);
        bits = bits + 1;
    }
    let mut out: Vec<(u32, u8)> = Vec::new();
    let mut sym = 0usize;
    while sym < n
        invariant
            n == lengths.len(),
            mb == max_bits,
            sym <= n,
            next_code.len() == mb + 1,
            out.len() == sym,
            forall|t: int| 0 <= t < lengths.len() ==> lengths[t] <= max_bits,
            codes_fit(lengths@, max_bits as int),
            forall|b: int|
                1 <= b <= mb ==> next_code[b] == first_code(lengths@, b as nat) + count_len(
                    lengths@.take(sym as int),
                    b,
                ),
            forall|t: int| 0 <= t < sym ==> canonical_entry_ok(lengths@, t, out@[t]),
        decreases n - sym,
    {
        let l = lengths[sym];
        proof {
            assert forall|b: int| 1 <= b <= mb implies count_len(lengths@.take(sym + 1), b)
                == count_len(lengths@.take(sym as int), b) + if lengths@[sym as int] == b {
                1nat
            } else {
                0nat
            } by {
                lemma_count_len_take_step(lengths@, sym as int, b);
            }
        }
        if l == 0 {
            out.push((0u32, 0u8));
        } else {
            let c = next_code[l as usize];
            proof {
                lemma_count_len_rank(lengths@, sym as int);
                lemma_first_code_nonneg(lengths@, l as nat);
                lemma_count_len_take_mono(lengths@, sym + 1, n as int, l as int);
                assert(lengths@.take(n as int) =~= lengths@);
                assert(c == canonical_code(lengths@, sym as int));
            }
            next_code.set(l as usize, c + 1);
            let rev = reverse_bits(c, l);
            out.push((rev, l));
        }
        sym = sym + 1;
    }
    out
}


/// Number of symbols whose code length is at least 1 and below `b`.
pub open spec fn count_below(lengths: Seq<u8>, b: int) -> nat
    decreases lengths.len(),
{
    if lengths.len() == 0 {
        0
    } else {
        count_below(lengths.drop_last(), b) + if 1 <= lengths.last() < b {
            1nat
        } else {
            0nat
        }
    }
}

proof fn lemma_count_below_step(lengths: Seq<u8>, b: int)
    requires
        b >= 1,
    ensures
        count_below(lengths, b + 1) == count_below(lengths, b) + count_len(lengths, b),
    decreases lengths.len(),
{
    if lengths.len() > 0 {
        lemma_count_below_step(lengths.drop_last(), b);
    }
}

proof fn lemma_count_below_bound(lengths: Seq<u8>, b: int)
    ensures
        count_below(lengths, b) <= lengths.len(),
    decreases lengths.len(),
{
    if lengths.len() > 0 {
        lemma_count_below_bound(lengths.drop_last(), b);
    }
}

proof fn lemma_first_code_bound(lengths: Seq<u8>, b: nat)
    ensures
        first_code(lengths, b) <= pow2(b) * count_below(lengths, b as int),
    decreases b,
{
    if b == 1 {
        lemma_count_len_zero(lengths);
        lemma_first_code_nonneg(lengths, 0);
    } else if b > 1 {
        lemma_first_code_bound(lengths, (b - 1) as nat);
        lemma_count_below_step(lengths, b - 1);
        lemma_pow2_unfold(b);
        let p = pow2((b - 1) as nat) as int;
        let cb = count_below(lengths, b - 1) as int;
        let c = count_len(lengths, b - 1) as int;
        let f = first_code(lengths, (b - 1) as nat);
        lemma_pow2_pos((b - 1) as nat);
        assert(2 * (f + c) <= 2 * p * (cb + c)) by (nonlinear_arith)
            requires
                f <= p * cb,
                p >= 1,
                c >= 0,
                cb >= 0,
        ;
    }
}

/// Short enough codes always fit: with `n` symbols, every canonical code of length at most
/// `max_bits` stays below `n * 2^max_bits`.
pub proof fn lemma_codes_fit_small(lengths: Seq<u8>, max_bits: int)
    requires
        0 <= max_bits,
        lengths.len() * pow2(max_bits as nat) <= u32::MAX,
    ensures
        codes_fit(lengths, max_bits),
{
    assert forall|b: int| 1 <= b <= max_bits implies first_code(lengths, b as nat) + count_len(
        lengths,
        b,
    ) <= u32::MAX by {
        lemma_first_code_bound(lengths, b as nat);
        lemma_count_below_step(lengths, b);
        lemma_count_below_bound(lengths, b + 1);
        lemma_pow2_pos(b as nat);
        if b < max_bits {
            lemma_pow2_strictly_increases(b as nat, max_bits as nat);
        }
        let p = pow2(b as nat) as int;
        let pm = pow2(max_bits as nat) as int;
        let cb = count_below(lengths, b) as int;
        let c = count_len(lengths, b) as int;
        let n = lengths.len() as int;
        assert(p * cb + c <= n * pm) by (nonlinear_arith)
            requires
                p >= 1,
                p <= pm,
                cb >= 0,
                c >= 0,
                cb + c <= n,
        ;
    }
}

proof fn lemma_count_len_zero(lengths: Seq<u8>)
    ensures
        count_len(lengths, 0) == 0,
    decreases lengths.len(),
{
    if lengths.len() > 0 {
        lemma_count_len_zero(lengths.drop_last());
    }
}

} // verus!
