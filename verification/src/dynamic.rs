//! Code lengths for a dynamic Huffman block, limited to a maximum length.
use vstd::arithmetic::power2::pow2;
use vstd::prelude::*;

use crate::pm::{
    is_stable_order, kraft_sum, lemma_order_covers, lemma_pm_code_lengths_unique, lemma_pm_kraft,
    lemma_pm_lengths_positive, lemma_stable_order_unique, package_merge, pm_code_lengths,
    pm_weights_fit, PmError,
};

verus! {

/// Widen code lengths stored as bytes to the `u32` lengths that package-merge produces.
pub open spec fn widen(lens: Seq<u8>) -> Seq<u32> {
    lens.map_values(|x: u8| x as u32)
}

/// `lens` are the package-merge code lengths of `freq` limited to `max_len` bits.
pub open spec fn limited_lengths_of(freq: Seq<u64>, max_len: nat, lens: Seq<u8>) -> bool {
    &&& lens.len() == freq.len()
    &&& forall|i: int| 0 <= i < lens.len() ==> lens[i] <= max_len
    &&& exists|order: Seq<usize>|
        is_stable_order(freq, order) && pm_code_lengths(freq, order, max_len, widen(lens))
}

/// Package-merge code lengths, each at most `max_len`, narrowed to bytes.
pub fn length_limited_lengths(freq: &[u64], max_len: u32) -> (r: Result<Vec<u8>, PmError>)
    requires
        max_len < usize::BITS,
        freq.len() <= usize::MAX / 2,
        max_len <= 32 ==> pm_weights_fit(freq@, max_len as nat),
    ensures
        freq.len() == 0 ==> r == Err::<Vec<u8>, PmError>(PmError::NoSymbols),
        freq.len() > 0 && freq.len() > pow2(max_len as nat) ==> r == Err::<Vec<u8>, PmError>(
            PmError::MaxLenTooSmall,
        ),
        freq.len() > 0 && freq.len() <= pow2(max_len as nat) && max_len > 32 ==> r == Err::<
            Vec<u8>,
            PmError,
        >(PmError::MaxLenTooLarge),
        freq.len() > 0 && freq.len() <= pow2(max_len as nat) && max_len <= 32 ==> (r matches Ok(
            lens,
        ) && limited_lengths_of(freq@, max_len as nat, lens@)),
{
    let v = match package_merge(freq, max_len) {
        Ok(v) => v,
        Err(e) => {
            return Err(e);
        },
    };
    let mut out: Vec<u8> = Vec::with_capacity(v.len());
    let mut i = 0usize;
    while i < v.len()
        invariant
            i <= v.len(),
            out.len() == i,
            max_len <= 32 || v.len() == 0,
            forall|k: int| 0 <= k < v.len() ==> v[k] <= max_len,
            forall|k: int| 0 <= k < i ==> out[k] as u32 == v[k],
        decreases v.len() - i,
    {
        let x = if v[i] < max_len {
            v[i]
        } else {
            max_len
        };
        out.push(x as u8);
        i = i + 1;
    }
    proof {
        assert(widen(out@) =~= v@);
        if freq.len() > 0 && freq.len() <= pow2(max_len as nat) && max_len <= 32 {
            let order = choose|order: Seq<usize>|
                is_stable_order(freq@, order) && pm_code_lengths(
                    freq@,
                    order,
                    max_len as nat,
                    v@,
                );
            assert(is_stable_order(freq@, order) && pm_code_lengths(
                freq@,
                order,
                max_len as nat,
                widen(out@),
            ));
            assert(out@.len() == freq@.len());
            assert forall|i: int| 0 <= i < out@.len() implies out@[i] <= max_len as nat by {
                assert(out[i] as u32 == v[i]);
                assert(v[i] <= max_len);
            }
            assert(limited_lengths_of(freq@, max_len as nat, out@));
        }
    }
    Ok(out)
}

/// With two or more symbols, every length-limited code length is at least one bit.
pub proof fn lemma_limited_positive(freq: Seq<u64>, max_len: nat, lens: Seq<u8>, i: int)
    requires
        limited_lengths_of(freq, max_len, lens),
        freq.len() >= 2,
        freq.len() <= pow2(max_len),
        0 <= i < freq.len(),
    ensures
        lens[i] >= 1,
{
    let order = choose|order: Seq<usize>|
        is_stable_order(freq, order) && pm_code_lengths(freq, order, max_len, widen(lens));
    lemma_order_covers(freq, order, i);
    let j = choose|j: int| 0 <= j < order.len() && order[j] == i;
    lemma_pm_lengths_positive(freq, order, max_len, j);
    assert(widen(lens)[order[j] as int] == lens[i] as u32);
}

/// Length-limited code lengths satisfy Kraft's inequality: canonical codes of these lengths
/// form a prefix code.
pub proof fn lemma_limited_kraft(freq: Seq<u64>, max_len: nat, lens: Seq<u8>)
    requires
        limited_lengths_of(freq, max_len, lens),
        1 <= freq.len() <= pow2(max_len),
    ensures
        kraft_sum(widen(lens), max_len) <= pow2(max_len),
{
    let order = choose|order: Seq<usize>|
        is_stable_order(freq, order) && pm_code_lengths(freq, order, max_len, widen(lens));
    lemma_pm_kraft(freq, order, max_len, widen(lens));
}

/// `limited_lengths_of` names one set of lengths only.
pub proof fn lemma_limited_lengths_unique(freq: Seq<u64>, max_len: nat, a: Seq<u8>, b: Seq<u8>)
    requires
        limited_lengths_of(freq, max_len, a),
        limited_lengths_of(freq, max_len, b),
    ensures
        a == b,
{
    let oa = choose|order: Seq<usize>| is_stable_order(freq, order) && pm_code_lengths(freq, order, max_len, widen(a));
    let ob = choose|order: Seq<usize>| is_stable_order(freq, order) && pm_code_lengths(freq, order, max_len, widen(b));
    lemma_stable_order_unique(freq, oa, ob);
    lemma_pm_code_lengths_unique(freq, oa, max_len, widen(a), widen(b));
    assert forall|i: int| 0 <= i < a.len() implies a[i] == b[i] by {
        assert(widen(a)[i] == widen(b)[i]);
    }
    assert(a =~= b);
}

} // verus!
