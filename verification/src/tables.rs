use vstd::arithmetic::power2::{lemma2_to64, pow2};
use vstd::prelude::*;

verus! {

pub const LENGTH_BASE: [u16; 29] = [
    3, 4, 5, 6, 7, 8, 9, 10, 11, 13, 15, 17, 19, 23, 27, 31, 35, 43, 51, 59, 67, 83, 99, 115,
    131, 163, 195, 227, 258,
];

pub const LENGTH_EXTRA: [u8; 29] = [
    0, 0, 0, 0, 0, 0, 0, 0, 1, 1, 1, 1, 2, 2, 2, 2, 3, 3, 3, 3, 4, 4, 4, 4, 5, 5, 5, 5, 0,
];

pub const DIST_BASE: [u16; 30] = [
    1, 2, 3, 4, 5, 7, 9, 13, 17, 25, 33, 49, 65, 97, 129, 193, 257, 385, 513, 769, 1025, 1537,
    2049, 3073, 4097, 6145, 8193, 12289, 16385, 24577,
];

pub const DIST_EXTRA: [u8; 30] = [
    0, 0, 0, 0, 1, 1, 2, 2, 3, 3, 4, 4, 5, 5, 6, 6, 7, 7, 8, 8, 9, 9, 10, 10, 11, 11, 12, 12,
    13, 13,
];

/// Base match length of each length symbol (symbol 257 + index).
pub open spec fn length_base_seq() -> Seq<u16> {
    seq![
        3u16, 4, 5, 6, 7, 8, 9, 10, 11, 13, 15, 17, 19, 23, 27, 31, 35, 43, 51, 59, 67, 83, 99,
        115, 131, 163, 195, 227, 258,
    ]
}

/// Extra bits that follow each length symbol.
pub open spec fn length_extra_seq() -> Seq<u8> {
    seq![
        0u8, 0, 0, 0, 0, 0, 0, 0, 1, 1, 1, 1, 2, 2, 2, 2, 3, 3, 3, 3, 4, 4, 4, 4, 5, 5, 5, 5, 0,
    ]
}

/// Base distance of each distance symbol.
pub open spec fn dist_base_seq() -> Seq<u16> {
    seq![
        1u16, 2, 3, 4, 5, 7, 9, 13, 17, 25, 33, 49, 65, 97, 129, 193, 257, 385, 513, 769, 1025,
        1537, 2049, 3073, 4097, 6145, 8193, 12289, 16385, 24577,
    ]
}

/// Extra bits that follow each distance symbol.
pub open spec fn dist_extra_seq() -> Seq<u8> {
    seq![
        0u8, 0, 0, 0, 1, 1, 2, 2, 3, 3, 4, 4, 5, 5, 6, 6, 7, 7, 8, 8, 9, 9, 10, 10, 11, 11, 12,
        12, 13, 13,
    ]
}

/// Length symbol index `s` (symbol `257 + s`) is the one DEFLATE assigns to match length `len`:
/// the last symbol whose base does not exceed `len`.
pub open spec fn is_length_index(len: int, s: int) -> bool {
    &&& 0 <= s < 29
    &&& length_base_seq()[s] <= len
    &&& forall|t: int| s < t < 29 ==> length_base_seq()[t] > len
}

/// Distance symbol `s` is the one DEFLATE assigns to distance `dist`.
pub open spec fn is_dist_index(dist: int, s: int) -> bool {
    &&& 0 <= s < 30
    &&& dist_base_seq()[s] <= dist
    &&& forall|t: int| s < t < 30 ==> dist_base_seq()[t] > dist
}

/// The (symbol, extra-bit count) pair of a match length, and the extra value fits in the extra bits.
pub open spec fn length_code_spec(len: int, r: (u16, u8)) -> bool {
    &&& 257 <= r.0 < 286
    &&& is_length_index(len, r.0 - 257)
    &&& r.1 == length_extra_seq()[r.0 - 257]
    &&& len - length_base_seq()[r.0 - 257] < pow2(r.1 as nat)
}

/// The (symbol, extra-bit count) pair of a distance, and the extra value fits in the extra bits.
pub open spec fn distance_code_spec(dist: int, r: (u16, u8)) -> bool {
    &&& r.0 < 30
    &&& is_dist_index(dist, r.0 as int)
    &&& r.1 == dist_extra_seq()[r.0 as int]
    &&& dist - dist_base_seq()[r.0 as int] < pow2(r.1 as nat)
}


/// The length symbol index of a match length (meaningful for lengths 3..=258).
pub open spec fn length_index(len: int) -> int {
    choose|s: int| is_length_index(len, s)
}

/// The distance symbol of a distance (meaningful for distances 1..=32768).
pub open spec fn dist_index(dist: int) -> int {
    choose|s: int| is_dist_index(dist, s)
}

/// At most one symbol index fits a length, so `length_index` names it.
pub proof fn lemma_length_index_unique(len: int, s: int)
    requires
        is_length_index(len, s),
    ensures
        length_index(len) == s,
{
    let c = length_index(len);
    assert(is_length_index(len, c));
    if c < s {
        assert(length_base_seq()[s] > len);
    } else if s < c {
        assert(length_base_seq()[c] > len);
    }
}

/// At most one symbol fits a distance, so `dist_index` names it.
pub proof fn lemma_dist_index_unique(dist: int, s: int)
    requires
        is_dist_index(dist, s),
    ensures
        dist_index(dist) == s,
{
    let c = dist_index(dist);
    assert(is_dist_index(dist, c));
    if c < s {
        assert(dist_base_seq()[s] > dist);
    } else if s < c {
        assert(dist_base_seq()[c] > dist);
    }
}

proof fn lemma_length_index_search(len: int, s: int)
    requires
        3 <= len <= 258,
        0 <= s < 29,
        forall|t: int| s < t < 29 ==> length_base_seq()[t] > len,
    ensures
        0 <= length_index(len) < 29,
        is_length_index(len, length_index(len)),
    decreases s,
{
    if length_base_seq()[s] <= len {
        lemma_length_index_unique(len, s);
    } else {
        assert(s != 0);
        lemma_length_index_search(len, s - 1);
    }
}

proof fn lemma_dist_index_search(dist: int, s: int)
    requires
        1 <= dist <= 32768,
        0 <= s < 30,
        forall|t: int| s < t < 30 ==> dist_base_seq()[t] > dist,
    ensures
        0 <= dist_index(dist) < 30,
        is_dist_index(dist, dist_index(dist)),
    decreases s,
{
    if dist_base_seq()[s] <= dist {
        lemma_dist_index_unique(dist, s);
    } else {
        assert(s != 0);
        lemma_dist_index_search(dist, s - 1);
    }
}

/// Every match length 3..=258 has a length symbol index.
pub proof fn lemma_length_index_range(len: int)
    requires
        3 <= len <= 258,
    ensures
        0 <= length_index(len) < 29,
        is_length_index(len, length_index(len)),
{
    lemma_length_index_search(len, 28);
}

/// Every distance 1..=32768 has a distance symbol.
pub proof fn lemma_dist_index_range(dist: int)
    requires
        1 <= dist <= 32768,
    ensures
        0 <= dist_index(dist) < 30,
        is_dist_index(dist, dist_index(dist)),
{
    lemma_dist_index_search(dist, 29);
}


/// Length symbols carry at most 5 extra bits, distance symbols at most 13.
pub proof fn lemma_extra_bounds()
    ensures
        forall|s: int| 0 <= s < 29 ==> #[trigger] length_extra_seq()[s] <= 5,
        forall|s: int| 0 <= s < 30 ==> #[trigger] dist_extra_seq()[s] <= 13,
{
    assert forall|s: int| 0 <= s < 29 implies #[trigger] length_extra_seq()[s] <= 5 by {
        if s < 10 {
        } else if s < 20 {
        } else {
        }
    }
    assert forall|s: int| 0 <= s < 30 implies #[trigger] dist_extra_seq()[s] <= 13 by {
        if s < 10 {
        } else if s < 20 {
        } else {
        }
    }
}

pub proof fn lemma_tables_agree()
    ensures
        LENGTH_BASE@ == length_base_seq(),
        LENGTH_EXTRA@ == length_extra_seq(),
        DIST_BASE@ == dist_base_seq(),
        DIST_EXTRA@ == dist_extra_seq(),
{
    assert(LENGTH_BASE@ =~= length_base_seq());
    assert(LENGTH_EXTRA@ =~= length_extra_seq());
    assert(DIST_BASE@ =~= dist_base_seq());
    assert(DIST_EXTRA@ =~= dist_extra_seq());
}

/// Each length range reaches the next symbol's base.
proof fn lemma_length_ranges_cover(s: int)
    requires
        0 <= s < 28,
    ensures
        length_base_seq()[s] + pow2(length_extra_seq()[s] as nat) >= length_base_seq()[s + 1],
        length_base_seq()[s] < length_base_seq()[s + 1],
{
    lemma2_to64();
    let b = length_base_seq();
    let e = length_extra_seq();
    if s < 8 {
        assert(b[s] + pow2(e[s] as nat) >= b[s + 1]);
    } else if s < 16 {
        assert(b[s] + pow2(e[s] as nat) >= b[s + 1]);
    } else if s < 24 {
        assert(b[s] + pow2(e[s] as nat) >= b[s + 1]);
    } else {
        assert(b[s] + pow2(e[s] as nat) >= b[s + 1]);
    }
}

/// Each distance range reaches the next symbol's base; the last reaches 32768.
proof fn lemma_dist_ranges_cover(s: int)
    requires
        0 <= s < 30,
    ensures
        s < 29 ==> dist_base_seq()[s] + pow2(dist_extra_seq()[s] as nat) >= dist_base_seq()[s
            + 1],
        s < 29 ==> dist_base_seq()[s] < dist_base_seq()[s + 1],
        s == 29 ==> dist_base_seq()[s] + pow2(dist_extra_seq()[s] as nat) > 32768,
{
    lemma2_to64();
    let b = dist_base_seq();
    let e = dist_extra_seq();
    if s < 10 {
        assert(s < 29 ==> b[s] + pow2(e[s] as nat) >= b[s + 1]);
    } else if s < 20 {
        assert(s < 29 ==> b[s] + pow2(e[s] as nat) >= b[s + 1]);
    } else {
        assert(s < 29 ==> b[s] + pow2(e[s] as nat) >= b[s + 1]);
    }
}

/// Map a match length (3..=258) to its DEFLATE symbol (257..=285) and extra-bit count.
pub fn length_code(len: usize) -> (r: (u16, u8))
    requires
        3 <= len <= 258,
    ensures
        length_code_spec(len as int, r),
{
    proof {
        lemma_tables_agree();
    }
    let mut s: usize = 28;
    loop
        invariant
            s < 29,
            3 <= len <= 258,
            LENGTH_BASE@ == length_base_seq(),
            LENGTH_EXTRA@ == length_extra_seq(),
            forall|t: int| s < t < 29 ==> length_base_seq()[t] > len,
        decreases s,
    {
        if LENGTH_BASE[s] as usize <= len {
            proof {
                lemma2_to64();
                if s < 28 {
                    lemma_length_ranges_cover(s as int);
                    assert(length_base_seq()[s + 1] > len);
                } else {
                    assert(len == 258);
                }
            }
            return ((257 + s) as u16, LENGTH_EXTRA[s]);
        }
        proof {
            if s == 0 {
                assert(length_base_seq()[0] == 3);
            }
        }
        s = s - 1;
    }
}

/// Map a distance (1..=32768) to its DEFLATE distance symbol (0..=29) and extra-bit count.
pub fn distance_code(dist: usize) -> (r: (u16, u8))
    requires
        1 <= dist <= 32768,
    ensures
        distance_code_spec(dist as int, r),
{
    proof {
        lemma_tables_agree();
    }
    let mut s: usize = 29;
    loop
        invariant
            s < 30,
            1 <= dist <= 32768,
            DIST_BASE@ == dist_base_seq(),
            DIST_EXTRA@ == dist_extra_seq(),
            forall|t: int| s < t < 30 ==> dist_base_seq()[t] > dist,
        decreases s,
    {
        if DIST_BASE[s] as usize <= dist {
            proof {
                lemma_dist_ranges_cover(s as int);
                if s < 29 {
                    assert(dist_base_seq()[s + 1] > dist);
                }
            }
            return (s as u16, DIST_EXTRA[s]);
        }
        proof {
            if s == 0 {
                assert(dist_base_seq()[0] == 1);
            }
        }
        s = s - 1;
    }
}

} // verus!
