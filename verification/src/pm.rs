//! Length-limited Huffman code lengths by the package-merge algorithm (Larmore and Hirschberg).
use vstd::arithmetic::power2::{lemma2_to64, lemma_pow2_adds, lemma_pow2_pos, pow2};
use vstd::bits::{lemma_usize_pow2_no_overflow, lemma_usize_shl_is_mul};
use vstd::prelude::*;
use vstd::set_lib::{lemma_int_range, lemma_subset_equality, set_int_range};

use crate::huffman::bit32;
use crate::order::sort_indices_by_key;
use crate::perm::{is_perm, lemma_perm_sum, sum_nat};

verus! {

#[derive(Copy, Clone, PartialEq, Eq, Debug)]
pub enum PmError {
    NoSymbols,
    MaxLenTooSmall,
    MaxLenTooLarge,
}

// ---------------------------------------------------------------------------
// The mathematical model
// ---------------------------------------------------------------------------

/// `order` lists the symbol indices by nondecreasing frequency, equal frequencies by index.
pub open spec fn is_stable_order(freq: Seq<u64>, order: Seq<usize>) -> bool {
    &&& order.len() == freq.len()
    &&& forall|j: int| 0 <= j < order.len() ==> (#[trigger] order[j]) < freq.len()
    &&& forall|i: int, j: int| 0 <= i < j < order.len() ==> order[i] != order[j]
    &&& forall|i: int, j: int|
        0 <= i < j < order.len() ==> (freq[order[i] as int] < freq[order[j] as int] || (freq[order[i] as int]
            == freq[order[j] as int] && order[i] < order[j]))
}

/// The frequency of symbol `i`.
pub open spec fn freq_at(freq: Seq<u64>, i: usize) -> u64 {
    freq[i as int]
}

/// Merge two item lists, taking from `a` only when its head weighs strictly less.
pub open spec fn merge_items(a: Seq<(int, bool)>, b: Seq<(int, bool)>) -> Seq<(int, bool)>
    decreases a.len() + b.len(),
{
    if a.len() == 0 {
        b
    } else if b.len() == 0 {
        a
    } else if a[0].0 < b[0].0 {
        seq![a[0]] + merge_items(a.drop_first(), b)
    } else {
        seq![b[0]] + merge_items(a, b.drop_first())
    }
}

/// The leaves: one item per symbol, in frequency order.
pub open spec fn pm_leaves(freq: Seq<u64>, order: Seq<usize>) -> Seq<(int, bool)> {
    Seq::new(order.len(), |j: int| (freq[order[j] as int] as int, false))
}

/// Packages: consecutive items paired up, an odd last item dropped.
pub open spec fn pm_pairs(l: Seq<(int, bool)>) -> Seq<(int, bool)> {
    Seq::new(l.len() / 2, |k: int| (l[2 * k].0 + l[2 * k + 1].0, true))
}

/// The item list of level `d`: the packages of level `d - 1` merged with the leaves.
pub open spec fn pm_level(freq: Seq<u64>, order: Seq<usize>, d: nat) -> Seq<(int, bool)>
    decreases d,
{
    if d == 0 {
        merge_items(pm_pairs(Seq::empty()), pm_leaves(freq, order))
    } else {
        merge_items(pm_pairs(pm_level(freq, order, (d - 1) as nat)), pm_leaves(freq, order))
    }
}

/// The level that level `d` packages from (none for level 0).
pub open spec fn pm_prev(freq: Seq<u64>, order: Seq<usize>, d: nat) -> Seq<(int, bool)> {
    if d == 0 {
        Seq::empty()
    } else {
        pm_level(freq, order, (d - 1) as nat)
    }
}

/// Number of packages among the first `i` items.
pub open spec fn pairs_in_prefix(s: Seq<(int, bool)>, i: int) -> nat
    decreases i,
{
    if i <= 0 {
        0
    } else {
        pairs_in_prefix(s, i - 1) + if s[i - 1].1 {
            1nat
        } else {
            0nat
        }
    }
}

/// How many items of level `d` are selected: `2n - 2` at the top level, and below it twice
/// the number of packages selected one level up.
pub open spec fn pm_take(freq: Seq<u64>, order: Seq<usize>, m: nat, d: nat) -> int
    decreases m - d,
{
    if d + 1 >= m {
        2 * freq.len() - 2
    } else {
        2 * pairs_in_prefix(
            pm_level(freq, order, d + 1),
            pm_take(freq, order, m, d + 1),
        ) as int
    }
}

/// Whether leaf `j` (the `j`-th symbol in frequency order) is selected at level `d`.
pub open spec fn pm_selected(freq: Seq<u64>, order: Seq<usize>, m: nat, d: nat, j: int) -> bool {
    j < pm_take(freq, order, m, d) - pairs_in_prefix(
        pm_level(freq, order, d),
        pm_take(freq, order, m, d),
    )
}

/// The code length of leaf `j`: the number of levels from `d` up to `m - 1` that select it.
pub open spec fn pm_len_from(freq: Seq<u64>, order: Seq<usize>, m: nat, d: nat, j: int) -> nat
    decreases m - d,
{
    if d >= m {
        0
    } else {
        pm_len_from(freq, order, m, d + 1, j) + if pm_selected(freq, order, m, d, j) {
            1nat
        } else {
            0nat
        }
    }
}

/// The code lengths that package-merge assigns: symbol `order[j]` gets the number of levels
/// that select leaf `j`.
pub open spec fn pm_code_lengths(freq: Seq<u64>, order: Seq<usize>, m: nat, lens: Seq<u32>) -> bool {
    &&& lens.len() == freq.len()
    &&& forall|j: int| 0 <= j < order.len() ==> lens[order[j] as int] == pm_len_from(freq, order, m, 0, j)
}

/// The sum of all frequencies.
pub open spec fn freq_total(freq: Seq<u64>) -> nat {
    sum_nat(Seq::new(freq.len(), |i: int| freq[i] as nat))
}

/// Package sums stay within `u64`: either every frequency times `2^(max_len - 1)` fits, or
/// `max_len - 1` times the sum of all frequencies does.
pub open spec fn pm_weights_fit(freq: Seq<u64>, max_len: nat) -> bool {
    ||| max_len == 0
    ||| forall|i: int| 0 <= i < freq.len() ==> freq[i] * pow2((max_len - 1) as nat) <= u64::MAX
    ||| (max_len - 1) * freq_total(freq) <= u64::MAX
}

/// The total weight of an item list.
spec fn item_total(s: Seq<(int, bool)>) -> int
    decreases s.len(),
{
    if s.len() == 0 {
        0
    } else {
        item_total(s.drop_last()) + s.last().0
    }
}

/// No item weighs less than nothing.
spec fn weights_nonneg(s: Seq<(int, bool)>) -> bool {
    forall|k: int| 0 <= k < s.len() ==> 0 <= (#[trigger] s[k]).0
}

// ---------------------------------------------------------------------------
// Lemmas
// ---------------------------------------------------------------------------

proof fn lemma_merge_len(a: Seq<(int, bool)>, b: Seq<(int, bool)>)
    ensures
        merge_items(a, b).len() == a.len() + b.len(),
    decreases a.len() + b.len(),
{
    if a.len() > 0 && b.len() > 0 {
        if a[0].0 < b[0].0 {
            lemma_merge_len(a.drop_first(), b);
        } else {
            lemma_merge_len(a, b.drop_first());
        }
    }
}

proof fn lemma_pip_cons(x: (int, bool), r: Seq<(int, bool)>, i: int)
    requires
        1 <= i <= r.len() + 1,
    ensures
        pairs_in_prefix(seq![x] + r, i) == pairs_in_prefix(r, i - 1) + if x.1 {
            1nat
        } else {
            0nat
        },
    decreases i,
{
    let c = seq![x] + r;
    if i > 1 {
        lemma_pip_cons(x, r, i - 1);
        assert(c[i - 1] == r[i - 2]);
        assert(pairs_in_prefix(c, i) == pairs_in_prefix(c, i - 1) + if c[i - 1].1 {
            1nat
        } else {
            0nat
        });
        assert(pairs_in_prefix(r, i - 1) == pairs_in_prefix(r, i - 2) + if r[i - 2].1 {
            1nat
        } else {
            0nat
        });
    } else {
        assert(c[0] == x);
        assert(pairs_in_prefix(c, 0) == 0);
        assert(pairs_in_prefix(r, 0) == 0);
        assert(pairs_in_prefix(c, 1) == pairs_in_prefix(c, 0) + if c[0].1 {
            1nat
        } else {
            0nat
        });
    }
}

proof fn lemma_pip_bounds(s: Seq<(int, bool)>, i: int, j: int)
    requires
        0 <= i <= j,
    ensures
        pairs_in_prefix(s, i) <= pairs_in_prefix(s, j),
        pairs_in_prefix(s, j) - pairs_in_prefix(s, i) <= j - i,
    decreases j - i,
{
    if i < j {
        lemma_pip_bounds(s, i, j - 1);
    }
}

proof fn lemma_pip_le(s: Seq<(int, bool)>, i: int)
    requires
        0 <= i,
    ensures
        pairs_in_prefix(s, i) <= i,
{
    lemma_pip_bounds(s, 0, i);
}

/// In a merge of packages `a` with leaves `b`, item `i` is package number `pairs_in_prefix`
/// or leaf number `i - pairs_in_prefix`.
proof fn lemma_merge_items_index(a: Seq<(int, bool)>, b: Seq<(int, bool)>, i: int)
    requires
        forall|k: int| 0 <= k < a.len() ==> (#[trigger] a[k]).1,
        forall|k: int| 0 <= k < b.len() ==> !(#[trigger] b[k]).1,
        0 <= i < a.len() + b.len(),
    ensures
        merge_items(a, b).len() == a.len() + b.len(),
        ({
            let c = merge_items(a, b);
            let p = pairs_in_prefix(c, i) as int;
            if c[i].1 {
                p < a.len() && c[i] == a[p]
            } else {
                i - p < b.len() && c[i] == b[i - p]
            }
        }),
    decreases a.len() + b.len(),
{
    lemma_merge_len(a, b);
    let c = merge_items(a, b);
    if a.len() == 0 {
        assert(pairs_in_prefix(b, i) == 0) by {
            lemma_pip_all_leaves(b, i);
        }
    } else if b.len() == 0 {
        assert(pairs_in_prefix(a, i) == i) by {
            lemma_pip_all_pairs(a, i);
        }
    } else if a[0].0 < b[0].0 {
        let a1 = a.drop_first();
        let r = merge_items(a1, b);
        assert(c == seq![a[0]] + r);
        assert forall|k: int| 0 <= k < a1.len() implies (#[trigger] a1[k]).1 by {
            assert(a1[k] == a[k + 1]);
        }
        if i > 0 {
            lemma_merge_items_index(a1, b, i - 1);
            lemma_pip_cons(a[0], r, i);
            assert(c[i] == r[i - 1]);
            let p1 = pairs_in_prefix(r, i - 1) as int;
            if r[i - 1].1 {
                assert(a[p1 + 1] == a1[p1]);
            }
        } else {
            assert(c[0] == a[0]);
            assert(pairs_in_prefix(c, 0) == 0);
        }
    } else {
        let b1 = b.drop_first();
        let r = merge_items(a, b1);
        assert(c == seq![b[0]] + r);
        assert forall|k: int| 0 <= k < b1.len() implies !(#[trigger] b1[k]).1 by {
            assert(b1[k] == b[k + 1]);
        }
        if i > 0 {
            lemma_merge_items_index(a, b1, i - 1);
            lemma_pip_cons(b[0], r, i);
            assert(c[i] == r[i - 1]);
            let p1 = pairs_in_prefix(r, i - 1) as int;
            lemma_pip_le(r, i - 1);
            if !r[i - 1].1 {
                let q = i - 1 - p1;
                assert(0 <= q < b1.len());
                assert(b1[q] == b[q + 1]);
            }
        } else {
            assert(c[0] == b[0]);
            assert(pairs_in_prefix(c, 0) == 0);
        }
    }
}

proof fn lemma_pip_all_leaves(b: Seq<(int, bool)>, i: int)
    requires
        forall|k: int| 0 <= k < b.len() ==> !(#[trigger] b[k]).1,
        0 <= i <= b.len(),
    ensures
        pairs_in_prefix(b, i) == 0,
    decreases i,
{
    if i > 0 {
        lemma_pip_all_leaves(b, i - 1);
    }
}

proof fn lemma_pip_all_pairs(a: Seq<(int, bool)>, i: int)
    requires
        forall|k: int| 0 <= k < a.len() ==> (#[trigger] a[k]).1,
        0 <= i <= a.len(),
    ensures
        pairs_in_prefix(a, i) == i,
    decreases i,
{
    if i > 0 {
        lemma_pip_all_pairs(a, i - 1);
    }
}

/// The whole merge holds exactly `a.len()` packages.
proof fn lemma_merge_total_pairs(a: Seq<(int, bool)>, b: Seq<(int, bool)>)
    requires
        forall|k: int| 0 <= k < a.len() ==> (#[trigger] a[k]).1,
        forall|k: int| 0 <= k < b.len() ==> !(#[trigger] b[k]).1,
    ensures
        pairs_in_prefix(merge_items(a, b), (a.len() + b.len()) as int) == a.len(),
    decreases a.len() + b.len(),
{
    lemma_merge_len(a, b);
    let c = merge_items(a, b);
    if a.len() == 0 {
        lemma_pip_all_leaves(b, b.len() as int);
    } else if b.len() == 0 {
        lemma_pip_all_pairs(a, a.len() as int);
    } else if a[0].0 < b[0].0 {
        let r = merge_items(a.drop_first(), b);
        lemma_merge_total_pairs(a.drop_first(), b);
        lemma_pip_cons(a[0], r, (a.len() + b.len()) as int);
    } else {
        let r = merge_items(a, b.drop_first());
        lemma_merge_total_pairs(a, b.drop_first());
        lemma_pip_cons(b[0], r, (a.len() + b.len()) as int);
    }
}

proof fn lemma_level_facts(freq: Seq<u64>, order: Seq<usize>, d: nat)
    ensures
        pm_level(freq, order, d).len() == pm_leaves(freq, order).len() + if d == 0 {
            0
        } else {
            pm_level(freq, order, (d - 1) as nat).len() / 2
        },
        pm_level(freq, order, d) == merge_items(
            pm_pairs(
                if d == 0 {
                    Seq::<(int, bool)>::empty()
                } else {
                    pm_level(freq, order, (d - 1) as nat)
                },
            ),
            pm_leaves(freq, order),
        ),
        pairs_in_prefix(pm_level(freq, order, d), pm_level(freq, order, d).len() as int)
            == if d == 0 {
            0
        } else {
            pm_level(freq, order, (d - 1) as nat).len() / 2
        },
{
    let prev = if d == 0 {
        Seq::<(int, bool)>::empty()
    } else {
        pm_level(freq, order, (d - 1) as nat)
    };
    let a = pm_pairs(prev);
    let b = pm_leaves(freq, order);
    lemma_merge_len(a, b);
    lemma_merge_total_pairs(a, b);
}

/// Each level holds between `n` and `2n - 1` items.
proof fn lemma_level_len_bounds(freq: Seq<u64>, order: Seq<usize>, d: nat)
    requires
        order.len() >= 1,
    ensures
        order.len() <= pm_level(freq, order, d).len() <= 2 * order.len() - 1,
    decreases d,
{
    lemma_level_facts(freq, order, d);
    if d > 0 {
        lemma_level_len_bounds(freq, order, (d - 1) as nat);
    }
}

/// The shortfall `2n - 1 - |level d|` times `2^d` never exceeds `n - 1`.
proof fn lemma_level_len_deficit(freq: Seq<u64>, order: Seq<usize>, d: nat)
    requires
        order.len() >= 1,
    ensures
        (2 * order.len() - 1 - pm_level(freq, order, d).len()) * pow2(d) <= order.len() - 1,
    decreases d,
{
    lemma_level_facts(freq, order, d);
    lemma_level_len_bounds(freq, order, d);
    let n = order.len() as int;
    if d == 0 {
        lemma2_to64();
    } else {
        lemma_level_len_deficit(freq, order, (d - 1) as nat);
        lemma_level_len_bounds(freq, order, (d - 1) as nat);
        let lp = pm_level(freq, order, (d - 1) as nat).len() as int;
        let l = pm_level(freq, order, d).len() as int;
        assert(l == n + lp / 2);
        let dp = 2 * n - 1 - lp;
        let dd = 2 * n - 1 - l;
        assert(2 * dd <= dp);
        lemma_pow2_adds((d - 1) as nat, 1);
        lemma2_to64();
        assert(pow2(d) == pow2((d - 1) as nat) * 2);
        lemma_pow2_pos((d - 1) as nat);
        assert(dd * pow2(d) == (2 * dd) * pow2((d - 1) as nat)) by (nonlinear_arith)
            requires
                pow2(d) == pow2((d - 1) as nat) * 2,
        ;
        assert((2 * dd) * pow2((d - 1) as nat) <= dp * pow2((d - 1) as nat)) by (nonlinear_arith)
            requires
                2 * dd <= dp,
                pow2((d - 1) as nat) > 0,
        ;
    }
}

/// Items are packages of level `d - 1` items or leaves: weights never exceed `2^d` times the
/// largest frequency.
proof fn lemma_level_weights(freq: Seq<u64>, order: Seq<usize>, d: nat, mx: int)
    requires
        is_stable_order(freq, order),
        forall|i: int| 0 <= i < freq.len() ==> freq[i] <= mx,
    ensures
        forall|k: int|
            0 <= k < pm_level(freq, order, d).len() ==> 0 <= (#[trigger] pm_level(
                freq,
                order,
                d,
            )[k]).0 <= mx * pow2(d),
    decreases d,
{
    lemma_level_facts(freq, order, d);
    lemma_pow2_pos(d);
    let prev = if d == 0 {
        Seq::<(int, bool)>::empty()
    } else {
        pm_level(freq, order, (d - 1) as nat)
    };
    let a = pm_pairs(prev);
    let b = pm_leaves(freq, order);
    if d > 0 {
        lemma_level_weights(freq, order, (d - 1) as nat, mx);
        lemma_pow2_adds((d - 1) as nat, 1);
        lemma2_to64();
        lemma_pow2_pos((d - 1) as nat);
    }
    assert forall|k: int| 0 <= k < pm_level(freq, order, d).len() implies 0 <= (
    #[trigger] pm_level(freq, order, d)[k]).0 <= mx * pow2(d) by {
        lemma_merge_items_index(a, b, k);
        let c = pm_level(freq, order, d);
        let p = pairs_in_prefix(c, k) as int;
        if c[k].1 {
            assert(d > 0);
            let x = prev[2 * p].0;
            let y = prev[2 * p + 1].0;
            assert(0 <= x <= mx * pow2((d - 1) as nat));
            assert(0 <= y <= mx * pow2((d - 1) as nat));
            assert(x + y <= mx * pow2(d)) by (nonlinear_arith)
                requires
                    x <= mx * pow2((d - 1) as nat),
                    y <= mx * pow2((d - 1) as nat),
                    pow2(d) == pow2((d - 1) as nat) * 2,
            ;
        } else {
            let j = k - p;
            lemma_pip_le(c, k);
            assert(0 <= j < order.len());
            assert(c[k] == b[j]);
            assert(order[j] < freq.len());
            assert(0 <= freq[order[j] as int] <= mx);
            assert(mx >= 0);
            assert(mx <= mx * pow2(d)) by (nonlinear_arith)
                requires
                    pow2(d) > 0,
                    mx >= 0,
            ;
        }
    }
}

proof fn lemma_item_total_front(s: Seq<(int, bool)>)
    requires
        s.len() > 0,
    ensures
        item_total(s) == s[0].0 + item_total(s.drop_first()),
    decreases s.len(),
{
    if s.len() == 1 {
        assert(s.drop_last() =~= Seq::<(int, bool)>::empty());
        assert(s.drop_first() =~= Seq::<(int, bool)>::empty());
    } else {
        lemma_item_total_front(s.drop_last());
        assert(s.drop_first().drop_last() =~= s.drop_last().drop_first());
        assert(s.drop_first().last() == s.last());
    }
}

proof fn lemma_item_total_nonneg(s: Seq<(int, bool)>)
    requires
        weights_nonneg(s),
    ensures
        item_total(s) >= 0,
    decreases s.len(),
{
    if s.len() > 0 {
        lemma_item_total_nonneg(s.drop_last());
        assert(s.last() == s[s.len() - 1]);
    }
}

/// No item of a list of nonnegative weights outweighs the whole list.
proof fn lemma_item_le_total(s: Seq<(int, bool)>, k: int)
    requires
        weights_nonneg(s),
        0 <= k < s.len(),
    ensures
        s[k].0 <= item_total(s),
    decreases s.len(),
{
    assert(s.last() == s[s.len() - 1]);
    if k == s.len() - 1 {
        lemma_item_total_nonneg(s.drop_last());
    } else {
        lemma_item_le_total(s.drop_last(), k);
    }
}

/// Merging keeps every item: the total is the sum of both totals.
proof fn lemma_item_total_merge(a: Seq<(int, bool)>, b: Seq<(int, bool)>)
    ensures
        item_total(merge_items(a, b)) == item_total(a) + item_total(b),
    decreases a.len() + b.len(),
{
    if a.len() == 0 {
    } else if b.len() == 0 {
    } else if a[0].0 < b[0].0 {
        lemma_item_total_merge(a.drop_first(), b);
        let c = merge_items(a, b);
        assert(c.drop_first() =~= merge_items(a.drop_first(), b));
        lemma_item_total_front(c);
        lemma_item_total_front(a);
    } else {
        lemma_item_total_merge(a, b.drop_first());
        let c = merge_items(a, b);
        assert(c.drop_first() =~= merge_items(a, b.drop_first()));
        lemma_item_total_front(c);
        lemma_item_total_front(b);
    }
}

/// Packages weigh no more together than the list they pair up.
proof fn lemma_item_total_pairs(l: Seq<(int, bool)>)
    requires
        weights_nonneg(l),
    ensures
        item_total(pm_pairs(l)) <= item_total(l),
    decreases l.len(),
{
    lemma_item_total_nonneg(l);
    if l.len() >= 2 {
        let r = l.subrange(2, l.len() as int);
        lemma_item_total_pairs(r);
        lemma_item_total_front(l);
        lemma_item_total_front(l.drop_first());
        assert(l.drop_first().drop_first() =~= r);
        let pl = pm_pairs(l);
        assert(pl.drop_first() =~= pm_pairs(r));
        lemma_item_total_front(pl);
    } else {
        assert(pm_pairs(l).len() == 0);
    }
}

/// The total of a list of nonnegative weights, as a sum of naturals.
proof fn lemma_item_total_sum(s: Seq<(int, bool)>)
    requires
        weights_nonneg(s),
    ensures
        item_total(s) == sum_nat(Seq::new(s.len(), |i: int| s[i].0 as nat)),
    decreases s.len(),
{
    if s.len() > 0 {
        lemma_item_total_sum(s.drop_last());
        assert(Seq::new(s.len(), |i: int| s[i].0 as nat).drop_last() =~= Seq::new(
            s.drop_last().len(),
            |i: int| s.drop_last()[i].0 as nat,
        ));
        assert(s.last() == s[s.len() - 1]);
    }
}

/// The leaves weigh as much as all frequencies together.
proof fn lemma_leaves_total(freq: Seq<u64>, order: Seq<usize>)
    requires
        is_stable_order(freq, order),
    ensures
        weights_nonneg(pm_leaves(freq, order)),
        item_total(pm_leaves(freq, order)) == freq_total(freq),
{
    let lv = pm_leaves(freq, order);
    let n = freq.len() as int;
    lemma_item_total_sum(lv);
    let v = Seq::new(n as nat, |i: int| freq[i] as nat);
    let p = Seq::new(n as nat, |j: int| order[j] as int);
    assert(is_perm(p)) by {
        assert forall|i: int, j: int| 0 <= i < j < p.len() implies p[i] != p[j] by {
            assert(order[i] != order[j]);
        }
    }
    lemma_perm_sum(v, p);
    assert(Seq::new(v.len(), |i: int| v[p[i]]) =~= Seq::new(lv.len(), |i: int| lv[i].0 as nat));
}

/// The items of level `d` weigh at most `d + 1` times all frequencies together.
proof fn lemma_level_total(freq: Seq<u64>, order: Seq<usize>, d: nat)
    requires
        is_stable_order(freq, order),
    ensures
        weights_nonneg(pm_level(freq, order, d)),
        item_total(pm_level(freq, order, d)) <= (d + 1) * freq_total(freq),
    decreases d,
{
    lemma_level_facts(freq, order, d);
    lemma_level_weights(freq, order, d, u64::MAX as int);
    lemma_leaves_total(freq, order);
    let prev = pm_prev(freq, order, d);
    lemma_item_total_merge(pm_pairs(prev), pm_leaves(freq, order));
    if d == 0 {
        assert(pm_pairs(prev).len() == 0);
    } else {
        lemma_level_total(freq, order, (d - 1) as nat);
        lemma_item_total_pairs(prev);
        assert(d * freq_total(freq) + freq_total(freq) == (d + 1) * freq_total(freq)) by (nonlinear_arith);
    }
}

/// Under `pm_weights_fit`, every package formed at level `d` (from level `d - 1`, below the
/// top level `m`) fits in a `u64`.
proof fn lemma_pairs_fit(freq: Seq<u64>, order: Seq<usize>, m: nat, d: nat)
    requires
        is_stable_order(freq, order),
        pm_weights_fit(freq, m),
        1 <= d < m,
    ensures
        forall|k: int|
            0 <= k < pm_prev(freq, order, d).len() / 2 ==> (#[trigger] pm_pairs(
                pm_prev(freq, order, d),
            )[k]).0 <= u64::MAX,
{
    let prev = pm_prev(freq, order, d);
    let pw = pow2((m - 1) as nat) as int;
    lemma_pow2_pos((m - 1) as nat);
    if forall|i: int| 0 <= i < freq.len() ==> freq[i] * pow2((m - 1) as nat) <= u64::MAX {
        let mx = u64::MAX as int / pw;
        assert forall|i: int| 0 <= i < freq.len() implies freq[i] <= mx by {
            assert(freq[i] * pow2((m - 1) as nat) <= u64::MAX);
            vstd::arithmetic::div_mod::lemma_div_is_ordered(
                freq[i] * pow2((m - 1) as nat) as int,
                u64::MAX as int,
                pw,
            );
            vstd::arithmetic::div_mod::lemma_div_by_multiple(freq[i] as int, pw);
        }
        vstd::arithmetic::div_mod::lemma_fundamental_div_mod(u64::MAX as int, pw);
        assert(mx * pw <= u64::MAX) by (nonlinear_arith)
            requires
                u64::MAX as int == pw * (u64::MAX as int / pw) + (u64::MAX as int) % pw,
                (u64::MAX as int) % pw >= 0,
                mx == u64::MAX as int / pw,
        ;
        lemma_level_weights(freq, order, (d - 1) as nat, mx);
        if (d as nat) < (m - 1) as nat {
            vstd::arithmetic::power2::lemma_pow2_strictly_increases(d as nat, (m - 1) as nat);
        }
        lemma_pow2_adds((d - 1) as nat, 1);
        lemma2_to64();
        assert forall|k: int| 0 <= k < prev.len() / 2 implies (#[trigger] pm_pairs(prev)[k]).0
            <= u64::MAX by {
            let x = prev[2 * k].0;
            let y = prev[2 * k + 1].0;
            assert(x <= mx * pow2((d - 1) as nat));
            assert(y <= mx * pow2((d - 1) as nat));
            assert(x + y <= mx * pow2(d as nat)) by (nonlinear_arith)
                requires
                    x <= mx * pow2((d - 1) as nat),
                    y <= mx * pow2((d - 1) as nat),
                    pow2(d as nat) == pow2((d - 1) as nat) * 2,
            ;
            assert(mx * pow2(d as nat) <= mx * pw) by (nonlinear_arith)
                requires
                    pow2(d as nat) <= pw,
                    mx >= 0,
            ;
        }
    } else {
        assert((m - 1) * freq_total(freq) <= u64::MAX);
        lemma_level_total(freq, order, (d - 1) as nat);
        lemma_item_total_pairs(prev);
        let pp = pm_pairs(prev);
        assert(weights_nonneg(pp)) by {
            assert forall|k: int| 0 <= k < pp.len() implies 0 <= (#[trigger] pp[k]).0 by {
                assert(0 <= prev[2 * k].0);
                assert(0 <= prev[2 * k + 1].0);
            }
        }
        assert(d * freq_total(freq) <= (m - 1) * freq_total(freq)) by (nonlinear_arith)
            requires
                d <= m - 1,
        ;
        assert forall|k: int| 0 <= k < prev.len() / 2 implies (#[trigger] pm_pairs(prev)[k]).0
            <= u64::MAX by {
            lemma_item_le_total(pp, k);
        }
    }
}

proof fn lemma_take_bounds(freq: Seq<u64>, order: Seq<usize>, m: nat, d: nat)
    requires
        is_stable_order(freq, order),
        freq.len() >= 1,
        freq.len() <= pow2(m),
        d < m,
    ensures
        0 <= pm_take(freq, order, m, d) <= pm_level(freq, order, d).len(),
    decreases m - d,
{
    lemma_level_len_bounds(freq, order, d);
    if d + 1 >= m {
        lemma_level_len_deficit(freq, order, d);
        lemma_pow2_adds(d, 1);
        lemma2_to64();
        lemma_pow2_pos(d);
        let n = freq.len() as int;
        let l = pm_level(freq, order, d).len() as int;
        let dd = 2 * n - 1 - l;
        assert(pow2(m) == pow2(d) * 2);
        assert(dd <= 1) by (nonlinear_arith)
            requires
                dd * pow2(d) <= n - 1,
                n <= pow2(d) * 2,
                pow2(d) > 0,
                dd >= 0,
        ;
    } else {
        lemma_take_bounds(freq, order, m, d + 1);
        let lv = pm_level(freq, order, d + 1);
        let t = pm_take(freq, order, m, d + 1);
        lemma_pip_bounds(lv, t, lv.len() as int);
        lemma_level_facts(freq, order, d + 1);
    }
}

proof fn lemma_take_zero_below(freq: Seq<u64>, order: Seq<usize>, m: nat, d: nat, e: nat)
    requires
        d < e < m,
        pm_take(freq, order, m, e) == 0,
    ensures
        pm_take(freq, order, m, d) == 0,
    decreases e - d,
{
    if d + 1 < e {
        lemma_take_zero_below(freq, order, m, d + 1, e);
    }
    assert(pairs_in_prefix(pm_level(freq, order, d + 1), 0) == 0);
}

proof fn lemma_len_from_unchanged(freq: Seq<u64>, order: Seq<usize>, m: nat, d: nat, j: int)
    requires
        0 <= j,
        0 < d <= m,
        pm_take(freq, order, m, (d - 1) as nat) == 0,
    ensures
        pm_len_from(freq, order, m, 0, j) == pm_len_from(freq, order, m, d, j),
    decreases d,
{
    assert(pairs_in_prefix(pm_level(freq, order, (d - 1) as nat), 0) == 0);
    assert(!pm_selected(freq, order, m, (d - 1) as nat, j));
    if d > 1 {
        lemma_take_zero_below(freq, order, m, (d - 2) as nat, (d - 1) as nat);
        lemma_len_from_unchanged(freq, order, m, (d - 1) as nat, j);
    }
}

proof fn lemma_len_from_bound(freq: Seq<u64>, order: Seq<usize>, m: nat, d: nat, j: int)
    ensures
        pm_len_from(freq, order, m, d, j) <= if d >= m {
            0
        } else {
            m - d
        },
    decreases m - d,
{
    if d < m {
        lemma_len_from_bound(freq, order, m, d + 1, j);
    }
}

/// Weights never decrease along the list.
pub open spec fn sorted_weights(s: Seq<(int, bool)>) -> bool {
    forall|i: int, j: int| 0 <= i < j < s.len() ==> s[i].0 <= s[j].0
}

proof fn lemma_pairs_sorted(s: Seq<(int, bool)>)
    requires
        sorted_weights(s),
    ensures
        sorted_weights(pm_pairs(s)),
{
    let p = pm_pairs(s);
    assert forall|i: int, j: int| 0 <= i < j < p.len() implies p[i].0 <= p[j].0 by {
        assert(s[2 * i].0 <= s[2 * j].0);
        assert(s[2 * i + 1].0 <= s[2 * j + 1].0);
    }
}

proof fn lemma_merge_lower(a: Seq<(int, bool)>, b: Seq<(int, bool)>, w: int)
    requires
        forall|k: int| 0 <= k < a.len() ==> w <= (#[trigger] a[k]).0,
        forall|k: int| 0 <= k < b.len() ==> w <= (#[trigger] b[k]).0,
    ensures
        forall|k: int| 0 <= k < merge_items(a, b).len() ==> w <= (#[trigger] merge_items(a, b)[k]).0,
    decreases a.len() + b.len(),
{
    lemma_merge_len(a, b);
    if a.len() > 0 && b.len() > 0 {
        if a[0].0 < b[0].0 {
            let a1 = a.drop_first();
            assert forall|k: int| 0 <= k < a1.len() implies w <= (#[trigger] a1[k]).0 by {
                assert(a1[k] == a[k + 1]);
            }
            lemma_merge_lower(a1, b, w);
            let r = merge_items(a1, b);
            assert forall|k: int| 0 <= k < merge_items(a, b).len() implies w <= (
            #[trigger] merge_items(a, b)[k]).0 by {
                if k > 0 {
                    assert(merge_items(a, b)[k] == r[k - 1]);
                }
            }
        } else {
            let b1 = b.drop_first();
            assert forall|k: int| 0 <= k < b1.len() implies w <= (#[trigger] b1[k]).0 by {
                assert(b1[k] == b[k + 1]);
            }
            lemma_merge_lower(a, b1, w);
            let r = merge_items(a, b1);
            assert forall|k: int| 0 <= k < merge_items(a, b).len() implies w <= (
            #[trigger] merge_items(a, b)[k]).0 by {
                if k > 0 {
                    assert(merge_items(a, b)[k] == r[k - 1]);
                }
            }
        }
    }
}

proof fn lemma_merge_sorted(a: Seq<(int, bool)>, b: Seq<(int, bool)>)
    requires
        sorted_weights(a),
        sorted_weights(b),
    ensures
        sorted_weights(merge_items(a, b)),
    decreases a.len() + b.len(),
{
    lemma_merge_len(a, b);
    if a.len() > 0 && b.len() > 0 {
        let c = merge_items(a, b);
        if a[0].0 < b[0].0 {
            let a1 = a.drop_first();
            lemma_merge_sorted(a1, b);
            assert forall|k: int| 0 <= k < a1.len() implies a[0].0 <= (#[trigger] a1[k]).0 by {
                assert(a1[k] == a[k + 1]);
            }
            lemma_merge_lower(a1, b, a[0].0);
            let r = merge_items(a1, b);
            assert forall|i: int, j: int| 0 <= i < j < c.len() implies c[i].0 <= c[j].0 by {
                assert(c[j] == r[j - 1]);
                if i > 0 {
                    assert(c[i] == r[i - 1]);
                }
            }
        } else {
            let b1 = b.drop_first();
            lemma_merge_sorted(a, b1);
            assert forall|k: int| 0 <= k < b1.len() implies b[0].0 <= (#[trigger] b1[k]).0 by {
                assert(b1[k] == b[k + 1]);
            }
            lemma_merge_lower(a, b1, b[0].0);
            let r = merge_items(a, b1);
            assert forall|i: int, j: int| 0 <= i < j < c.len() implies c[i].0 <= c[j].0 by {
                assert(c[j] == r[j - 1]);
                if i > 0 {
                    assert(c[i] == r[i - 1]);
                }
            }
        }
    }
}

proof fn lemma_leaves_sorted(freq: Seq<u64>, order: Seq<usize>)
    requires
        is_stable_order(freq, order),
    ensures
        sorted_weights(pm_leaves(freq, order)),
{
    let b = pm_leaves(freq, order);
    assert forall|i: int, j: int| 0 <= i < j < b.len() implies b[i].0 <= b[j].0 by {}
}

proof fn lemma_level_sorted(freq: Seq<u64>, order: Seq<usize>, d: nat)
    requires
        is_stable_order(freq, order),
    ensures
        sorted_weights(pm_level(freq, order, d)),
    decreases d,
{
    lemma_level_facts(freq, order, d);
    lemma_leaves_sorted(freq, order);
    if d > 0 {
        lemma_level_sorted(freq, order, (d - 1) as nat);
        lemma_pairs_sorted(pm_level(freq, order, (d - 1) as nat));
    } else {
        assert(pm_pairs(Seq::<(int, bool)>::empty()) =~= Seq::<(int, bool)>::empty());
    }
    lemma_merge_sorted(
        pm_pairs(
            if d == 0 {
                Seq::<(int, bool)>::empty()
            } else {
                pm_level(freq, order, (d - 1) as nat)
            },
        ),
        pm_leaves(freq, order),
    );
}

/// In a merge, the last package among the first `i` items weighs less than the next leaf.
proof fn lemma_merge_last_package(a: Seq<(int, bool)>, b: Seq<(int, bool)>, i: int)
    requires
        forall|k: int| 0 <= k < a.len() ==> (#[trigger] a[k]).1,
        forall|k: int| 0 <= k < b.len() ==> !(#[trigger] b[k]).1,
        sorted_weights(b),
        0 <= i <= a.len() + b.len(),
        pairs_in_prefix(merge_items(a, b), i) >= 1,
        i - pairs_in_prefix(merge_items(a, b), i) < b.len(),
    ensures
        ({
            let p = pairs_in_prefix(merge_items(a, b), i) as int;
            p <= a.len() && a[p - 1].0 < b[i - p].0
        }),
    decreases a.len() + b.len(),
{
    let c = merge_items(a, b);
    lemma_merge_len(a, b);
    lemma_merge_total_pairs(a, b);
    lemma_pip_bounds(c, i, (a.len() + b.len()) as int);
    lemma_pip_le(c, i);
    if a.len() == 0 {
        lemma_pip_all_leaves(b, i);
    } else if b.len() == 0 {
    } else if a[0].0 < b[0].0 {
        let a1 = a.drop_first();
        let r = merge_items(a1, b);
        assert(c == seq![a[0]] + r);
        assert forall|k: int| 0 <= k < a1.len() implies (#[trigger] a1[k]).1 by {
            assert(a1[k] == a[k + 1]);
        }
        assert(i >= 1) by {
            if i == 0 {
                assert(pairs_in_prefix(c, 0) == 0);
            }
        }
        lemma_pip_cons(a[0], r, i);
        lemma_merge_len(a1, b);
        if pairs_in_prefix(r, i - 1) == 0 {
            assert(b[0].0 <= b[i - 1].0 || i - 1 == 0);
        } else {
            lemma_merge_last_package(a1, b, i - 1);
            let p1 = pairs_in_prefix(r, i - 1) as int;
            assert(a1[p1 - 1] == a[p1]);
        }
    } else {
        let b1 = b.drop_first();
        let r = merge_items(a, b1);
        assert(c == seq![b[0]] + r);
        assert forall|k: int| 0 <= k < b1.len() implies !(#[trigger] b1[k]).1 by {
            assert(b1[k] == b[k + 1]);
        }
        assert(sorted_weights(b1)) by {
            assert forall|x: int, y: int| 0 <= x < y < b1.len() implies b1[x].0 <= b1[y].0 by {
                assert(b1[x] == b[x + 1]);
                assert(b1[y] == b[y + 1]);
            }
        }
        assert(i >= 1) by {
            if i == 0 {
                assert(pairs_in_prefix(c, 0) == 0);
            }
        }
        lemma_pip_cons(b[0], r, i);
        lemma_merge_len(a, b1);
        lemma_pip_le(r, i - 1);
        lemma_merge_last_package(a, b1, i - 1);
        let p = pairs_in_prefix(r, i - 1) as int;
        assert(b1[i - 1 - p] == b[i - p]);
    }
}

/// If the first `i` items hold more than `k` leaves, leaf `k` is one of them.
proof fn lemma_merge_finds_leaf(a: Seq<(int, bool)>, b: Seq<(int, bool)>, i: int, k: int)
    requires
        forall|t: int| 0 <= t < a.len() ==> (#[trigger] a[t]).1,
        forall|t: int| 0 <= t < b.len() ==> !(#[trigger] b[t]).1,
        0 <= i <= a.len() + b.len(),
        0 <= k < b.len(),
        i - pairs_in_prefix(merge_items(a, b), i) >= k + 1,
    ensures
        exists|x: int| 0 <= x < i && #[trigger] merge_items(a, b)[x] == b[k],
    decreases i,
{
    let c = merge_items(a, b);
    assert(i >= 1) by {
        if i == 0 {
            assert(pairs_in_prefix(c, 0) == 0);
        }
    }
    if (i - 1) - pairs_in_prefix(c, i - 1) >= k + 1 {
        lemma_merge_finds_leaf(a, b, i - 1, k);
        let x = choose|x: int| 0 <= x < i - 1 && #[trigger] merge_items(a, b)[x] == b[k];
        assert(c[x] == b[k]);
    } else {
        lemma_merge_items_index(a, b, i - 1);
        assert(!c[i - 1].1);
        assert(c[i - 1] == b[k]);
    }
}

/// With at least two symbols, fewer than `n - 1` packages lie among the first `2n - 2` items of
/// any level long enough to have that many.
proof fn lemma_level_prefix_pairs(freq: Seq<u64>, order: Seq<usize>, d: nat)
    requires
        is_stable_order(freq, order),
        freq.len() >= 2,
        pm_level(freq, order, d).len() >= 2 * freq.len() - 2,
    ensures
        pairs_in_prefix(pm_level(freq, order, d), 2 * freq.len() - 2) <= freq.len() - 2,
    decreases d,
{
    let n = freq.len() as int;
    let c = pm_level(freq, order, d);
    let prev = pm_prev(freq, order, d);
    let a = pm_pairs(prev);
    let b = pm_leaves(freq, order);
    lemma_level_facts(freq, order, d);
    assert(c == merge_items(a, b));
    lemma_merge_len(a, b);
    lemma_merge_total_pairs(a, b);
    lemma_pip_bounds(c, 2 * n - 2, c.len() as int);
    if d > 0 {
        lemma_level_len_bounds(freq, order, (d - 1) as nat);
    }
    if pairs_in_prefix(c, 2 * n - 2) >= n - 1 {
        assert(d > 0);
        assert(a.len() == n - 1);
        let i = 2 * n - 2;
        assert forall|t: int| 0 <= t < a.len() implies (#[trigger] a[t]).1 by {}
        assert forall|t: int| 0 <= t < b.len() implies !(#[trigger] b[t]).1 by {}
        lemma_leaves_sorted(freq, order);
        lemma_merge_last_package(a, b, i);
        let w = b[n - 1].0;
        assert(a[n - 2].0 < w);
        let pv = pm_level(freq, order, (d - 1) as nat);
        lemma_level_weights(freq, order, (d - 1) as nat, u64::MAX as int);
        lemma_level_sorted(freq, order, (d - 1) as nat);
        assert(pv[2 * n - 3].0 < w);
        lemma_level_prefix_pairs(freq, order, (d - 1) as nat);
        let pprev = pm_prev(freq, order, (d - 1) as nat);
        lemma_level_facts(freq, order, (d - 1) as nat);
        let a0 = pm_pairs(pprev);
        assert(pv == merge_items(a0, b));
        assert forall|t: int| 0 <= t < a0.len() implies (#[trigger] a0[t]).1 by {}
        lemma_merge_len(a0, b);
        lemma_merge_finds_leaf(a0, b, 2 * n - 2, n - 1);
        let x = choose|x: int| 0 <= x < 2 * n - 2 && #[trigger] merge_items(a0, b)[x] == b[n - 1];
        assert(pv[x].0 <= pv[2 * n - 3].0);
    }
}


/// A stable order lists every symbol.
pub proof fn lemma_order_covers(freq: Seq<u64>, order: Seq<usize>, i: int)
    requires
        is_stable_order(freq, order),
        0 <= i < freq.len(),
    ensures
        exists|j: int| 0 <= j < order.len() && order[j] == i,
{
    let s = order.map_values(|x: usize| x as int);
    assert(s.no_duplicates()) by {
        assert forall|x: int, y: int| 0 <= x < s.len() && 0 <= y < s.len() && x != y implies s[x]
            != s[y] by {
            if x < y {
                assert(order[x] != order[y]);
            } else {
                assert(order[y] != order[x]);
            }
        }
    }
    s.unique_seq_to_set();
    lemma_int_range(0, freq.len() as int);
    let r = set_int_range(0, freq.len() as int);
    assert(s.to_set().subset_of(r)) by {
        assert forall|v: int| s.to_set().contains(v) implies r.contains(v) by {
            let j = choose|j: int| 0 <= j < s.len() && s[j] == v;
            assert(order[j] < freq.len());
        }
    }
    lemma_subset_equality(s.to_set(), r);
    assert(r.contains(i));
    assert(s.to_set().contains(i));
    let j = choose|j: int| 0 <= j < s.len() && s[j] == i;
    assert(order[j] == i);
}

/// With two or more symbols, package-merge gives every symbol a code of at least one bit.
pub proof fn lemma_pm_lengths_positive(freq: Seq<u64>, order: Seq<usize>, m: nat, j: int)
    requires
        is_stable_order(freq, order),
        freq.len() >= 2,
        freq.len() <= pow2(m),
        0 <= j < freq.len(),
    ensures
        pm_len_from(freq, order, m, 0, j) >= 1,
{
    lemma_pow2_pos(m);
    let n = freq.len() as int;
    assert(m >= 1) by {
        if m == 0 {
            lemma2_to64();
        }
    }
    let top = (m - 1) as nat;
    lemma_take_bounds(freq, order, m, top);
    lemma_level_prefix_pairs(freq, order, top);
    assert(pm_take(freq, order, m, top) == 2 * n - 2);
    assert(pm_selected(freq, order, m, top, j));
    lemma_len_from_top(freq, order, m, 0, j);
}

proof fn lemma_len_from_top(freq: Seq<u64>, order: Seq<usize>, m: nat, d: nat, j: int)
    requires
        m >= 1,
        d <= m - 1,
        pm_selected(freq, order, m, (m - 1) as nat, j),
    ensures
        pm_len_from(freq, order, m, d, j) >= 1,
    decreases m - d,
{
    if d < m - 1 {
        lemma_len_from_top(freq, order, m, d + 1, j);
    }
}

// ---------------------------------------------------------------------------
// Kraft's inequality
// ---------------------------------------------------------------------------

/// The packages among the items that level `d` selects.
spec fn pm_pairs_taken(freq: Seq<u64>, order: Seq<usize>, m: nat, d: nat) -> int {
    pairs_in_prefix(pm_level(freq, order, d), pm_take(freq, order, m, d)) as int
}

/// The leaves that level `d` selects (the first this many in frequency order).
spec fn pm_leaves_taken(freq: Seq<u64>, order: Seq<usize>, m: nat, d: nat) -> int {
    pm_take(freq, order, m, d) - pm_pairs_taken(freq, order, m, d)
}

/// The leaves selected from level `d` up, each weighing `2^level`.
spec fn taken_weight(freq: Seq<u64>, order: Seq<usize>, m: nat, d: nat) -> int
    decreases m - d,
{
    if d >= m {
        0
    } else {
        pm_leaves_taken(freq, order, m, d) * pow2(d) + taken_weight(freq, order, m, d + 1)
    }
}

/// The levels from `d` up that select leaf `j`, each weighing `2^level`.
spec fn leaf_weight(freq: Seq<u64>, order: Seq<usize>, m: nat, d: nat, j: int) -> int
    decreases m - d,
{
    if d >= m {
        0
    } else {
        (if pm_selected(freq, order, m, d, j) {
            pow2(d) as int
        } else {
            0
        }) + leaf_weight(freq, order, m, d + 1, j)
    }
}

/// `leaf_weight` summed over the first `k` leaves.
spec fn leaves_weight(freq: Seq<u64>, order: Seq<usize>, m: nat, d: nat, k: int) -> int
    decreases k,
{
    if k <= 0 {
        0
    } else {
        leaves_weight(freq, order, m, d, k - 1) + leaf_weight(freq, order, m, d, k - 1)
    }
}

/// `2^(m - length)` summed over the first `k` leaves.
spec fn leaf_kraft(freq: Seq<u64>, order: Seq<usize>, m: nat, k: int) -> int
    decreases k,
{
    if k <= 0 {
        0
    } else {
        leaf_kraft(freq, order, m, k - 1) + pow2((m - pm_len_from(freq, order, m, 0, k - 1)) as nat)
    }
}

/// Telescoping over the levels: from level `d` up, the selected leaves weigh `(n - 1) 2^m`
/// less the packages selected at `d`.
proof fn lemma_taken_weight(freq: Seq<u64>, order: Seq<usize>, m: nat, d: nat)
    requires
        m >= 1,
        d <= m - 1,
    ensures
        taken_weight(freq, order, m, d) == (freq.len() - 1) * pow2(m) - pm_pairs_taken(freq, order, m, d) * pow2(d),
    decreases m - d,
{
    lemma_pow2_adds(d, 1);
    lemma2_to64();
    let n = freq.len() as int;
    let pd = pm_pairs_taken(freq, order, m, d);
    let w = pow2(d) as int;
    if d == m - 1 {
        assert(pm_take(freq, order, m, d) == 2 * n - 2);
        assert(taken_weight(freq, order, m, d + 1) == 0);
        assert(pow2(m) == w * 2);
        assert((2 * n - 2 - pd) * w == (n - 1) * (w * 2) - pd * w) by (nonlinear_arith);
    } else {
        lemma_taken_weight(freq, order, m, d + 1);
        let q = pm_pairs_taken(freq, order, m, d + 1);
        assert(pm_take(freq, order, m, d) == 2 * q);
        assert(pow2(d + 1) == w * 2);
        let big = (n - 1) * pow2(m);
        assert((2 * q - pd) * w + (big - q * (w * 2)) == big - pd * w) by (nonlinear_arith);
    }
}

/// A leaf selected at `c` levels above `d` weighs at most `2^m - 2^(m - c)`.
proof fn lemma_leaf_weight_bound(freq: Seq<u64>, order: Seq<usize>, m: nat, d: nat, j: int)
    requires
        d <= m,
    ensures
        pm_len_from(freq, order, m, d, j) <= m - d,
        leaf_weight(freq, order, m, d, j) + pow2((m - pm_len_from(freq, order, m, d, j)) as nat) <= pow2(m),
    decreases m - d,
{
    lemma_len_from_bound(freq, order, m, d, j);
    if d < m {
        lemma_leaf_weight_bound(freq, order, m, d + 1, j);
        let c1 = pm_len_from(freq, order, m, d + 1, j);
        if pm_selected(freq, order, m, d, j) {
            let e = (m - c1 - 1) as nat;
            lemma_pow2_adds(e, 1);
            lemma2_to64();
            assert(pow2((m - c1) as nat) == pow2(e) * 2) by {
                assert(e + 1 == (m - c1) as nat);
            }
            if d < e {
                vstd::arithmetic::power2::lemma_pow2_strictly_increases(d, e);
            }
            assert(pow2(d) <= pow2(e));
            assert((m - pm_len_from(freq, order, m, d, j)) as nat == e);
        }
    }
}

/// Each level selects between none and all of the leaves.
proof fn lemma_leaves_taken_bounds(freq: Seq<u64>, order: Seq<usize>, m: nat, d: nat)
    requires
        is_stable_order(freq, order),
        freq.len() >= 1,
        freq.len() <= pow2(m),
        d < m,
    ensures
        0 <= pm_leaves_taken(freq, order, m, d) <= freq.len(),
{
    lemma_take_bounds(freq, order, m, d);
    let lv = pm_level(freq, order, d);
    let t = pm_take(freq, order, m, d);
    lemma_pip_le(lv, t);
    lemma_pip_bounds(lv, t, lv.len() as int);
    lemma_level_facts(freq, order, d);
}

/// Level 0 holds leaves only.
proof fn lemma_no_pairs_at_bottom(freq: Seq<u64>, order: Seq<usize>, m: nat)
    requires
        is_stable_order(freq, order),
        freq.len() >= 1,
        freq.len() <= pow2(m),
        m >= 1,
    ensures
        pm_pairs_taken(freq, order, m, 0) == 0,
{
    lemma_take_bounds(freq, order, m, 0);
    let lv = pm_level(freq, order, 0);
    lemma_level_facts(freq, order, 0);
    lemma_pip_bounds(lv, pm_take(freq, order, m, 0), lv.len() as int);
}

/// Leaves above the top weigh nothing.
proof fn lemma_leaves_weight_top(freq: Seq<u64>, order: Seq<usize>, m: nat, k: int)
    ensures
        leaves_weight(freq, order, m, m, k) == 0,
    decreases k,
{
    if k > 0 {
        lemma_leaves_weight_top(freq, order, m, k - 1);
    }
}

/// Level `d` adds `2^d` for each of the first `k` leaves it selects.
proof fn lemma_leaves_weight_level(freq: Seq<u64>, order: Seq<usize>, m: nat, d: nat, k: int)
    requires
        d < m,
        k >= 0,
        pm_leaves_taken(freq, order, m, d) >= 0,
    ensures
        leaves_weight(freq, order, m, d, k) == leaves_weight(freq, order, m, d + 1, k) + pow2(d) * (if k
            < pm_leaves_taken(freq, order, m, d) {
            k
        } else {
            pm_leaves_taken(freq, order, m, d)
        }),
    decreases k,
{
    let l = pm_leaves_taken(freq, order, m, d);
    let w = pow2(d) as int;
    if k > 0 {
        lemma_leaves_weight_level(freq, order, m, d, k - 1);
        assert(pm_selected(freq, order, m, d, k - 1) == (k - 1 < l));
        assert(leaf_weight(freq, order, m, d, k - 1) == (if k - 1 < l {
            w
        } else {
            0
        }) + leaf_weight(freq, order, m, d + 1, k - 1));
        let a = if k - 1 < l { k - 1 } else { l };
        let b = if k < l { k } else { l };
        assert(w * a + (if k - 1 < l { w } else { 0 }) == w * b) by (nonlinear_arith)
            requires
                a == (if k - 1 < l { k - 1 } else { l }),
                b == (if k < l { k } else { l }),
        ;
    } else {
        assert(w * 0 == 0) by (nonlinear_arith);
    }
}

/// Over all leaves, the levels from `d` up weigh what they select.
proof fn lemma_leaves_weight_total(freq: Seq<u64>, order: Seq<usize>, m: nat, d: nat)
    requires
        is_stable_order(freq, order),
        freq.len() >= 1,
        freq.len() <= pow2(m),
        d <= m,
    ensures
        leaves_weight(freq, order, m, d, freq.len() as int) == taken_weight(freq, order, m, d),
    decreases m - d,
{
    if d < m {
        lemma_leaves_weight_total(freq, order, m, d + 1);
        lemma_leaves_taken_bounds(freq, order, m, d);
        lemma_leaves_weight_level(freq, order, m, d, freq.len() as int);
        let l = pm_leaves_taken(freq, order, m, d);
        assert(pow2(d) * l == l * pow2(d)) by (nonlinear_arith);
    } else {
        lemma_leaves_weight_top(freq, order, m, freq.len() as int);
    }
}

/// Each leaf's weight and its share of code space together fill at most `2^m`.
proof fn lemma_leaf_kraft(freq: Seq<u64>, order: Seq<usize>, m: nat, k: int)
    requires
        k >= 0,
    ensures
        leaves_weight(freq, order, m, 0, k) + leaf_kraft(freq, order, m, k) <= k * pow2(m),
    decreases k,
{
    if k > 0 {
        lemma_leaf_kraft(freq, order, m, k - 1);
        lemma_leaf_weight_bound(freq, order, m, 0, k - 1);
        assert((k - 1) * pow2(m) + pow2(m) == k * pow2(m)) by (nonlinear_arith);
    }
}

proof fn lemma_leaf_kraft_sum(freq: Seq<u64>, order: Seq<usize>, m: nat, k: int)
    requires
        0 <= k,
    ensures
        sum_nat(Seq::new(k as nat, |j: int| pow2((m - pm_len_from(freq, order, m, 0, j)) as nat))) == leaf_kraft(
            freq,
            order,
            m,
            k,
        ),
    decreases k,
{
    if k > 0 {
        lemma_leaf_kraft_sum(freq, order, m, k - 1);
        assert(Seq::new(k as nat, |j: int| pow2((m - pm_len_from(freq, order, m, 0, j)) as nat)).drop_last()
            =~= Seq::new((k - 1) as nat, |j: int| pow2((m - pm_len_from(freq, order, m, 0, j)) as nat)));
    }
}

/// The code space lengths `lens` use, counted in units of `2^-m`: `Σ 2^(m - lens[i])`.
pub open spec fn kraft_sum(lens: Seq<u32>, m: nat) -> nat {
    sum_nat(Seq::new(lens.len(), |i: int| pow2((m - lens[i]) as nat)))
}

/// Kraft's inequality for package-merge: the lengths it assigns to one or more symbols (at most
/// `2^m` of them) are at most `m` and use no more code space than there is, so canonical
/// codes of these lengths form a prefix code.
pub proof fn lemma_pm_kraft(freq: Seq<u64>, order: Seq<usize>, m: nat, lens: Seq<u32>)
    requires
        is_stable_order(freq, order),
        1 <= freq.len() <= pow2(m),
        pm_code_lengths(freq, order, m, lens),
    ensures
        forall|i: int| 0 <= i < lens.len() ==> lens[i] <= m,
        kraft_sum(lens, m) <= pow2(m),
{
    let n = freq.len() as int;
    assert forall|i: int| 0 <= i < lens.len() implies lens[i] <= m by {
        lemma_order_covers(freq, order, i);
        let j = choose|j: int| 0 <= j < order.len() && order[j] == i;
        lemma_len_from_bound(freq, order, m, 0, j);
    }
    let v = Seq::new(n as nat, |i: int| pow2((m - lens[i]) as nat));
    let p = Seq::new(n as nat, |j: int| order[j] as int);
    assert(is_perm(p)) by {
        assert forall|i: int, j: int| 0 <= i < j < p.len() implies p[i] != p[j] by {
            assert(order[i] != order[j]);
        }
    }
    lemma_perm_sum(v, p);
    let f = Seq::new(n as nat, |j: int| pow2((m - pm_len_from(freq, order, m, 0, j)) as nat));
    assert(Seq::new(v.len(), |i: int| v[p[i]]) =~= f) by {
        assert forall|j: int| 0 <= j < n implies v[p[j]] == f[j] by {
            assert(lens[order[j] as int] == pm_len_from(freq, order, m, 0, j));
        }
    }
    assert(v =~= Seq::new(lens.len(), |i: int| pow2((m - lens[i]) as nat)));
    lemma_leaf_kraft_sum(freq, order, m, n);
    if m == 0 {
        lemma2_to64();
        assert(n == 1);
        assert(pm_len_from(freq, order, m, 0, 0) == 0);
        assert(leaf_kraft(freq, order, m, 0) == 0);
        assert(leaf_kraft(freq, order, m, 1) == 1);
    } else {
        lemma_leaf_kraft(freq, order, m, n);
        lemma_leaves_weight_total(freq, order, m, 0);
        lemma_taken_weight(freq, order, m, 0);
        lemma_no_pairs_at_bottom(freq, order, m);
        assert(n * pow2(m) - (n - 1) * pow2(m) == pow2(m)) by (nonlinear_arith);
    }
}

// ---------------------------------------------------------------------------
// Executable code
// ---------------------------------------------------------------------------

/// Sum every complete pair of consecutive weights into a package.
fn complete_pairs(list: &Vec<u64>, Ghost(prev): Ghost<Seq<(int, bool)>>) -> (out: Vec<(u64, bool)>)
    requires
        list.len() == prev.len(),
        forall|k: int| 0 <= k < list.len() ==> list[k] as int == (#[trigger] prev[k]).0,
        forall|k: int| 0 <= k < prev.len() / 2 ==> (#[trigger] pm_pairs(prev)[k]).0 <= u64::MAX,
    ensures
        out.len() == prev.len() / 2,
        forall|k: int|
            0 <= k < out.len() ==> (#[trigger] out[k]).0 as int == pm_pairs(prev)[k].0 && out[k].1,
{
    let mut out: Vec<(u64, bool)> = Vec::new();
    let mut k = 0usize;
    let half = list.len() / 2;
    while k < half
        invariant
            half == list.len() / 2,
            list.len() == prev.len(),
            forall|t: int| 0 <= t < list.len() ==> list[t] as int == (#[trigger] prev[t]).0,
            forall|t: int| 0 <= t < prev.len() / 2 ==> (#[trigger] pm_pairs(prev)[t]).0 <= u64::MAX,
            k <= half,
            out.len() == k,
            forall|t: int|
                0 <= t < k ==> (#[trigger] out[t]).0 as int == pm_pairs(prev)[t].0 && out[t].1,
        decreases half - k,
    {
        assert(pm_pairs(prev)[k as int].0 <= u64::MAX);
        let s = list[2 * k] + list[2 * k + 1];
        out.push((s, true));
        k = k + 1;
    }
    out
}

pub open spec fn items_view(v: Seq<(u64, bool)>) -> Seq<(int, bool)> {
    Seq::new(v.len(), |i: int| (v[i].0 as int, v[i].1))
}

/// Merge packages with leaves, a package first only when strictly lighter.
fn merge_by_weight(a: &Vec<(u64, bool)>, b: &Vec<(u64, bool)>) -> (out: Vec<(u64, bool)>)
    ensures
        items_view(out@) == merge_items(items_view(a@), items_view(b@)),
{
    let mut out: Vec<(u64, bool)> = Vec::new();
    let mut i = 0usize;
    let mut j = 0usize;
    proof {
        assert(items_view(a@).subrange(0, a.len() as int) =~= items_view(a@));
        assert(items_view(b@).subrange(0, b.len() as int) =~= items_view(b@));
        assert(items_view(out@) =~= Seq::<(int, bool)>::empty());
    }
    while i < a.len() || j < b.len()
        invariant
            i <= a.len(),
            j <= b.len(),
            items_view(out@) + merge_items(
                items_view(a@).subrange(i as int, a.len() as int),
                items_view(b@).subrange(j as int, b.len() as int),
            ) == merge_items(items_view(a@), items_view(b@)),
        decreases a.len() + b.len() - i - j,
    {
        let ghost ra = items_view(a@).subrange(i as int, a.len() as int);
        let ghost rb = items_view(b@).subrange(j as int, b.len() as int);
        let ghost o0 = items_view(out@);
        if i < a.len() && (j >= b.len() || a[i].0 < b[j].0) {
            out.push(a[i]);
            proof {
                assert(ra.drop_first() =~= items_view(a@).subrange(i + 1, a.len() as int));
                if j >= b.len() {
                    assert(rb.len() == 0);
                }
                assert(merge_items(ra, rb) == seq![ra[0]] + merge_items(ra.drop_first(), rb));
                assert(items_view(out@) =~= o0.push(ra[0]));
                assert(items_view(out@) + merge_items(ra.drop_first(), rb) =~= o0 + merge_items(
                    ra,
                    rb,
                ));
            }
            i = i + 1;
        } else {
            out.push(b[j]);
            proof {
                assert(rb.drop_first() =~= items_view(b@).subrange(j + 1, b.len() as int));
                if i >= a.len() {
                    assert(ra.len() == 0);
                    assert(merge_items(ra, rb) == rb);
                    assert(merge_items(ra, rb.drop_first()) == rb.drop_first());
                    assert(rb =~= seq![rb[0]] + rb.drop_first());
                } else {
                    assert(merge_items(ra, rb) == seq![rb[0]] + merge_items(ra, rb.drop_first()));
                }
                assert(items_view(out@) =~= o0.push(rb[0]));
                assert(items_view(out@) + merge_items(ra, rb.drop_first()) =~= o0 + merge_items(
                    ra,
                    rb,
                ));
            }
            j = j + 1;
        }
    }
    proof {
        let ra = items_view(a@).subrange(i as int, a.len() as int);
        let rb = items_view(b@).subrange(j as int, b.len() as int);
        assert(ra.len() == 0 && rb.len() == 0);
        assert(merge_items(ra, rb) == rb);
        assert(items_view(out@) + merge_items(ra, rb) =~= items_view(out@));
    }
    out
}

proof fn lemma_flag_set(x: u32, d: u32, e: u32)
    requires
        d < 32,
        e < 32,
    ensures
        ((x | (1u32 << d)) >> e) & 1u32 == if e == d {
            1u32
        } else {
            (x >> e) & 1u32
        },
{
    assert(((x | (1u32 << d)) >> e) & 1u32 == if e == d {
        1u32
    } else {
        (x >> e) & 1u32
    }) by (bit_vector)
        requires
            d < 32,
            e < 32,
    ;
}

/// Compute length-limited Huffman code lengths (each at most `max_len`) for `frequencies`.
pub fn package_merge(frequencies: &[u64], max_len: u32) -> (r: Result<Vec<u32>, PmError>)
    requires
        max_len < usize::BITS,
        frequencies.len() <= usize::MAX / 2,
        max_len <= 32 ==> pm_weights_fit(frequencies@, max_len as nat),
    ensures
        frequencies.len() == 0 ==> r == Err::<Vec<u32>, PmError>(PmError::NoSymbols),
        frequencies.len() > 0 && frequencies.len() > pow2(max_len as nat) ==> r == Err::<
            Vec<u32>,
            PmError,
        >(PmError::MaxLenTooSmall),
        frequencies.len() > 0 && frequencies.len() <= pow2(max_len as nat) && max_len > 32 ==> r
            == Err::<Vec<u32>, PmError>(PmError::MaxLenTooLarge),
        frequencies.len() > 0 && frequencies.len() <= pow2(max_len as nat) && max_len <= 32 ==> (
        r matches Ok(lens) && exists|order: Seq<usize>|
            is_stable_order(frequencies@, order) && pm_code_lengths(
                frequencies@,
                order,
                max_len as nat,
                lens@,
            )),
        r matches Ok(lens) ==> forall|i: int| 0 <= i < lens.len() ==> lens[i] <= max_len,
{
    if frequencies.len() == 0 {
        return Err(PmError::NoSymbols);
    }
    proof {
        lemma_usize_pow2_no_overflow(max_len as nat);
        lemma_usize_shl_is_mul(1, max_len as usize);
    }
    if frequencies.len() > (1usize << max_len) {
        return Err(PmError::MaxLenTooSmall);
    }
    if max_len > 32 {
        return Err(PmError::MaxLenTooLarge);
    }
    let n_sym = frequencies.len();
    let ghost freq = frequencies@;
    let ghost m = max_len as nat;
    // Symbol indices in stable frequency order.
    let mut sorted: Vec<usize> = Vec::new();
    let mut k = 0usize;
    while k < n_sym
        invariant
            k <= n_sym,
            sorted.len() == k,
            forall|t: int| 0 <= t < k ==> sorted[t] == t,
        decreases n_sym - k,
    {
        sorted.push(k);
        k = k + 1;
    }
    let ghost ident = sorted@;
    sort_indices_by_key(&mut sorted, frequencies);
    let ghost order = sorted@;
    proof {
        let p = choose|p: Seq<int>|
            #![trigger p.len()]
            {
                &&& p.len() == ident.len()
                &&& forall|i: int| 0 <= i < p.len() ==> 0 <= #[trigger] p[i] < p.len()
                &&& forall|i: int, j: int| 0 <= i < j < p.len() ==> p[i] != p[j]
                &&& forall|i: int| 0 <= i < p.len() ==> #[trigger] order[i] == ident[p[i]]
                &&& forall|i: int, j: int|
                    0 <= i < j < p.len() ==> (freq[order[i] as int] < freq[order[j] as int] || (
                    freq[order[i] as int] == freq[order[j] as int] && p[i] < p[j]))
            };
        assert forall|j: int| 0 <= j < order.len() implies (#[trigger] order[j]) < freq.len() by {
            assert(order[j] == ident[p[j]]);
        }
        assert forall|i: int, j: int| 0 <= i < j < order.len() implies order[i] != order[j] by {
            assert(order[i] == ident[p[i]]);
            assert(order[j] == ident[p[j]]);
        }
        assert forall|i: int, j: int| 0 <= i < j < order.len() implies (freq[order[i] as int]
            < freq[order[j] as int] || (freq[order[i] as int] == freq[order[j] as int] && order[i]
            < order[j])) by {
            assert(order[i] == ident[p[i]]);
            assert(order[j] == ident[p[j]]);
        }
        assert(is_stable_order(freq, order));
    }
    // The leaves, in frequency order.
    let mut leaves: Vec<(u64, bool)> = Vec::new();
    let mut k = 0usize;
    while k < n_sym
        invariant
            k <= n_sym,
            n_sym == frequencies.len(),
            sorted@ == order,
            is_stable_order(freq, order),
            freq == frequencies@,
            leaves.len() == k,
            forall|t: int|
                0 <= t < k ==> items_view(leaves@)[t] == #[trigger] pm_leaves(freq, order)[t],
        decreases n_sym - k,
    {
        let s = sorted[k];
        leaves.push((frequencies[s], false));
        k = k + 1;
    }
    proof {
        assert(items_view(leaves@) =~= pm_leaves(freq, order));
        assert forall|t: int| 0 <= t < leaves.len() implies !(#[trigger] leaves@[t]).1 by {
            assert(items_view(leaves@)[t] == pm_leaves(freq, order)[t]);
        }
        lemma_pow2_pos(m);
    }
    let capa = n_sym * 2 - 1;
    let mut flags: Vec<u32> = Vec::new();
    let mut k = 0usize;
    while k < capa
        invariant
            k <= capa,
            flags.len() == k,
            forall|t: int| 0 <= t < k ==> flags[t] == 0,
        decreases capa - k,
    {
        flags.push(0);
        k = k + 1;
    }
    // Forward pass: build each level, recording which items are packages.
    proof {
        assert forall|e: int, t: int| 0 <= e < 32 && 0 <= t < capa implies #[trigger] bit32(
            flags[t],
            e,
        ) == false by {
            let eu = e as u32;
            assert((0u32 >> eu) & 1u32 == 0u32) by (bit_vector);
        }
    }
    let mut list: Vec<u64> = Vec::new();
    let mut depth = 0u32;
    while depth < max_len
        invariant
            depth <= max_len <= 32,
            m == max_len,
            n_sym == frequencies.len() >= 1,
            n_sym <= pow2(m),
            freq == frequencies@,
            is_stable_order(freq, order),
            items_view(leaves@) == pm_leaves(freq, order),
            leaves.len() == n_sym,
            forall|t: int| 0 <= t < leaves.len() ==> !(#[trigger] leaves@[t]).1,
            capa == 2 * n_sym - 1,
            flags.len() == capa,
            pm_weights_fit(freq, m),
            list.len() == pm_prev(freq, order, depth as nat).len(),
            forall|t: int|
                0 <= t < list.len() ==> list[t] as int == (#[trigger] pm_prev(
                    freq,
                    order,
                    depth as nat,
                )[t]).0,
            forall|e: int, t: int|
                0 <= e < 32 && 0 <= t < capa ==> #[trigger] bit32(flags[t], e) == (e < depth && t < pm_level(freq, order, e as nat).len() && pm_level(
                    freq,
                    order,
                    e as nat,
                )[t].1),
        decreases max_len - depth,
    {
        let ghost prev = pm_prev(freq, order, depth as nat);
        proof {
            lemma_level_facts(freq, order, depth as nat);
            lemma_level_len_bounds(freq, order, depth as nat);
            if depth > 0 {
                lemma_pairs_fit(freq, order, m, depth as nat);
            } else {
                assert(prev.len() == 0);
            }
        }
        let pairs = complete_pairs(&list, Ghost(prev));
        proof {
            assert(items_view(pairs@) =~= pm_pairs(prev));
        }
        let merged = merge_by_weight(&pairs, &leaves);
        let ghost lv = pm_level(freq, order, depth as nat);
        proof {
            assert(items_view(merged@) == lv);
            assert(merged.len() == lv.len());
        }
        let mask = 1u32 << depth;
        let mut newlist: Vec<u64> = Vec::new();
        let mut t = 0usize;
        while t < merged.len()
            invariant
                t <= merged.len(),
                merged.len() == lv.len() <= capa,
                items_view(merged@) == lv,
                flags.len() == capa,
                depth < max_len <= 32,
                mask == 1u32 << depth,
                newlist.len() == t,
                forall|u: int| 0 <= u < t ==> newlist[u] as int == (#[trigger] lv[u]).0,
                forall|e: int, u: int|
                    0 <= e < 32 && 0 <= u < capa ==> #[trigger] bit32(flags[u], e) == ((e < depth && u < pm_level(freq, order, e as nat).len()
                        && pm_level(freq, order, e as nat)[u].1) || (e == depth && u < t && lv[u].1)),
            decreases merged.len() - t,
        {
            let (w, is_pair) = merged[t];
            proof {
                assert(items_view(merged@)[t as int] == lv[t as int]);
            }
            if is_pair {
                let f = flags[t];
                proof {
                    assert forall|e: int| 0 <= e < 32 implies #[trigger] bit32(f | (1u32 << depth), e)
                        == (e == depth || bit32(f, e)) by {
                        lemma_flag_set(f, depth, e as u32);
                    }
                }
                flags.set(t, f | mask);
            }
            newlist.push(w);
            t = t + 1;
        }
        list = newlist;
        proof {
            assert forall|e: int, u: int| 0 <= e < 32 && 0 <= u < capa implies #[trigger] bit32(
                flags[u],
                e,
            ) == (e < depth + 1 && u
                < pm_level(freq, order, e as nat).len() && pm_level(freq, order, e as nat)[u].1) by {
                if e == depth {
                    assert(pm_level(freq, order, e as nat) == lv);
                }
            }
        }
        depth = depth + 1;
    }
    // Backward pass: count how often each leaf is selected.
    let mut n = n_sym * 2 - 2;
    let mut code_lens: Vec<u32> = Vec::new();
    let mut k = 0usize;
    while k < n_sym
        invariant
            k <= n_sym,
            code_lens.len() == k,
            forall|t: int| 0 <= t < k ==> code_lens[t] == 0,
        decreases n_sym - k,
    {
        code_lens.push(0);
        k = k + 1;
    }
    let mut depth = max_len;
    proof {
        assert forall|j: int| 0 <= j < n_sym implies code_lens[order[j] as int]
            == pm_len_from(freq, order, m, depth as nat, j) by {}
    }
    while depth > 0 && n > 0
        invariant
            depth <= max_len <= 32,
            m == max_len,
            n_sym == frequencies.len() >= 1,
            n_sym <= pow2(m),
            freq == frequencies@,
            sorted@ == order,
            is_stable_order(freq, order),
            items_view(leaves@) == pm_leaves(freq, order),
            capa == 2 * n_sym - 1,
            flags.len() == capa,
            code_lens.len() == n_sym,
            depth > 0 ==> n == pm_take(freq, order, m, (depth - 1) as nat),
            depth == 0 ==> n == 0 || m == 0,
            m == 0 ==> n == 2 * n_sym - 2,
            forall|e: int, t: int|
                0 <= e < 32 && 0 <= t < capa ==> #[trigger] bit32(flags[t], e) == (e < m && t < pm_level(freq, order, e as nat).len() && pm_level(
                    freq,
                    order,
                    e as nat,
                )[t].1),
            forall|j: int|
                0 <= j < n_sym ==> code_lens[order[j] as int] == pm_len_from(
                    freq,
                    order,
                    m,
                    depth as nat,
                    j,
                ),
            forall|t: int| 0 <= t < n_sym ==> code_lens[t] <= max_len - depth,
        decreases depth,
    {
        depth = depth - 1;
        let ghost d = depth as nat;
        let ghost lv = pm_level(freq, order, d);
        proof {
            lemma_take_bounds(freq, order, m, d);
            lemma_level_len_bounds(freq, order, d);
            lemma_level_facts(freq, order, d);
        }
        let mask = 1u32 << depth;
        let mut merged = 0usize;
        let mut i = 0usize;
        while i < n
            invariant
                i <= n,
                n == pm_take(freq, order, m, d) <= lv.len() <= capa,
                lv == pm_level(freq, order, d),
                lv == merge_items(
                    pm_pairs(
                        if d == 0 {
                            Seq::<(int, bool)>::empty()
                        } else {
                            pm_level(freq, order, (d - 1) as nat)
                        },
                    ),
                    pm_leaves(freq, order),
                ),
                d == depth,
                depth < max_len <= 32,
                m == max_len,
                mask == 1u32 << depth,
                flags.len() == capa,
                n_sym == frequencies.len(),
                freq == frequencies@,
                sorted@ == order,
                is_stable_order(freq, order),
                code_lens.len() == n_sym,
                merged == pairs_in_prefix(lv, i as int),
                forall|e: int, t: int|
                    0 <= e < 32 && 0 <= t < capa ==> #[trigger] bit32(flags[t], e) == (e < m && t < pm_level(freq, order, e as nat).len()
                        && pm_level(freq, order, e as nat)[t].1),
                forall|j: int|
                    0 <= j < n_sym ==> code_lens[order[j] as int] == pm_len_from(
                        freq,
                        order,
                        m,
                        d + 1,
                        j,
                    ) + if j < i - merged {
                        1nat
                    } else {
                        0nat
                    },
                forall|t: int| 0 <= t < n_sym ==> code_lens[t] <= max_len - depth,
            decreases n - i,
        {
            let f = flags[i];
            proof {
                assert(bit32(f, depth as int) == lv[i as int].1);
                assert((f & mask == 0u32) == ((f >> depth) & 1u32 != 1u32)) by (bit_vector)
                    requires
                        depth < 32,
                        mask == 1u32 << depth,
                ;
                let prevl = if d == 0 {
                    Seq::<(int, bool)>::empty()
                } else {
                    pm_level(freq, order, (d - 1) as nat)
                };
                lemma_merge_len(pm_pairs(prevl), pm_leaves(freq, order));
                lemma_merge_items_index(pm_pairs(prevl), pm_leaves(freq, order), i as int);
                lemma_pip_le(lv, i as int);
                assert(lv == merge_items(pm_pairs(prevl), pm_leaves(freq, order)));
                assert(pm_leaves(freq, order).len() == n_sym);
                assert(!lv[i as int].1 ==> i - pairs_in_prefix(lv, i as int) < n_sym);
            }
            if (f & mask) == 0 {
                let j = i - merged;
                proof {
                    assert(!bit32(f, depth as int));
                    assert(!lv[i as int].1);
                    assert(j < n_sym);
                }
                let s = sorted[j];
                proof {
                    lemma_len_from_bound(freq, order, m, d + 1, j as int);
                    assert forall|jj: int| 0 <= jj < n_sym && jj != j implies order[jj] != order[j as int]
                        by {
                        if jj < j {
                            assert(order[jj] != order[j as int]);
                        } else {
                            assert(order[j as int] != order[jj]);
                        }
                    }
                }
                let c = code_lens[s];
                code_lens.set(s, c + 1);
            } else {
                merged = merged + 1;
            }
            i = i + 1;
        }
        proof {
            lemma_take_bounds(freq, order, m, d);
            assert forall|j: int| 0 <= j < n_sym implies code_lens[order[j] as int] == pm_len_from(
                freq,
                order,
                m,
                d,
                j,
            ) by {}
            lemma_pip_le(lv, n as int);
            lemma_level_facts(freq, order, d);
            lemma_pip_bounds(lv, n as int, lv.len() as int);
            if d > 0 {
                lemma_level_len_bounds(freq, order, (d - 1) as nat);
            }
        }
        n = merged * 2;
    }
    proof {
        if depth > 0 {
            assert(n == 0);
            assert forall|j: int| 0 <= j < n_sym implies code_lens[order[j] as int] == pm_len_from(
                freq,
                order,
                m,
                0,
                j,
            ) by {
                lemma_len_from_unchanged(freq, order, m, depth as nat, j);
            }
        }
        assert(pm_code_lengths(freq, order, m, code_lens@));
    }
    Ok(code_lens)
}

/// Two stable orders of the same frequencies agree on their first `k` symbols.
proof fn lemma_stable_order_prefix(freq: Seq<u64>, o1: Seq<usize>, o2: Seq<usize>, k: int)
    requires
        is_stable_order(freq, o1),
        is_stable_order(freq, o2),
        0 <= k <= o1.len(),
    ensures
        forall|j: int| 0 <= j < k ==> o1[j] == o2[j],
    decreases k,
{
    if k > 0 {
        lemma_stable_order_prefix(freq, o1, o2, k - 1);
        let i = k - 1;
        let a = o1[i];
        let b = o2[i];
        if a != b {
            lemma_order_covers(freq, o2, a as int);
            let p = choose|p: int| 0 <= p < o2.len() && o2[p] == a;
            lemma_order_covers(freq, o1, b as int);
            let q = choose|q: int| 0 <= q < o1.len() && o1[q] == b;
            if p < i {
                assert(o1[p] == o2[p]);
            }
            if q < i {
                assert(o1[q] == o2[q]);
            }
            assert(p > i && q > i);
        }
    }
}

/// Frequencies have one stable order only.
pub proof fn lemma_stable_order_unique(freq: Seq<u64>, o1: Seq<usize>, o2: Seq<usize>)
    requires
        is_stable_order(freq, o1),
        is_stable_order(freq, o2),
    ensures
        o1 == o2,
{
    lemma_stable_order_prefix(freq, o1, o2, o1.len() as int);
    assert(o1 =~= o2);
}

/// For a given stable order, package-merge assigns one set of code lengths only.
pub proof fn lemma_pm_code_lengths_unique(freq: Seq<u64>, order: Seq<usize>, m: nat, a: Seq<u32>, b: Seq<u32>)
    requires
        is_stable_order(freq, order),
        pm_code_lengths(freq, order, m, a),
        pm_code_lengths(freq, order, m, b),
    ensures
        a == b,
{
    assert forall|i: int| 0 <= i < a.len() implies a[i] == b[i] by {
        lemma_order_covers(freq, order, i);
        let j = choose|j: int| 0 <= j < order.len() && order[j] == i;
        assert(a[order[j] as int] == pm_len_from(freq, order, m, 0, j));
        assert(b[order[j] as int] == pm_len_from(freq, order, m, 0, j));
    }
    assert(a =~= b);
}

} // verus!
