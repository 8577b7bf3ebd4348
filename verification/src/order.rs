//! Stable orderings of index lists, by integer keys or by byte strings.
use core::cmp::Ordering;
use vstd::prelude::*;

use crate::blocks::ArchiveEntryDescriptor;
use crate::pm::freq_at;
use vstd::utf8::encode_utf8;

verus! {

/// Total order on keys (the type has no unordered values, so `Equal` never stands in for an
/// incomparable pair here).
pub fn order_non_nan(a: &u64, b: &u64) -> (r: Ordering)
    ensures
        r == (if *a < *b {
            Ordering::Less
        } else if *a == *b {
            Ordering::Equal
        } else {
            Ordering::Greater
        }),
{
    a.partial_cmp(b).unwrap_or(Ordering::Equal)
}

/// `std`'s stable `sort_by` on the indices, ordered by their keys.
#[verifier::external_body]
pub(crate) fn sort_indices_by_key(idx: &mut Vec<usize>, keys: &[u64])
    requires
        forall|i: int| 0 <= i < old(idx).len() ==> old(idx)[i] < keys.len(),
    ensures
        final(idx).len() == old(idx).len(),
        exists|p: Seq<int>|
            #![trigger p.len()]
            {
                &&& p.len() == old(idx).len()
                &&& forall|i: int| 0 <= i < p.len() ==> 0 <= #[trigger] p[i] < p.len()
                &&& forall|i: int, j: int| 0 <= i < j < p.len() ==> p[i] != p[j]
                &&& forall|i: int|
                    0 <= i < p.len() ==> #[trigger] final(idx)[i] == old(idx)[p[i]]
                &&& forall|i: int, j: int|
                    0 <= i < j < p.len() ==> (freq_at(keys@, final(idx)[i]) < freq_at(keys@, final(idx)[j]) || (freq_at(keys@, final(idx)[i]) == freq_at(keys@, final(idx)[j])
                        && p[i] < p[j]))
            },
{
    idx.sort_by(|a, b| order_non_nan(&keys[*a], &keys[*b]));
}

/// `a` comes before or equals `b` in lexicographic byte order (a proper prefix comes first).
pub open spec fn bytes_le(a: Seq<u8>, b: Seq<u8>) -> bool
    decreases a.len(),
{
    if a.len() == 0 {
        true
    } else if b.len() == 0 {
        false
    } else if a[0] != b[0] {
        a[0] < b[0]
    } else {
        bytes_le(a.drop_first(), b.drop_first())
    }
}

/// Lexicographic comparison of byte strings, the order of `str` and `[u8]`: -1, 0 or 1 as `a`
/// comes before, equals or comes after `b`.
pub fn compare_bytes(a: &[u8], b: &[u8]) -> (r: i8)
    ensures
        (r == -1) <==> (bytes_le(a@, b@) && a@ != b@),
        (r == 0) <==> a@ == b@,
        (r == 1) <==> !bytes_le(a@, b@),
{
    let mut i = 0usize;
    while i < a.len() && i < b.len()
        invariant
            i <= a.len(),
            i <= b.len(),
            a@.take(i as int) == b@.take(i as int),
        decreases a.len() - i,
    {
        if a[i] != b[i] {
            proof {
                lemma_bytes_le_common(a@, b@, i as int);
            }
            if a[i] < b[i] {
                return -1;
            } else {
                return 1;
            }
        }
        i = i + 1;
        proof {
            assert(a@.take(i as int) =~= a@.take(i - 1).push(a@[i - 1]));
            assert(b@.take(i as int) =~= b@.take(i - 1).push(b@[i - 1]));
        }
    }
    proof {
        lemma_bytes_le_common(a@, b@, i as int);
        if i == a.len() && i == b.len() {
            assert(a@ =~= a@.take(i as int));
            assert(b@ =~= b@.take(i as int));
        }
        if a@ == b@ {
            assert(a.len() == b.len());
        }
    }
    if a.len() < b.len() {
        -1
    } else if a.len() == b.len() {
        0
    } else {
        1
    }
}

/// The byte string at index `i`.
pub open spec fn name_at(names: Seq<Vec<u8>>, i: usize) -> Seq<u8> {
    names[i as int]@
}

/// `compare_bytes` as an `Ordering`.
pub fn byte_order(a: &[u8], b: &[u8]) -> (r: Ordering)
    ensures
        (r == Ordering::Less) <==> (bytes_le(a@, b@) && a@ != b@),
        (r == Ordering::Equal) <==> a@ == b@,
        (r == Ordering::Greater) <==> !bytes_le(a@, b@),
{
    let c = compare_bytes(a, b);
    if c < 0 {
        Ordering::Less
    } else if c == 0 {
        Ordering::Equal
    } else {
        Ordering::Greater
    }
}

/// After a common prefix of length `i`, the order is decided by what follows it.
proof fn lemma_bytes_le_common(a: Seq<u8>, b: Seq<u8>, i: int)
    requires
        0 <= i <= a.len(),
        i <= b.len(),
        a.take(i) == b.take(i),
    ensures
        i < a.len() && i < b.len() && a[i] != b[i] ==> (bytes_le(a, b) <==> a[i] < b[i]),
        i == a.len() ==> bytes_le(a, b),
        i == b.len() && i < a.len() ==> !bytes_le(a, b),
    decreases i,
{
    if i > 0 {
        assert(a[0] == a.take(i)[0]);
        assert(b[0] == b.take(i)[0]);
        assert(a.drop_first().take(i - 1) =~= b.drop_first().take(i - 1)) by {
            assert forall|k: int| 0 <= k < i - 1 implies a.drop_first()[k] == b.drop_first()[k] by {
                assert(a.take(i)[k + 1] == b.take(i)[k + 1]);
                assert(a.take(i)[k + 1] == a[k + 1]);
                assert(b.take(i)[k + 1] == b[k + 1]);
                assert(a.drop_first()[k] == a[k + 1]);
                assert(b.drop_first()[k] == b[k + 1]);
            }
        }
        lemma_bytes_le_common(a.drop_first(), b.drop_first(), i - 1);
    }
}

/// `std`'s stable `sort_by` on the indices, ordered by the byte strings they index.
#[verifier::external_body]
pub(crate) fn sort_indices_by_bytes(idx: &mut Vec<usize>, names: &[Vec<u8>])
    requires
        forall|i: int| 0 <= i < old(idx).len() ==> old(idx)[i] < names.len(),
    ensures
        final(idx).len() == old(idx).len(),
        exists|p: Seq<int>|
            #![trigger p.len()]
            {
                &&& p.len() == old(idx).len()
                &&& forall|i: int| 0 <= i < p.len() ==> 0 <= #[trigger] p[i] < p.len()
                &&& forall|i: int, j: int| 0 <= i < j < p.len() ==> p[i] != p[j]
                &&& forall|i: int|
                    0 <= i < p.len() ==> #[trigger] final(idx)[i] == old(idx)[p[i]]
                &&& forall|i: int, j: int|
                    0 <= i < j < p.len() ==> bytes_le(name_at(names@, final(idx)[i]), name_at(names@, final(idx)[j]))
                        && (name_at(names@, final(idx)[i]) == name_at(names@, final(idx)[j]) ==> p[i] < p[j])
            },
{
    idx.sort_by(|a, b| byte_order(&names[*a], &names[*b]));
}

/// Archive order of two entries: by name, or largest first.
pub fn entry_order(a: &ArchiveEntryDescriptor, b: &ArchiveEntryDescriptor, by_size: bool) -> (r: Ordering)
    ensures
        by_size ==> (r == Ordering::Less <==> a.uncompressed_size > b.uncompressed_size),
        by_size ==> (r == Ordering::Equal <==> a.uncompressed_size == b.uncompressed_size),
        !by_size ==> ((r == Ordering::Less) <==> (bytes_le(encode_utf8(a.logical_name@), encode_utf8(b.logical_name@)) && encode_utf8(a.logical_name@) != encode_utf8(b.logical_name@))),
        !by_size ==> ((r == Ordering::Equal) <==> encode_utf8(a.logical_name@) == encode_utf8(b.logical_name@)),
{
    if by_size {
        if a.uncompressed_size > b.uncompressed_size {
            Ordering::Less
        } else if a.uncompressed_size == b.uncompressed_size {
            Ordering::Equal
        } else {
            Ordering::Greater
        }
    } else {
        byte_order(a.logical_name.as_str().as_bytes(), b.logical_name.as_str().as_bytes())
    }
}

/// The name of an entry as bytes.
pub open spec fn name_bytes(e: ArchiveEntryDescriptor) -> Seq<u8> {
    encode_utf8(e.logical_name@)
}

/// `later` is ordered after (or tied with) `earlier` in archive order.
pub open spec fn entry_le(earlier: ArchiveEntryDescriptor, later: ArchiveEntryDescriptor, by_size: bool) -> bool {
    if by_size {
        earlier.uncompressed_size >= later.uncompressed_size
    } else {
        bytes_le(name_bytes(earlier), name_bytes(later))
    }
}

/// The two entries tie in archive order.
pub open spec fn entry_tie(a: ArchiveEntryDescriptor, b: ArchiveEntryDescriptor, by_size: bool) -> bool {
    if by_size {
        a.uncompressed_size == b.uncompressed_size
    } else {
        name_bytes(a) == name_bytes(b)
    }
}

/// `std`'s stable `sort_by` on entries in archive order.
#[verifier::external_body]
pub(crate) fn sort_entries(entries: &mut Vec<ArchiveEntryDescriptor>, by_size: bool)
    ensures
        final(entries).len() == old(entries).len(),
        exists|p: Seq<int>|
            #![trigger p.len()]
            {
                &&& p.len() == old(entries).len()
                &&& forall|i: int| 0 <= i < p.len() ==> 0 <= #[trigger] p[i] < p.len()
                &&& forall|i: int, j: int| 0 <= i < j < p.len() ==> p[i] != p[j]
                &&& forall|i: int|
                    0 <= i < p.len() ==> #[trigger] final(entries)@[i] == old(entries)@[p[i]]
                &&& forall|i: int, j: int|
                    0 <= i < j < p.len() ==> entry_le(final(entries)@[i], final(entries)@[j], by_size)
                        && (entry_tie(final(entries)@[i], final(entries)@[j], by_size) ==> p[i] < p[j])
            },
{
    entries.sort_by(|a, b| entry_order(a, b, by_size));
}

} // verus!
