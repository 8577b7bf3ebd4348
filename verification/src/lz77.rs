//! LZ77 tokenization over a 32 KiB window, with optional cross-entry matches from a
//! [`PatternIndex`].
use vstd::prelude::*;

use crate::std_num::saturating_mul_u64;

use crate::index::{bytes_repeat, PatternIndex};

verus! {

pub const NIL: u32 = 0xffff_ffff;

/// 15-bit hash table: 32768 slots, as in zlib.
pub const HASH_SIZE: usize = 32768;

pub const HASH_MASK: usize = 32767;

pub struct Lz77Config {
    pub max_chain: usize,
    pub nice_match: usize,
}

impl Clone for Lz77Config {
    fn clone(&self) -> (r: Self)
        ensures
            r == *self,
    {
        Lz77Config { max_chain: self.max_chain, nice_match: self.nice_match }
    }
}

impl Default for Lz77Config {
    fn default() -> (r: Self)
        ensures
            r.max_chain == 128,
            r.nice_match == 128,
    {
        Self { max_chain: 128, nice_match: 128 }
    }
}

pub struct Lz77BlockParams {
    pub entry: u32,
    pub entry_rel_base: u64,
    pub emit_start: usize,
    pub emit_end: usize,
}

impl Clone for Lz77BlockParams {
    fn clone(&self) -> (r: Self)
        ensures
            r == *self,
    {
        Lz77BlockParams {
            entry: self.entry,
            entry_rel_base: self.entry_rel_base,
            emit_start: self.emit_start,
            emit_end: self.emit_end,
        }
    }
}

#[derive(Clone, Copy, Debug, PartialEq, Eq, Structural)]
pub enum Lz77Token {
    Literal(u8),
    Match { length: u16, distance: u16 },
}

#[derive(Clone, Copy, Debug, PartialEq, Eq, Structural)]
pub enum MatchKind {
    Window,
    Index,
}

pub struct Lz77CompressOutput {
    pub tokens: Vec<Lz77Token>,
    pub matches_from_window: u32,
    pub matches_from_index: u32,
}

// ---------------------------------------------------------------------------
// The meaning of a token stream
// ---------------------------------------------------------------------------

/// A token DEFLATE can carry: a match is 3..=258 bytes long, 1..=32768 bytes back.
pub open spec fn token_wf(t: Lz77Token) -> bool {
    match t {
        Lz77Token::Literal(_) => true,
        Lz77Token::Match { length, distance } => 3 <= length <= 258 && 1 <= distance <= 32768,
    }
}

/// Copy `len` bytes starting `dist` back, one byte at a time (copies may overlap themselves).
pub open spec fn copy_match(out: Seq<u8>, dist: int, len: nat) -> Seq<u8>
    decreases len,
{
    if len == 0 {
        out
    } else {
        copy_match(out.push(out[out.len() - dist]), dist, (len - 1) as nat)
    }
}

/// Decode `tokens` after the already-present bytes `prefix`.
pub open spec fn lz_decode(prefix: Seq<u8>, tokens: Seq<Lz77Token>) -> Seq<u8>
    decreases tokens.len(),
{
    if tokens.len() == 0 {
        prefix
    } else {
        let out = lz_decode(prefix, tokens.drop_last());
        match tokens.last() {
            Lz77Token::Literal(b) => out.push(b),
            Lz77Token::Match { length, distance } => copy_match(
                out,
                distance as int,
                length as nat,
            ),
        }
    }
}

/// Every match reaches back no further than the bytes decoded before it.
pub open spec fn lz_refs_ok(prefix: Seq<u8>, tokens: Seq<Lz77Token>) -> bool
    decreases tokens.len(),
{
    if tokens.len() == 0 {
        true
    } else {
        &&& lz_refs_ok(prefix, tokens.drop_last())
        &&& match tokens.last() {
            Lz77Token::Literal(_) => true,
            Lz77Token::Match { length, distance } => distance <= lz_decode(
                prefix,
                tokens.drop_last(),
            ).len(),
        }
    }
}

/// Number of match tokens.
pub open spec fn match_count(tokens: Seq<Lz77Token>) -> nat
    decreases tokens.len(),
{
    if tokens.len() == 0 {
        0
    } else {
        match_count(tokens.drop_last()) + if tokens.last() is Match {
            1nat
        } else {
            0nat
        }
    }
}

/// A counter that stops at `u32::MAX`.
pub open spec fn sat_u32(n: nat) -> u32 {
    if n > u32::MAX {
        u32::MAX
    } else {
        n as u32
    }
}

/// Copying `len` bytes from `dist` back after `buf[..pos]` rebuilds `buf[..pos + len]` when
/// each of those bytes equals the one `dist` before it (the copy may overlap itself).
proof fn lemma_copy_match_repeat(buf: Seq<u8>, pos: int, dist: int, len: nat)
    requires
        1 <= dist <= pos,
        pos + len <= buf.len(),
        forall|k: int| 0 <= k < len ==> #[trigger] buf[pos + k] == buf[pos - dist + k],
    ensures
        copy_match(buf.subrange(0, pos), dist, len) == buf.subrange(0, pos + len),
    decreases len,
{
    if len > 0 {
        let out = buf.subrange(0, pos);
        assert(buf[pos + 0] == buf[pos - dist + 0]);
        assert(out.push(out[out.len() - dist]) =~= buf.subrange(0, pos + 1));
        assert forall|k: int| 0 <= k < len - 1 implies #[trigger] buf[(pos + 1) + k] == buf[(pos
            + 1) - dist + k] by {
            assert(buf[pos + (k + 1)] == buf[pos - dist + (k + 1)]);
        }
        lemma_copy_match_repeat(buf, pos + 1, dist, (len - 1) as nat);
    } else {
        assert(buf.subrange(0, pos) =~= buf.subrange(0, pos + 0));
    }
}

/// Appending a valid match to tokens that decode to `buf[..pos]` decodes to `buf[..pos + len]`.
proof fn lemma_decode_match(
    prefix: Seq<u8>,
    tokens: Seq<Lz77Token>,
    buf: Seq<u8>,
    pos: int,
    len: int,
    dist: int,
)
    requires
        lz_decode(prefix, tokens) == buf.subrange(0, pos),
        lz_refs_ok(prefix, tokens),
        3 <= len <= 258,
        1 <= dist <= 32768,
        dist <= pos,
        pos + len <= buf.len(),
        bytes_repeat(buf, pos - dist, pos, len),
    ensures
        ({
            let t = tokens.push(Lz77Token::Match { length: len as u16, distance: dist as u16 });
            &&& lz_decode(prefix, t) == buf.subrange(0, pos + len)
            &&& lz_refs_ok(prefix, t)
        }),
{
    let t = tokens.push(Lz77Token::Match { length: len as u16, distance: dist as u16 });
    assert(t.drop_last() =~= tokens);
    assert forall|k: int| 0 <= k < len implies #[trigger] buf[pos + k] == buf[pos - dist + k] by {
        assert(buf[(pos - dist) + k] == buf[pos + k]);
    }
    lemma_copy_match_repeat(buf, pos, dist, len as nat);
}

proof fn lemma_decode_literal(prefix: Seq<u8>, tokens: Seq<Lz77Token>, buf: Seq<u8>, pos: int)
    requires
        lz_decode(prefix, tokens) == buf.subrange(0, pos),
        lz_refs_ok(prefix, tokens),
        0 <= pos < buf.len(),
    ensures
        ({
            let t = tokens.push(Lz77Token::Literal(buf[pos]));
            &&& lz_decode(prefix, t) == buf.subrange(0, pos + 1)
            &&& lz_refs_ok(prefix, t)
        }),
{
    let t = tokens.push(Lz77Token::Literal(buf[pos]));
    assert(t.drop_last() =~= tokens);
    assert(buf.subrange(0, pos).push(buf[pos]) =~= buf.subrange(0, pos + 1));
}


// ---------------------------------------------------------------------------
// Laws of decoding
// ---------------------------------------------------------------------------

/// A copy adds exactly its length.
proof fn lemma_copy_match_len(out: Seq<u8>, dist: int, len: nat)
    ensures
        copy_match(out, dist, len).len() == out.len() + len,
    decreases len,
{
    if len > 0 {
        lemma_copy_match_len(out.push(out[out.len() - dist]), dist, (len - 1) as nat);
    }
}

/// Every token DEFLATE can carry decodes to at least one byte.
pub proof fn lemma_decode_len(prefix: Seq<u8>, tokens: Seq<Lz77Token>)
    requires
        forall|i: int| 0 <= i < tokens.len() ==> token_wf(#[trigger] tokens[i]),
    ensures
        lz_decode(prefix, tokens).len() >= prefix.len() + tokens.len(),
    decreases tokens.len(),
{
    if tokens.len() > 0 {
        let d = tokens.drop_last();
        assert forall|i: int| 0 <= i < d.len() implies token_wf(#[trigger] d[i]) by {
            assert(d[i] == tokens[i]);
        }
        lemma_decode_len(prefix, d);
        assert(token_wf(tokens[tokens.len() - 1]));
        match tokens.last() {
            Lz77Token::Literal(_) => {},
            Lz77Token::Match { length, distance } => {
                lemma_copy_match_len(lz_decode(prefix, d), distance as int, length as nat);
            },
        }
    }
}

/// Decoding two token runs one after the other is decoding the second after the first.
pub proof fn lemma_decode_concat(prefix: Seq<u8>, t1: Seq<Lz77Token>, t2: Seq<Lz77Token>)
    ensures
        lz_decode(prefix, t1 + t2) == lz_decode(lz_decode(prefix, t1), t2),
        lz_refs_ok(prefix, t1 + t2) == (lz_refs_ok(prefix, t1) && lz_refs_ok(lz_decode(prefix, t1), t2)),
    decreases t2.len(),
{
    if t2.len() == 0 {
        assert(t1 + t2 =~= t1);
    } else {
        lemma_decode_concat(prefix, t1, t2.drop_last());
        assert((t1 + t2).drop_last() =~= t1 + t2.drop_last());
        assert((t1 + t2).last() == t2.last());
    }
}

proof fn lemma_copy_match_window(p1: Seq<u8>, q: Seq<u8>, dist: int, len: nat)
    requires
        1 <= dist <= q.len(),
    ensures
        copy_match(p1 + q, dist, len) == p1 + copy_match(q, dist, len),
    decreases len,
{
    if len > 0 {
        let o = p1 + q;
        assert(o[o.len() - dist] == q[q.len() - dist]);
        assert(o.push(o[o.len() - dist]) =~= p1 + q.push(q[q.len() - dist]));
        lemma_copy_match_window(p1, q.push(q[q.len() - dist]), dist, (len - 1) as nat);
    }
}

/// Bytes before the window do not change what tokens that only reach into the window decode
/// to: they stay in front.
pub proof fn lemma_decode_window(p1: Seq<u8>, p2: Seq<u8>, toks: Seq<Lz77Token>)
    requires
        lz_refs_ok(p2, toks),
        forall|i: int| 0 <= i < toks.len() ==> token_wf(#[trigger] toks[i]),
    ensures
        lz_decode(p1 + p2, toks) == p1 + lz_decode(p2, toks),
        lz_refs_ok(p1 + p2, toks),
    decreases toks.len(),
{
    if toks.len() == 0 {
    } else {
        let d = toks.drop_last();
        assert forall|i: int| 0 <= i < d.len() implies token_wf(#[trigger] d[i]) by {
            assert(d[i] == toks[i]);
        }
        lemma_decode_window(p1, p2, d);
        assert(token_wf(toks[toks.len() - 1]));
        match toks.last() {
            Lz77Token::Literal(b) => {
                assert((p1 + lz_decode(p2, d)).push(b) =~= p1 + lz_decode(p2, d).push(b));
            },
            Lz77Token::Match { length, distance } => {
                lemma_copy_match_window(p1, lz_decode(p2, d), distance as int, length as nat);
            },
        }
    }
}

// ---------------------------------------------------------------------------
// Hashing and window bookkeeping
// ---------------------------------------------------------------------------

/// The multiplicative 3-byte hash: `(b0 * 2^16 + b1 * 2^8 + b2) * 0x9E3779B9 mod 2^32`.
pub open spec fn roll_hash3_spec(b0: u8, b1: u8, b2: u8) -> u32 {
    (((b0 as int * 65536 + b1 as int * 256 + b2 as int) * 0x9E37_79B9) % 0x1_0000_0000) as u32
}

pub fn roll_hash3(b0: u8, b1: u8, b2: u8) -> (r: u32)
    ensures
        r == roll_hash3_spec(b0, b1, b2),
{
    let x0 = (b0 as u32).wrapping_shl(16);
    let x1 = (b1 as u32).wrapping_shl(8);
    proof {
        let c0 = b0 as u32;
        let c1 = b1 as u32;
        assert(c0 << 16u32 == c0 * 65536) by (bit_vector)
            requires
                c0 < 256,
        ;
        assert(c1 << 8u32 == c1 * 256) by (bit_vector)
            requires
                c1 < 256,
        ;
        assert(16u32 % 32 == 16u32);
        assert(8u32 % 32 == 8u32);
    }
    let x = x0.wrapping_add(x1).wrapping_add(b2 as u32);
    x.wrapping_mul(0x9E37_79B9u32)
}

#[derive(Clone, Copy)]
pub struct Window<'a> {
    pub data: &'a [u8],
    pub rel_base: u64,
}

impl<'a> Window<'a> {
    pub fn new(data: &'a [u8], rel_base: u64) -> (w: Self)
        ensures
            w.data@ == data@,
            w.rel_base == rel_base,
    {
        Self { data, rel_base }
    }

    /// Entry offset of window position `i`, saturating at `u64::MAX`.
    pub fn abs_at(&self, i: usize) -> (r: u64)
        ensures
            r == (if self.rel_base + i > u64::MAX {
                u64::MAX as int
            } else {
                self.rel_base + i
            }),
    {
        self.rel_base.saturating_add(i as u64)
    }
}

/// Rank of a candidate: longer first, then nearer.
pub open spec fn match_score_spec(len: usize, dist: usize) -> u64 {
    let prod = if len * 65536 > u64::MAX {
        u64::MAX as int
    } else {
        len * 65536
    };
    (if prod - dist < 0 {
        0
    } else {
        prod - dist
    }) as u64
}

fn match_score(len: usize, dist: usize) -> (r: u64)
    ensures
        r == match_score_spec(len, dist),
{
    saturating_mul_u64(len as u64, 65536).saturating_sub(dist as u64)
}

/// The common run of `buf[mp..]` and `buf[pos..]`, counted on from `len`: it grows while the
/// bytes agree, up to 258 bytes and the end of `buf`. The run may pass `pos` (an overlapping
/// copy), which DEFLATE allows.
pub open spec fn run_len(buf: Seq<u8>, mp: int, pos: int, len: int) -> int
    decreases 258 - len,
{
    if len < 258 && pos + len < buf.len() && buf[mp + len] == buf[pos + len] {
        run_len(buf, mp, pos, len + 1)
    } else {
        len
    }
}

/// Length of the common run of `buf[mp..]` and `buf[pos..]`, extended as far as possible: up
/// to 258 bytes or the end of `buf`.
fn extend_match(buf: &[u8], mp: usize, pos: usize) -> (len: usize)
    requires
        mp < pos <= buf.len(),
    ensures
        len == run_len(buf@, mp as int, pos as int, 0),
        len <= 258,
        len <= buf.len() - pos,
        bytes_repeat(buf@, mp as int, pos as int, len as int),
        len < 258 && len < buf.len() - pos ==> buf@[mp + len] != buf@[pos + len],
{
    let rest = buf.len() - pos;
    let mut max_len = 258usize;
    if rest < max_len {
        max_len = rest;
    }
    let mut len = 0usize;
    while len < max_len && buf[mp + len] == buf[pos + len]
        invariant
            max_len <= 258,
            max_len <= rest,
            rest == buf.len() - pos,
            len <= max_len,
            mp < pos <= buf.len(),
            forall|k: int| 0 <= k < len ==> #[trigger] buf@[mp + k] == buf@[pos + k],
            run_len(buf@, mp as int, pos as int, len as int) == run_len(buf@, mp as int, pos as int, 0),
        decreases max_len - len,
    {
        len = len + 1;
    }
    len
}

/// A window match: `len` bytes at `pos` repeat those `dist` back, within DEFLATE's limits.
pub open spec fn window_match_ok(buf: Seq<u8>, pos: int, len: int, dist: int) -> bool {
    &&& 3 <= len <= 258
    &&& 1 <= dist <= 32768
    &&& dist <= pos
    &&& pos + len <= buf.len()
    &&& bytes_repeat(buf, pos - dist, pos, len)
}

/// The hash chains: every recorded position is a real position of `buf`.
pub open spec fn chains_ok(head: Seq<u32>, prev: Seq<u32>, n: int) -> bool {
    &&& head.len() == HASH_SIZE
    &&& prev.len() == n
    &&& forall|h: int| 0 <= h < HASH_SIZE ==> (#[trigger] head[h]) == NIL || head[h] < n
    &&& forall|i: int| 0 <= i < n ==> (#[trigger] prev[i]) == NIL || prev[i] < n
}

/// The window match `window_best` settles on, walking the chain from `cur` after `chain`
/// steps with `best` found so far: the walk stops at the chain's end, after `max_chain` steps,
/// at a position not before `pos`, beyond 32 KiB (or `pos`) back, or at a match of `nice`
/// bytes; a match of at least 3 bytes replaces the best when it scores higher.
pub open spec fn chain_scan(
    buf: Seq<u8>,
    pos: int,
    prev: Seq<u32>,
    max_chain: int,
    nice: int,
    cur: u32,
    chain: int,
    best: Option<(usize, usize)>,
) -> Option<(usize, usize)>
    decreases max_chain - chain,
{
    if cur == NIL || chain >= max_chain {
        best
    } else {
        let mp = cur as int;
        let max_dist = if pos < 32768 {
            pos
        } else {
            32768
        };
        if mp >= pos || pos - mp > max_dist {
            best
        } else {
            let len = run_len(buf, mp, pos, 0);
            let dist = pos - mp;
            if len >= 3 {
                let nb = match best {
                    None => Some((len as usize, dist as usize)),
                    Some((bl, bd)) => if match_score_spec(len as usize, dist as usize) > match_score_spec(bl, bd) {
                        Some((len as usize, dist as usize))
                    } else {
                        best
                    },
                };
                if len >= nice {
                    nb
                } else {
                    chain_scan(buf, pos, prev, max_chain, nice, prev[mp], chain + 1, nb)
                }
            } else {
                chain_scan(buf, pos, prev, max_chain, nice, prev[mp], chain + 1, best)
            }
        }
    }
}

/// The chain positions `chain_scan` examines from `cur`: each is a candidate start whose run
/// with `pos` is measured; the walk ends as `chain_scan`'s does.
pub open spec fn chain_visits(
    buf: Seq<u8>,
    pos: int,
    prev: Seq<u32>,
    max_chain: int,
    nice: int,
    cur: u32,
    chain: int,
) -> Seq<int>
    decreases max_chain - chain,
{
    if cur == NIL || chain >= max_chain {
        Seq::empty()
    } else {
        let mp = cur as int;
        let max_dist = if pos < 32768 {
            pos
        } else {
            32768
        };
        if mp >= pos || pos - mp > max_dist {
            Seq::empty()
        } else if run_len(buf, mp, pos, 0) >= 3 && run_len(buf, mp, pos, 0) >= nice {
            seq![mp]
        } else {
            seq![mp] + chain_visits(buf, pos, prev, max_chain, nice, prev[mp], chain + 1)
        }
    }
}

/// The candidate a chain position offers: its run with `pos` and its distance.
pub open spec fn chain_candidate(buf: Seq<u8>, pos: int, mp: int) -> (usize, usize) {
    (run_len(buf, mp, pos, 0) as usize, (pos - mp) as usize)
}

/// The score of a match (none scores 0).
pub open spec fn opt_score(m: Option<(usize, usize)>) -> u64 {
    match m {
        Some((l, d)) => match_score_spec(l, d),
        None => 0,
    }
}

/// The window search keeps the best candidate: starting from `best`, `chain_scan` finds a match
/// exactly when `best` is one or some examined position gives a run of at least 3 bytes; its
/// result scores at least as high as `best` and as every such candidate, and is `best` or one
/// of them.
pub proof fn lemma_chain_scan_best(
    buf: Seq<u8>,
    pos: int,
    prev: Seq<u32>,
    max_chain: int,
    nice: int,
    cur: u32,
    chain: int,
    best: Option<(usize, usize)>,
)
    ensures
        ({
            let r = chain_scan(buf, pos, prev, max_chain, nice, cur, chain, best);
            let v = chain_visits(buf, pos, prev, max_chain, nice, cur, chain);
            &&& r is None <==> (best is None && forall|k: int| 0 <= k < v.len() ==> run_len(buf, #[trigger] v[k], pos, 0) < 3)
            &&& forall|k: int|
                0 <= k < v.len() && run_len(buf, #[trigger] v[k], pos, 0) >= 3 ==> r is Some && opt_score(r) >= opt_score(Some(chain_candidate(buf, pos, v[k])))
            &&& best is Some ==> r is Some && opt_score(r) >= opt_score(best)
            &&& r is Some ==> (r == best || exists|k: int|
                0 <= k < v.len() && run_len(buf, #[trigger] v[k], pos, 0) >= 3 && r->0 == chain_candidate(buf, pos, v[k]))
        }),
    decreases max_chain - chain,
{
    let r = chain_scan(buf, pos, prev, max_chain, nice, cur, chain, best);
    let v = chain_visits(buf, pos, prev, max_chain, nice, cur, chain);
    if cur == NIL || chain >= max_chain {
        assert(v.len() == 0);
    } else {
        let mp = cur as int;
        let max_dist = if pos < 32768 {
            pos
        } else {
            32768
        };
        if mp >= pos || pos - mp > max_dist {
            assert(v.len() == 0);
        } else {
            let len = run_len(buf, mp, pos, 0);
            let dist = pos - mp;
            let nb = if len >= 3 {
                match best {
                    None => Some((len as usize, dist as usize)),
                    Some((bl, bd)) => if match_score_spec(len as usize, dist as usize) > match_score_spec(bl, bd) {
                        Some((len as usize, dist as usize))
                    } else {
                        best
                    },
                }
            } else {
                best
            };
            assert(v[0] == mp);
            if len >= 3 && len >= nice {
                assert(v =~= seq![mp]);
                assert(r == nb);
            } else {
                let nxt = prev[mp];
                lemma_chain_scan_best(buf, pos, prev, max_chain, nice, nxt, chain + 1, nb);
                let v2 = chain_visits(buf, pos, prev, max_chain, nice, nxt, chain + 1);
                assert(v =~= seq![mp] + v2);
                assert(r == chain_scan(buf, pos, prev, max_chain, nice, nxt, chain + 1, nb));
                assert forall|k: int| 0 <= k < v2.len() implies #[trigger] v2[k] == v[k + 1] by {}
                if r is Some && r != best && r != nb {
                    let k2 = choose|k: int|
                        0 <= k < v2.len() && run_len(buf, #[trigger] v2[k], pos, 0) >= 3 && r->0 == chain_candidate(buf, pos, v2[k]);
                    assert(v[k2 + 1] == v2[k2]);
                }
                if r is Some && r == nb && nb != best {
                    assert(v[0] == mp);
                }
                assert forall|k: int| 0 <= k < v.len() && run_len(buf, #[trigger] v[k], pos, 0) >= 3 implies r is Some && opt_score(r) >= opt_score(Some(chain_candidate(buf, pos, v[k]))) by {
                    if k > 0 {
                        assert(v[k] == v2[k - 1]);
                    }
                }
                if r is None {
                    assert forall|k: int| 0 <= k < v.len() implies run_len(buf, #[trigger] v[k], pos, 0) < 3 by {
                        if k > 0 {
                            assert(v[k] == v2[k - 1]);
                        }
                    }
                }
            }
        }
    }
}

/// Best match at `pos` along the hash chain of slot `h`.
fn window_best(
    buf: &[u8],
    pos: usize,
    head: &Vec<u32>,
    prev: &Vec<u32>,
    cfg: &Lz77Config,
    h: usize,
) -> (r: Option<(usize, usize)>)
    requires
        pos < buf.len(),
        h < HASH_SIZE,
        chains_ok(head@, prev@, buf.len() as int),
    ensures
        r == chain_scan(buf@, pos as int, prev@, cfg.max_chain as int, cfg.nice_match as int, head@[h as int], 0, None),
        r matches Some((len, dist)) ==> window_match_ok(buf@, pos as int, len as int, dist as int),
{
    let max_dist = if pos < 32768 {
        pos
    } else {
        32768
    };
    let mut best: Option<(usize, usize)> = None;
    let mut chain = 0usize;
    let mut cur = head[h];
    while cur != NIL && chain < cfg.max_chain
        invariant_except_break
            chain_scan(buf@, pos as int, prev@, cfg.max_chain as int, cfg.nice_match as int, cur, chain as int, best)
                == chain_scan(buf@, pos as int, prev@, cfg.max_chain as int, cfg.nice_match as int, head@[h as int], 0, None),
        invariant
            pos < buf.len(),
            max_dist <= 32768,
            max_dist <= pos,
            chains_ok(head@, prev@, buf.len() as int),
            cur == NIL || cur < buf.len(),
            best matches Some((len, dist)) ==> window_match_ok(
                buf@,
                pos as int,
                len as int,
                dist as int,
            ),
            max_dist == (if pos < 32768 { pos } else { 32768 }),
        ensures
            best == chain_scan(buf@, pos as int, prev@, cfg.max_chain as int, cfg.nice_match as int, head@[h as int], 0, None),
        decreases cfg.max_chain - chain,
    {
        let ghost scan = chain_scan(buf@, pos as int, prev@, cfg.max_chain as int, cfg.nice_match as int, cur, chain as int, best);
        let mp = cur as usize;
        if mp >= pos {
            assert(scan == best);
            break;
        }
        let dist = pos - mp;
        if dist > max_dist {
            assert(scan == best);
            break;
        }
        let len = extend_match(buf, mp, pos);
        if len >= 3 {
            let score = match_score(len, dist);
            let take = match best {
                None => true,
                Some((bl, bd)) => score > match_score(bl, bd),
            };
            if take {
                best = Some((len, dist));
            }
            if len >= cfg.nice_match {
                assert(scan == best);
                break;
            }
        }
        assert(scan == chain_scan(buf@, pos as int, prev@, cfg.max_chain as int, cfg.nice_match as int, prev@[mp as int], chain + 1, best));
        cur = prev[mp];
        chain = chain + 1;
    }
    best
}

/// The hash-chain slot of the three bytes at `pos`.
pub open spec fn hash_slot(buf: Seq<u8>, pos: int) -> int {
    ((roll_hash3_spec(buf[pos], buf[pos + 1], buf[pos + 2]) as usize) & 32767usize) as int
}

/// Record position `pos` at the head of its hash chain (when three bytes start there): the
/// chain's old head becomes its successor.
fn insert_hash(buf: &[u8], pos: usize, head: &mut Vec<u32>, prev: &mut Vec<u32>)
    requires
        chains_ok(old(head)@, old(prev)@, buf.len() as int),
    ensures
        chains_ok(final(head)@, final(prev)@, buf.len() as int),
        (pos >= buf.len() || buf.len() - pos < 3) ==> final(head)@ == old(head)@ && final(prev)@ == old(prev)@,
        !(pos >= buf.len() || buf.len() - pos < 3) ==> {
            &&& final(prev)@ == old(prev)@.update(pos as int, old(head)@[hash_slot(buf@, pos as int)])
            &&& final(head)@ == old(head)@.update(hash_slot(buf@, pos as int), #[verifier::truncate] (pos as u32))
        },
{
    if pos >= buf.len() || buf.len() - pos < 3 {
        return;
    }
    let h = (roll_hash3(buf[pos], buf[pos + 1], buf[pos + 2]) as usize) & HASH_MASK;
    proof {
        let hv = roll_hash3_spec(buf[pos as int], buf[pos + 1], buf[pos + 2]) as usize;
        assert(hv & 32767usize <= 32767usize) by (bit_vector);
    }
    let old_head = head[h];
    prev.set(pos, old_head);
    #[verifier::truncate]
    let p32 = pos as u32;
    proof {
        assert(p32 as int <= pos) by (bit_vector)
            requires
                p32 == #[verifier::truncate] (pos as u32),
        ;
    }
    head.set(h, p32);
}

/// `c` with position `p` recorded as `insert_hash` records it: when three bytes start at `p`,
/// `p` becomes the head of their slot and the old head its successor.
pub open spec fn chain_insert(buf: Seq<u8>, p: int, c: (Seq<u32>, Seq<u32>)) -> (Seq<u32>, Seq<u32>) {
    if p >= buf.len() || buf.len() - p < 3 {
        c
    } else {
        let slot = hash_slot(buf, p);
        (c.0.update(slot, #[verifier::truncate] (p as u32)), c.1.update(p, c.0[slot]))
    }
}

/// The hash chains (heads, successors) once every position below `n` has been recorded, in
/// order, starting from empty chains.
pub open spec fn chains_before(buf: Seq<u8>, n: int) -> (Seq<u32>, Seq<u32>)
    decreases n,
{
    if n <= 0 {
        (Seq::new(HASH_SIZE as nat, |i: int| NIL), Seq::new(buf.len(), |i: int| NIL))
    } else {
        chain_insert(buf, n - 1, chains_before(buf, n - 1))
    }
}

/// The window match at `at` along chains `c` (see `chain_scan`).
pub open spec fn window_search(buf: Seq<u8>, cfg: Lz77Config, c: (Seq<u32>, Seq<u32>), at: int) -> Option<
    (usize, usize),
> {
    chain_scan(buf, at, c.1, cfg.max_chain as int, cfg.nice_match as int, c.0[hash_slot(buf, at)], 0, None)
}

/// The match `compress_block` takes at `pos` (at least three bytes left there), with its source,
/// or `None` for a literal. The window offers the best match along the chains of the positions
/// before `pos`; unless that one already reaches `nice_match`, the index offers the best earlier
/// occurrence in the same entry within the window's reach; the index's wins when it scores at
/// least as high. A match shorter than `nice_match` and 8 bytes yields a literal when the window
/// finds a longer match one byte later (and that byte is still in the block and has three bytes
/// after it).
#[verifier::opaque]
pub open spec fn block_choice(
    buf: Seq<u8>,
    params: Lz77BlockParams,
    cfg: Lz77Config,
    index: Option<&PatternIndex>,
    pos: int,
) -> Option<((usize, usize), MatchKind)> {
    let c = chains_before(buf, pos);
    let wm = window_search(buf, cfg, c, pos);
    let im = if skips_index(cfg, wm) {
        None
    } else {
        index_offer(buf, params, index, pos)
    };
    let best = pick_match(wm, im);
    if lazy_yield(best, cfg, params, buf.len() as int, pos, window_search(buf, cfg, c, pos + 1)) {
        None
    } else {
        best
    }
}

/// The index is not consulted when the window's match already reaches `nice_match`.
pub open spec fn skips_index(cfg: Lz77Config, wm: Option<(usize, usize)>) -> bool {
    match wm {
        Some((l, _)) => l >= cfg.nice_match,
        None => false,
    }
}

/// The index's offer at `pos`: the best earlier occurrence in the same entry within the
/// window's reach (see `scan_result`).
pub open spec fn index_offer(
    buf: Seq<u8>,
    params: Lz77BlockParams,
    index: Option<&PatternIndex>,
    pos: int,
) -> Option<(usize, usize)> {
    let max_dist: usize = if pos < 32768 {
        pos as usize
    } else {
        32768
    };
    match index {
        Some(ix) => ix.scan_result(
            params.entry,
            (params.entry_rel_base + pos) as u64,
            params.entry_rel_base,
            buf,
            pos,
            max_dist,
            3,
        ),
        None => None,
    }
}

/// The better of the window's and the index's offers; the index's wins a tie.
pub open spec fn pick_match(wm: Option<(usize, usize)>, im: Option<(usize, usize)>) -> Option<
    ((usize, usize), MatchKind),
> {
    match (wm, im) {
        (None, None) => None,
        (Some(w), None) => Some((w, MatchKind::Window)),
        (None, Some(x)) => Some((x, MatchKind::Index)),
        (Some(w), Some(x)) => if match_score_spec(x.0, x.1) >= match_score_spec(w.0, w.1) {
            Some((x, MatchKind::Index))
        } else {
            Some((w, MatchKind::Window))
        },
    }
}

/// A match shorter than `nice_match` and 8 bytes yields to a longer window match `wm1` one byte
/// later, when that byte is still in the block and has three bytes after it.
pub open spec fn lazy_yield(
    best: Option<((usize, usize), MatchKind)>,
    cfg: Lz77Config,
    params: Lz77BlockParams,
    buf_len: int,
    pos: int,
    wm1: Option<(usize, usize)>,
) -> bool {
    match best {
        Some(((l0, _), _)) => l0 < cfg.nice_match && l0 < 8 && pos + 1 < params.emit_end && buf_len - pos
            >= 4 && (match wm1 {
            Some((l1, _)) => l1,
            None => 0,
        }) > l0,
        None => false,
    }
}

/// What `compress_block` does at `pos`: the match `block_choice` picks when three bytes are left
/// there and DEFLATE can carry it, else `None` (a literal).
pub open spec fn block_step(
    buf: Seq<u8>,
    params: Lz77BlockParams,
    cfg: Lz77Config,
    index: Option<&PatternIndex>,
    pos: int,
) -> Option<((usize, usize), MatchKind)> {
    if buf.len() - pos < 3 {
        None
    } else {
        match block_choice(buf, params, cfg, index, pos) {
            Some(((l, d), k)) => if l >= 3 && 1 <= d <= 32768 {
                Some(((l, d), k))
            } else {
                None
            },
            None => None,
        }
    }
}

/// The tokens `compress_block` emits from `pos` to the end of the block: the match of
/// `block_step` when there is one, after which it goes on past the match, else a literal.
pub open spec fn block_tokens(
    buf: Seq<u8>,
    params: Lz77BlockParams,
    cfg: Lz77Config,
    index: Option<&PatternIndex>,
    pos: int,
) -> Seq<Lz77Token>
    decreases (if pos < params.emit_end { params.emit_end - pos } else { 0 }),
{
    if pos < 0 || pos >= params.emit_end || pos >= buf.len() {
        Seq::empty()
    } else {
        match block_step(buf, params, cfg, index, pos) {
            Some(((l, d), _)) => if l >= 1 {
                seq![Lz77Token::Match { length: l as u16, distance: d as u16 }] + block_tokens(
                    buf,
                    params,
                    cfg,
                    index,
                    pos + l,
                )
            } else {
                Seq::empty()
            },
            None => seq![Lz77Token::Literal(buf[pos])] + block_tokens(buf, params, cfg, index, pos + 1),
        }
    }
}

/// How many of the matches `compress_block` emits from `pos` on came from the index.
pub open spec fn block_index_matches(
    buf: Seq<u8>,
    params: Lz77BlockParams,
    cfg: Lz77Config,
    index: Option<&PatternIndex>,
    pos: int,
) -> nat
    decreases (if pos < params.emit_end { params.emit_end - pos } else { 0 }),
{
    if pos < 0 || pos >= params.emit_end || pos >= buf.len() {
        0
    } else {
        match block_step(buf, params, cfg, index, pos) {
            Some(((l, _), k)) => if l >= 1 {
                block_index_matches(buf, params, cfg, index, pos + l) + if k == MatchKind::Index {
                    1nat
                } else {
                    0nat
                }
            } else {
                0
            },
            None => block_index_matches(buf, params, cfg, index, pos + 1),
        }
    }
}

/// Tokenize `buf[emit_start..emit_end]`. Bytes before `emit_start` are history that matches may
/// reach back into; `index`, when given, offers earlier occurrences from the same entry. The
/// tokens are those `block_tokens` describes: at each position the match `block_choice` picks,
/// else a literal; they decode back to the block.
#[verifier::rlimit(60)]
pub fn compress_block(
    buf: &[u8],
    params: &Lz77BlockParams,
    cfg: &Lz77Config,
    index: Option<&PatternIndex>,
) -> (out: Lz77CompressOutput)
    requires
        params.emit_start < params.emit_end ==> params.emit_end <= buf.len(),
        params.entry_rel_base + buf.len() <= u64::MAX,
        index matches Some(ix) ==> ix.wf(),
    ensures
        (buf.len() == 0 || params.emit_start >= params.emit_end) ==> out.tokens.len() == 0,
        !(buf.len() == 0 || params.emit_start >= params.emit_end) ==> exists|end: int|
            params.emit_end <= end <= buf.len() && lz_decode(
                buf@.subrange(0, params.emit_start as int),
                out.tokens@,
            ) == #[trigger] buf@.subrange(0, end) && (params.emit_end == buf.len() ==> end
                == buf.len()),
        !(buf.len() == 0 || params.emit_start >= params.emit_end) ==> lz_refs_ok(
            buf@.subrange(0, params.emit_start as int),
            out.tokens@,
        ),
        forall|i: int| 0 <= i < out.tokens.len() ==> token_wf(#[trigger] out.tokens@[i]),
        exists|w: nat, x: nat|
            w + x == match_count(out.tokens@) && out.matches_from_window == sat_u32(w)
                && out.matches_from_index == sat_u32(x),
        out.tokens@ == block_tokens(buf@, *params, *cfg, index, params.emit_start as int),
        out.matches_from_index == sat_u32(block_index_matches(buf@, *params, *cfg, index, params.emit_start as int)),
        index is None ==> out.matches_from_index == 0,
{
    let mut out = Lz77CompressOutput {
        tokens: Vec::new(),
        matches_from_window: 0,
        matches_from_index: 0,
    };
    proof {
        assert(match_count(Seq::<Lz77Token>::empty()) == 0);
    }
    if buf.len() == 0 || params.emit_start >= params.emit_end {
        proof {
            assert(sat_u32(0) == 0);
        }
        return out;
    }
    let mut head: Vec<u32> = Vec::new();
    let mut k = 0usize;
    while k < HASH_SIZE
        invariant
            k <= HASH_SIZE,
            head.len() == k,
            forall|t: int| 0 <= t < k ==> head[t] == NIL,
        decreases HASH_SIZE - k,
    {
        head.push(NIL);
        k = k + 1;
    }
    let mut prev: Vec<u32> = Vec::new();
    let mut k = 0usize;
    while k < buf.len()
        invariant
            k <= buf.len(),
            prev.len() == k,
            forall|t: int| 0 <= t < k ==> prev[t] == NIL,
        decreases buf.len() - k,
    {
        prev.push(NIL);
        k = k + 1;
    }
    proof {
        assert(head@ =~= chains_before(buf@, 0).0);
        assert(prev@ =~= chains_before(buf@, 0).1);
    }
    let _ = Window::new(buf, params.entry_rel_base);
    // Hash the history so that emitted positions can refer back into it.
    let overlap_end = params.emit_start;
    let mut i = 0usize;
    while i < overlap_end
        invariant
            i <= overlap_end,
            chains_ok(head@, prev@, buf.len() as int),
            head@ == chains_before(buf@, i as int).0,
            prev@ == chains_before(buf@, i as int).1,
        decreases overlap_end - i,
    {
        insert_hash(buf, i, &mut head, &mut prev);
        i = i + 1;
    }
    let ghost prefix = buf@.subrange(0, params.emit_start as int);
    let ghost mut wcount: nat = 0;
    let ghost mut icount: nat = 0;
    let mut pos = params.emit_start;
    proof {
        assert(lz_decode(prefix, out.tokens@) == buf@.subrange(0, pos as int));
    }
    while pos < params.emit_end
        invariant_except_break
            head@ == chains_before(buf@, pos as int).0,
            prev@ == chains_before(buf@, pos as int).1,
        invariant
            params.emit_start <= pos <= buf.len(),
            params.emit_end <= buf.len(),
            params.emit_start < params.emit_end,
            params.entry_rel_base + buf.len() <= u64::MAX,
            index matches Some(ix) ==> ix.wf(),
            prefix == buf@.subrange(0, params.emit_start as int),
            chains_ok(head@, prev@, buf.len() as int),
            lz_decode(prefix, out.tokens@) == buf@.subrange(0, pos as int),
            lz_refs_ok(prefix, out.tokens@),
            forall|t: int| 0 <= t < out.tokens.len() ==> token_wf(#[trigger] out.tokens@[t]),
            wcount + icount == match_count(out.tokens@),
            out.matches_from_window == sat_u32(wcount),
            out.matches_from_index == sat_u32(icount),
            out.tokens@ + block_tokens(buf@, *params, *cfg, index, pos as int) == block_tokens(buf@, *params, *cfg, index, params.emit_start as int),
            icount + block_index_matches(buf@, *params, *cfg, index, pos as int) == block_index_matches(buf@, *params, *cfg, index, params.emit_start as int),
            index is None ==> icount == 0,
        ensures
            out.tokens@ == block_tokens(buf@, *params, *cfg, index, params.emit_start as int),
            icount == block_index_matches(buf@, *params, *cfg, index, params.emit_start as int),
            index is None ==> icount == 0,
            params.emit_end <= pos <= buf.len(),
            lz_decode(prefix, out.tokens@) == buf@.subrange(0, pos as int),
            lz_refs_ok(prefix, out.tokens@),
            forall|t: int| 0 <= t < out.tokens.len() ==> token_wf(#[trigger] out.tokens@[t]),
            wcount + icount == match_count(out.tokens@),
            out.matches_from_window == sat_u32(wcount),
            out.matches_from_index == sat_u32(icount),
        decreases buf.len() - pos,
    {
        if buf.len() - pos < 3 {
            // Tail: the remaining bytes go out as literals.
            while pos < params.emit_end
                invariant
                    params.emit_start <= pos <= params.emit_end <= buf.len(),
                    lz_decode(prefix, out.tokens@) == buf@.subrange(0, pos as int),
                    lz_refs_ok(prefix, out.tokens@),
                    forall|t: int|
                        0 <= t < out.tokens.len() ==> token_wf(#[trigger] out.tokens@[t]),
                    wcount + icount == match_count(out.tokens@),
                    out.matches_from_window == sat_u32(wcount),
                    out.matches_from_index == sat_u32(icount),
                    buf.len() - pos < 3,
                    out.tokens@ + block_tokens(buf@, *params, *cfg, index, pos as int) == block_tokens(buf@, *params, *cfg, index, params.emit_start as int),
                    icount + block_index_matches(buf@, *params, *cfg, index, pos as int) == block_index_matches(buf@, *params, *cfg, index, params.emit_start as int),
                    index is None ==> icount == 0,
                decreases params.emit_end - pos,
            {
                let ghost before = out.tokens@;
                proof {
                    lemma_decode_literal(prefix, out.tokens@, buf@, pos as int);
                    assert(out.tokens@.push(Lz77Token::Literal(buf[pos as int])).drop_last()
                        =~= out.tokens@);
                    assert(block_step(buf@, *params, *cfg, index, pos as int) is None);
                }
                out.tokens.push(Lz77Token::Literal(buf[pos]));
                proof {
                    assert(out.tokens@ + block_tokens(buf@, *params, *cfg, index, pos + 1) =~= before + block_tokens(buf@, *params, *cfg, index, pos as int));
                }
                pos = pos + 1;
            }
            proof {
                assert(out.tokens@ + block_tokens(buf@, *params, *cfg, index, pos as int) =~= out.tokens@);
            }
            break;
        }
        let h = (roll_hash3(buf[pos], buf[pos + 1], buf[pos + 2]) as usize) & HASH_MASK;
        proof {
            let hv = roll_hash3_spec(buf[pos as int], buf[pos + 1], buf[pos + 2]) as usize;
            assert(hv & 32767usize <= 32767usize) by (bit_vector);
        }
        // Window match.
        let wm = window_best(buf, pos, &head, &prev, cfg, h);
        // Index match (same entry, outside this window); skipped when the window already
        // found a nice match.
        let cur_rel = params.entry_rel_base.saturating_add(pos as u64);
        let max_dist = if pos < 32768 {
            pos
        } else {
            32768
        };
        let skip_index = match wm {
            Some((l, _)) => l >= cfg.nice_match,
            None => false,
        };
        let im = if skip_index {
            None
        } else {
            match index {
                Some(ix) => ix.scan_global(
                    params.entry,
                    cur_rel,
                    params.entry_rel_base,
                    buf,
                    pos,
                    max_dist,
                    3,
                ),
                None => None,
            }
        };
        proof {
            if let Some((l, d)) = im {
                assert(cur_rel == params.entry_rel_base + pos);
                assert(cur_rel - d - params.entry_rel_base == pos - d);
            }
        }
        // Pick the better candidate.
        let best: Option<((usize, usize), MatchKind)> = match (wm, im) {
            (None, None) => None,
            (Some(w), None) => Some((w, MatchKind::Window)),
            (None, Some(x)) => Some((x, MatchKind::Index)),
            (Some(w), Some(x)) => {
                if match_score(x.0, x.1) >= match_score(w.0, w.1) {
                    Some((x, MatchKind::Index))
                } else {
                    Some((w, MatchKind::Window))
                }
            },
        };
        // Lazy matching: a short match yields to a longer window match one byte later.
        let use_literal = match best {
            Some(((len0, _), _)) => {
                if len0 < cfg.nice_match && len0 < 8 && pos + 1 < params.emit_end && buf.len() - pos
                    >= 4 {
                    let h1 = (roll_hash3(buf[pos + 1], buf[pos + 2], buf[pos + 3]) as usize)
                        & HASH_MASK;
                    proof {
                        let hv = roll_hash3_spec(buf[pos + 1], buf[pos + 2], buf[pos + 3]) as usize;
                        assert(hv & 32767usize <= 32767usize) by (bit_vector);
                    }
                    let wm1 = window_best(buf, pos + 1, &head, &prev, cfg, h1);
                    let len1 = match wm1 {
                        Some((l, _)) => l,
                        None => 0,
                    };
                    len1 > len0
                } else {
                    false
                }
            },
            None => false,
        };
        proof {
            let c = chains_before(buf@, pos as int);
            assert(h == hash_slot(buf@, pos as int));
            assert(wm == window_search(buf@, *cfg, c, pos as int));
            assert(skip_index == skips_index(*cfg, wm));
            assert(!skip_index ==> im == index_offer(buf@, *params, index, pos as int));
            assert(best == pick_match(wm, im));
            assert(use_literal == lazy_yield(best, *cfg, *params, buf.len() as int, pos as int, window_search(buf@, *cfg, c, pos + 1)));
            assert(block_choice(buf@, *params, *cfg, index, pos as int) == (if use_literal {
                None
            } else {
                best
            })) by {
                reveal(block_choice);
            }
        }
        let ghost before = out.tokens@;
        let ghost step = block_step(buf@, *params, *cfg, index, pos as int);
        if use_literal {
            proof {
                lemma_decode_literal(prefix, out.tokens@, buf@, pos as int);
                assert(out.tokens@.push(Lz77Token::Literal(buf[pos as int])).drop_last()
                    =~= out.tokens@);
                assert(step is None);
            }
            out.tokens.push(Lz77Token::Literal(buf[pos]));
            insert_hash(buf, pos, &mut head, &mut prev);
            proof {
                assert(out.tokens@ + block_tokens(buf@, *params, *cfg, index, pos + 1) =~= before + block_tokens(buf@, *params, *cfg, index, pos as int));
            }
            pos = pos + 1;
            continue;
        }
        if let Some(((len, dist), src)) = best {
            if len >= 3 && dist >= 1 && dist <= 32768 {
                proof {
                    lemma_decode_match(prefix, out.tokens@, buf@, pos as int, len as int, dist as int);
                    let tk = Lz77Token::Match { length: len as u16, distance: dist as u16 };
                    assert(out.tokens@.push(tk).drop_last() =~= out.tokens@);
                    assert(step == Some(((len, dist), src)));
                }
                match src {
                    MatchKind::Window => {
                        out.matches_from_window = out.matches_from_window.saturating_add(1);
                        proof {
                            wcount = wcount + 1;
                        }
                    },
                    MatchKind::Index => {
                        out.matches_from_index = out.matches_from_index.saturating_add(1);
                        proof {
                            icount = icount + 1;
                        }
                    },
                }
                out.tokens.push(Lz77Token::Match { length: len as u16, distance: dist as u16 });
                proof {
                    assert(out.tokens@ + block_tokens(buf@, *params, *cfg, index, (pos + len) as int) =~= before + block_tokens(buf@, *params, *cfg, index, pos as int));
                }
                // Hash every position the match covers.
                let end = pos + len;
                let mut q = pos;
                while q < end
                    invariant
                        pos <= q <= end,
                        chains_ok(head@, prev@, buf.len() as int),
                        head@ == chains_before(buf@, q as int).0,
                        prev@ == chains_before(buf@, q as int).1,
                    decreases end - q,
                {
                    insert_hash(buf, q, &mut head, &mut prev);
                    q = q + 1;
                }
                pos = end;
                continue;
            }
        }
        proof {
            lemma_decode_literal(prefix, out.tokens@, buf@, pos as int);
            assert(out.tokens@.push(Lz77Token::Literal(buf[pos as int])).drop_last()
                =~= out.tokens@);
            assert(step is None);
        }
        out.tokens.push(Lz77Token::Literal(buf[pos]));
        insert_hash(buf, pos, &mut head, &mut prev);
        proof {
            assert(out.tokens@ + block_tokens(buf@, *params, *cfg, index, pos + 1) =~= before + block_tokens(buf@, *params, *cfg, index, pos as int));
        }
        pos = pos + 1;
    }
    proof {
        assert(lz_decode(prefix, out.tokens@) == buf@.subrange(0, pos as int));
    }
    out
}

/// A run counted on from `len` stays between `len` and 258 bytes.
proof fn lemma_run_len_bounds(buf: Seq<u8>, mp: int, pos: int, len: int)
    requires
        0 <= len <= 258,
    ensures
        len <= run_len(buf, mp, pos, len) <= 258,
    decreases 258 - len,
{
    if len < 258 && pos + len < buf.len() && buf[mp + len] == buf[pos + len] {
        lemma_run_len_bounds(buf, mp, pos, len + 1);
    }
}

/// Every chain position the window search examines lies before `pos` and within 32 KiB of it.
proof fn lemma_chain_visits_bounds(
    buf: Seq<u8>,
    pos: int,
    prev: Seq<u32>,
    max_chain: int,
    nice: int,
    cur: u32,
    chain: int,
)
    ensures
        forall|k: int|
            0 <= k < chain_visits(buf, pos, prev, max_chain, nice, cur, chain).len() ==> {
                let mp = #[trigger] chain_visits(buf, pos, prev, max_chain, nice, cur, chain)[k];
                0 <= mp < pos && pos - mp <= 32768
            },
    decreases max_chain - chain,
{
    if !(cur == NIL || chain >= max_chain) {
        let mp = cur as int;
        let max_dist = if pos < 32768 {
            pos
        } else {
            32768
        };
        if !(mp >= pos || pos - mp > max_dist) {
            if !(run_len(buf, mp, pos, 0) >= 3 && run_len(buf, mp, pos, 0) >= nice) {
                lemma_chain_visits_bounds(buf, pos, prev, max_chain, nice, prev[mp], chain + 1);
                let v = chain_visits(buf, pos, prev, max_chain, nice, cur, chain);
                let v2 = chain_visits(buf, pos, prev, max_chain, nice, prev[mp], chain + 1);
                assert(v =~= seq![mp] + v2);
                assert forall|k: int| 0 < k < v.len() implies #[trigger] v[k] == v2[k - 1] by {}
            }
        }
    }
}

/// Matches of DEFLATE's sizes (at most 258 bytes, at most 32 KiB back) rank longer first: a
/// longer match outranks a shorter one whatever their distances, and of two equally long
/// matches (of at least one byte) the nearer outranks the farther.
pub proof fn lemma_match_score_order(l1: usize, d1: usize, l2: usize, d2: usize)
    requires
        l1 <= 258,
        l2 <= 258,
        d1 <= 32768,
        d2 <= 32768,
    ensures
        l1 > l2 ==> match_score_spec(l1, d1) > match_score_spec(l2, d2),
        1 <= l1 == l2 && d1 < d2 ==> match_score_spec(l1, d1) > match_score_spec(l2, d2),
        l1 == l2 && d1 == d2 ==> match_score_spec(l1, d1) == match_score_spec(l2, d2),
{
    assert(l1 * 65536 <= 258 * 65536) by (nonlinear_arith)
        requires
            l1 <= 258,
    ;
    assert(l2 * 65536 <= 258 * 65536) by (nonlinear_arith)
        requires
            l2 <= 258,
    ;
    if l1 > l2 {
        assert(l1 * 65536 >= l2 * 65536 + 65536) by (nonlinear_arith)
            requires
                l1 >= l2 + 1,
        ;
    }
    if l1 >= 1 {
        assert(l1 * 65536 >= 65536) by (nonlinear_arith)
            requires
                l1 >= 1,
        ;
    }
}

/// The window search picks a longest match: starting from no match, what it finds is the run
/// and distance of a position it examined, no examined position offers a longer run (of at
/// least 3 bytes), and every one offering an equally long run lies at least as far back.
pub proof fn lemma_window_pick_longest(
    buf: Seq<u8>,
    pos: int,
    prev: Seq<u32>,
    max_chain: int,
    nice: int,
    cur: u32,
)
    ensures
        ({
            let r = chain_scan(buf, pos, prev, max_chain, nice, cur, 0, None);
            let v = chain_visits(buf, pos, prev, max_chain, nice, cur, 0);
            &&& r is None <==> forall|k: int| 0 <= k < v.len() ==> run_len(buf, #[trigger] v[k], pos, 0) < 3
            &&& r matches Some((len, dist)) ==> {
                &&& exists|k: int|
                    0 <= k < v.len() && len == run_len(buf, #[trigger] v[k], pos, 0) && dist == pos - v[k]
                &&& 3 <= len <= 258
                &&& forall|k: int|
                    0 <= k < v.len() && run_len(buf, #[trigger] v[k], pos, 0) >= 3 ==> run_len(buf, v[k], pos, 0)
                        <= len && (run_len(buf, v[k], pos, 0) == len ==> dist <= pos - v[k])
            }
        }),
{
    let r = chain_scan(buf, pos, prev, max_chain, nice, cur, 0, None);
    let v = chain_visits(buf, pos, prev, max_chain, nice, cur, 0);
    lemma_chain_scan_best(buf, pos, prev, max_chain, nice, cur, 0, None);
    lemma_chain_visits_bounds(buf, pos, prev, max_chain, nice, cur, 0);
    if r is Some {
        let k0 = choose|k: int|
            0 <= k < v.len() && run_len(buf, #[trigger] v[k], pos, 0) >= 3 && r->0 == chain_candidate(buf, pos, v[k]);
        let len = (r->0).0;
        let dist = (r->0).1;
        lemma_run_len_bounds(buf, v[k0], pos, 0);
        assert(len as int == run_len(buf, v[k0], pos, 0));
        assert(dist as int == pos - v[k0]);
        assert forall|k: int|
            0 <= k < v.len() && run_len(buf, #[trigger] v[k], pos, 0) >= 3 implies run_len(buf, v[k], pos, 0)
                <= len && (run_len(buf, v[k], pos, 0) == len ==> dist <= pos - v[k]) by {
            lemma_run_len_bounds(buf, v[k], pos, 0);
            let c = chain_candidate(buf, pos, v[k]);
            assert(opt_score(r) >= opt_score(Some(c)));
            lemma_match_score_order(c.0, c.1, len, dist);
        }
    }
}

/// Of the window's and the index's offers (each of DEFLATE's sizes), the longer is taken; of two
/// equally long ones the nearer, the index's when they are equally near.
pub proof fn lemma_pick_match_longest(wm: Option<(usize, usize)>, im: Option<(usize, usize)>)
    requires
        wm matches Some((l, d)) ==> 1 <= l <= 258 && d <= 32768,
        im matches Some((l, d)) ==> 1 <= l <= 258 && d <= 32768,
    ensures
        pick_match(wm, im) is None <==> wm is None && im is None,
        wm is None ==> (im matches Some(x) ==> pick_match(wm, im) == Some((x, MatchKind::Index))),
        im is None ==> (wm matches Some(w) ==> pick_match(wm, im) == Some((w, MatchKind::Window))),
        wm is Some && im is Some ==> {
            let w = wm->0;
            let x = im->0;
            &&& x.0 > w.0 ==> pick_match(wm, im) == Some((x, MatchKind::Index))
            &&& w.0 > x.0 ==> pick_match(wm, im) == Some((w, MatchKind::Window))
            &&& w.0 == x.0 && x.1 <= w.1 ==> pick_match(wm, im) == Some((x, MatchKind::Index))
            &&& w.0 == x.0 && w.1 < x.1 ==> pick_match(wm, im) == Some((w, MatchKind::Window))
        },
{
    if wm is Some && im is Some {
        let w = wm->0;
        let x = im->0;
        assert(1 <= w.0 <= 258 && w.1 <= 32768);
        assert(1 <= x.0 <= 258 && x.1 <= 32768);
        lemma_match_score_order(x.0, x.1, w.0, w.1);
        lemma_match_score_order(w.0, w.1, x.0, x.1);
    }
}

} // verus!
