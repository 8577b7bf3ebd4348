use vstd::prelude::*;

verus! {

/// Bit `i` of `x`, counting from the least significant bit.
pub open spec fn bit_at(x: u64, i: int) -> bool {
    (x >> (i as u64)) & 1u64 == 1u64
}

/// The low `n` bits of `x`, least significant first (the order DEFLATE emits them).
pub open spec fn low_bits(x: u64, n: nat) -> Seq<bool> {
    Seq::new(n, |i: int| bit_at(x, i))
}

/// The eight bits of a byte, least significant first.
pub open spec fn byte_bits(b: u8) -> Seq<bool> {
    low_bits(b as u64, 8)
}

/// The bit sequence that a byte sequence carries, each byte LSB-first.
pub open spec fn bytes_to_bits(s: Seq<u8>) -> Seq<bool>
    decreases s.len(),
{
    if s.len() == 0 {
        Seq::empty()
    } else {
        bytes_to_bits(s.drop_last()) + byte_bits(s.last())
    }
}

/// `n` zero bits.
pub open spec fn zero_bits(n: nat) -> Seq<bool> {
    Seq::new(n, |i: int| false)
}

/// Number of zero bits that pad `len` bits up to a whole byte.
pub open spec fn pad_len(len: nat) -> nat {
    ((8 - (len % 8) as int) % 8) as nat
}

/// The bytes that `bits` occupy once packed LSB-first, the last byte zero-padded.
pub open spec fn packs(bits: Seq<bool>, bytes: Seq<u8>) -> bool {
    &&& bytes.len() == (bits.len() + 7) / 8
    &&& bytes_to_bits(bytes) == bits + zero_bits(pad_len(bits.len()))
}

pub proof fn lemma_bytes_to_bits_len(s: Seq<u8>)
    ensures
        bytes_to_bits(s).len() == 8 * s.len(),
    decreases s.len(),
{
    if s.len() > 0 {
        lemma_bytes_to_bits_len(s.drop_last());
    }
}

pub proof fn lemma_bytes_to_bits_push(s: Seq<u8>, b: u8)
    ensures
        bytes_to_bits(s.push(b)) == bytes_to_bits(s) + byte_bits(b),
{
    assert(s.push(b).drop_last() =~= s);
}

/// Two byte sequences that carry the same bits are equal.
pub proof fn lemma_bytes_to_bits_injective(a: Seq<u8>, b: Seq<u8>)
    requires
        bytes_to_bits(a) == bytes_to_bits(b),
    ensures
        a == b,
    decreases a.len(),
{
    lemma_bytes_to_bits_len(a);
    lemma_bytes_to_bits_len(b);
    if a.len() > 0 {
        let ta = bytes_to_bits(a.drop_last());
        let tb = bytes_to_bits(b.drop_last());
        lemma_bytes_to_bits_len(a.drop_last());
        lemma_bytes_to_bits_len(b.drop_last());
        let full = bytes_to_bits(a);
        assert(ta =~= full.subrange(0, ta.len() as int));
        assert(tb =~= full.subrange(0, tb.len() as int));
        lemma_bytes_to_bits_injective(a.drop_last(), b.drop_last());
        let x = a.last();
        let y = b.last();
        assert(byte_bits(x) =~= full.subrange(ta.len() as int, full.len() as int));
        assert(byte_bits(y) =~= full.subrange(ta.len() as int, full.len() as int));
        lemma_byte_bits_injective(x, y);
        assert(a =~= a.drop_last().push(x));
        assert(b =~= b.drop_last().push(y));
    }
}

proof fn lemma_byte_bits_injective(x: u8, y: u8)
    requires
        byte_bits(x) == byte_bits(y),
    ensures
        x == y,
{
    let bx = byte_bits(x);
    let by_ = byte_bits(y);
    assert(bx[0] == by_[0] && bx[1] == by_[1] && bx[2] == by_[2] && bx[3] == by_[3]);
    assert(bx[4] == by_[4] && bx[5] == by_[5] && bx[6] == by_[6] && bx[7] == by_[7]);
    let xu = x as u64;
    let yu = y as u64;
    assert(x == y) by (bit_vector)
        requires
            ((xu >> 0u64) & 1u64 == 1u64) == ((yu >> 0u64) & 1u64 == 1u64),
            ((xu >> 1u64) & 1u64 == 1u64) == ((yu >> 1u64) & 1u64 == 1u64),
            ((xu >> 2u64) & 1u64 == 1u64) == ((yu >> 2u64) & 1u64 == 1u64),
            ((xu >> 3u64) & 1u64 == 1u64) == ((yu >> 3u64) & 1u64 == 1u64),
            ((xu >> 4u64) & 1u64 == 1u64) == ((yu >> 4u64) & 1u64 == 1u64),
            ((xu >> 5u64) & 1u64 == 1u64) == ((yu >> 5u64) & 1u64 == 1u64),
            ((xu >> 6u64) & 1u64 == 1u64) == ((yu >> 6u64) & 1u64 == 1u64),
            ((xu >> 7u64) & 1u64 == 1u64) == ((yu >> 7u64) & 1u64 == 1u64),
            xu == x as u64,
            yu == y as u64,
    ;
}

proof fn lemma_low_bits_split_byte(x: u64, m: nat)
    requires
        8 <= m <= 64,
    ensures
        low_bits(x, m) == byte_bits(x as u8) + low_bits(x >> 8u64, (m - 8) as nat),
{
    let rhs = byte_bits(x as u8) + low_bits(x >> 8u64, (m - 8) as nat);
    assert forall|i: int| 0 <= i < m implies #[trigger] low_bits(x, m)[i] == rhs[i] by {
        let iu = i as u64;
        if i < 8 {
            assert(((x as u8 as u64) >> iu) & 1u64 == (x >> iu) & 1u64) by (bit_vector)
                requires
                    iu < 8,
            ;
        } else {
            let ju = (i - 8) as u64;
            assert(((x >> 8u64) >> ju) & 1u64 == (x >> iu) & 1u64) by (bit_vector)
                requires
                    iu < 64,
                    ju + 8 == iu,
            ;
        }
    }
    assert(low_bits(x, m) =~= rhs);
}

proof fn lemma_low_bits_append(buf: u64, v: u64, u: u64, n: u64)
    requires
        u + n <= 64,
        u < 64,
        buf < (1u64 << u),
        n == 64 || v < (1u64 << n),
    ensures
        low_bits(buf | (v << u), (u + n) as nat) == low_bits(buf, u as nat) + low_bits(
            v,
            n as nat,
        ),
{
    let w = buf | (v << u);
    let rhs = low_bits(buf, u as nat) + low_bits(v, n as nat);
    assert forall|i: int| 0 <= i < u + n implies #[trigger] low_bits(w, (u + n) as nat)[i]
        == rhs[i] by {
        let iu = i as u64;
        if iu < u {
            assert(((buf | (v << u)) >> iu) & 1u64 == (buf >> iu) & 1u64) by (bit_vector)
                requires
                    iu < u,
                    u < 64,
            ;
        } else {
            let ju = (iu - u) as u64;
            assert(((buf | (v << u)) >> iu) & 1u64 == (v >> ju) & 1u64) by (bit_vector)
                requires
                    iu < 64,
                    u <= iu,
                    ju == iu - u,
                    buf < (1u64 << u),
                    u + n <= 64,
                    n == 64 || v < (1u64 << n),
                    ju < n,
            ;
        }
    }
    assert(low_bits(w, (u + n) as nat) =~= rhs);
}

proof fn lemma_low_bits_masked(val: u32, n: u64)
    requires
        n <= 32,
    ensures
        low_bits(
            (val & (if n == 32 {
                u32::MAX
            } else {
                ((1u32 << n) - 1) as u32
            })) as u64,
            n as nat,
        ) == low_bits(val as u64, n as nat),
        n == 32 || ((val & (if n == 32 {
            u32::MAX
        } else {
            ((1u32 << n) - 1) as u32
        })) as u64) < (1u64 << n),
{
    let mask: u32 = if n == 32 {
        u32::MAX
    } else {
        ((1u32 << n) - 1) as u32
    };
    if n < 32 {
        assert((1u32 << n) >= 1) by (bit_vector)
            requires
                n < 32,
        ;
    }
    let m = val & mask;
    assert forall|i: int| 0 <= i < n implies #[trigger] low_bits(m as u64, n as nat)[i]
        == low_bits(val as u64, n as nat)[i] by {
        let iu = i as u64;
        if n == 32 {
            assert(mask == 0xffff_ffffu32);
            assert(((val & 0xffff_ffffu32) as u64 >> iu) & 1u64 == ((val as u64) >> iu) & 1u64)
                by (bit_vector);
        } else {
            assert(((val & ((1u32 << n) - 1) as u32) as u64 >> iu) & 1u64 == ((val as u64) >> iu)
                & 1u64) by (bit_vector)
                requires
                    iu < n,
                    n < 32,
            ;
        }
    }
    assert(low_bits(m as u64, n as nat) =~= low_bits(val as u64, n as nat));
    if n < 32 {
        assert(((val & ((1u32 << n) - 1) as u32) as u64) < (1u64 << n)) by (bit_vector)
            requires
                n < 32,
        ;
    }
}

pub proof fn lemma_low_bits_zero(x: u64)
    ensures
        low_bits(x, 0) == Seq::<bool>::empty(),
{
    assert(low_bits(x, 0) =~= Seq::<bool>::empty());
}

/// A bit-packing writer that accumulates bits in a 64-bit buffer and
/// emits whole bytes, LSB-first as DEFLATE requires.
pub struct BitWriter {
    out: Vec<u8>,
    bit_buf: u64,
    bits_used: u8,
}

impl BitWriter {
    /// Every bit written so far, in order.
    pub closed spec fn bits(&self) -> Seq<bool> {
        bytes_to_bits(self.out@) + low_bits(self.bit_buf, self.bits_used as nat)
    }

    /// Fewer than eight bits wait in the buffer, and no stale bit lies above them.
    pub closed spec fn wf(&self) -> bool {
        &&& self.bits_used < 8
        &&& self.bit_buf < (1u64 << self.bits_used)
    }

    pub fn with_capacity(cap: usize) -> (w: Self)
        ensures
            w.wf(),
            w.bits() == Seq::<bool>::empty(),
    {
        let w = Self { out: Vec::with_capacity(cap), bit_buf: 0, bits_used: 0 };
        proof {
            assert(0u64 < (1u64 << 0u8)) by (bit_vector);
            lemma_low_bits_zero(0);
            assert(w.out@ =~= Seq::<u8>::empty());
            assert(w.bits() =~= Seq::<bool>::empty());
        }
        w
    }

    /// Append the low `n` bits of `val` (LSB-first, as DEFLATE requires).
    pub fn put_bits(&mut self, val: u32, n: u8)
        requires
            old(self).wf(),
            n <= 32,
        ensures
            final(self).wf(),
            final(self).bits() == old(self).bits() + low_bits(val as u64, n as nat),
    {
        if (self.bits_used as usize) + (n as usize) > 64 {
            self.flush_full_bytes();
        }
        let mask: u32 = if n == 32 {
            u32::MAX
        } else {
            proof {
                assert((1u32 << n) >= 1) by (bit_vector)
                    requires
                        n < 32,
                ;
            }
            (1u32 << n) - 1
        };
        let ghost before = self.bits();
        let ghost out0 = self.out@;
        let u = self.bits_used;
        let buf = self.bit_buf;
        let v = val & mask;
        proof {
            lemma_low_bits_masked(val, n as u64);
            if n == 32 {
                let vv = v as u64;
                assert(vv < (1u64 << 32u64)) by (bit_vector)
                    requires
                        vv < 0x1_0000_0000u64,
                ;
            }
            lemma_low_bits_append(buf, v as u64, u as u64, n as u64);
            let uu = u as u64;
            let nn = n as u64;
            let vv = v as u64;
            assert(buf | (vv << uu) < (1u64 << (uu + nn) as u64)) by (bit_vector)
                requires
                    uu < 8,
                    nn <= 32,
                    buf < (1u64 << uu),
                    nn == 32 || vv < (1u64 << nn),
                    vv < 0x1_0000_0000u64,
            ;
        }
        self.bit_buf = buf | ((v as u64) << (u as u64));
        self.bits_used = u + n;
        proof {
            assert(self.bits() =~= before + low_bits(val as u64, n as nat));
        }
        self.flush_full_bytes();
    }

    /// The packed bytes: every bit written, the last byte padded with zero bits.
    pub fn finish(self) -> (out: Vec<u8>)
        requires
            self.wf(),
        ensures
            packs(self.bits(), out@),
    {
        let mut s = self;
        let ghost bits = s.bits();
        let ghost out0 = s.out@;
        proof {
            lemma_bytes_to_bits_len(out0);
        }
        if s.bits_used > 0 {
            let b = s.bit_buf as u8;
            let ghost u = s.bits_used;
            let ghost x = s.bit_buf;
            proof {
                lemma_bytes_to_bits_push(out0, b);
                let pad = pad_len(bits.len());
                assert(bits.len() == 8 * out0.len() + u);
                assert((8 * out0.len() + u) % 8 == u) by (nonlinear_arith)
                    requires
                        u < 8,
                ;
                assert(pad == 8 - u);
                let rhs = low_bits(x, u as nat) + zero_bits(pad);
                assert forall|i: int| 0 <= i < 8 implies #[trigger] byte_bits(b)[i] == rhs[i] by {
                    let iu = i as u64;
                    let uu = u as u64;
                    if i < u {
                        assert(((x as u8 as u64) >> iu) & 1u64 == (x >> iu) & 1u64)
                            by (bit_vector)
                            requires
                                iu < 8,
                        ;
                    } else {
                        assert(((x as u8 as u64) >> iu) & 1u64 == 0u64) by (bit_vector)
                            requires
                                iu < 8,
                                uu <= iu,
                                x < (1u64 << uu),
                                uu < 8,
                        ;
                    }
                }
                assert(byte_bits(b) =~= rhs);
                assert(bytes_to_bits(out0.push(b)) =~= bits + zero_bits(pad));
                assert((8 * out0.len() + u + 7) / 8 == out0.len() + 1) by (nonlinear_arith)
                    requires
                        0 < u < 8,
                ;
            }
            s.out.push(b);
        } else {
            proof {
                lemma_low_bits_zero(s.bit_buf);
                assert(bits =~= bytes_to_bits(out0));
                assert((8 * out0.len()) % 8 == 0) by (nonlinear_arith);
                assert((8 * out0.len() + 7) / 8 == out0.len()) by (nonlinear_arith);
                assert(zero_bits(0) =~= Seq::<bool>::empty());
                assert(bits + zero_bits(0) =~= bits);
            }
        }
        s.out
    }

    /// Move every whole byte from the bit buffer to the output.
    fn flush_full_bytes(&mut self)
        requires
            old(self).bits_used <= 64,
            old(self).bits_used == 64 || old(self).bit_buf < (1u64 << old(self).bits_used),
        ensures
            final(self).wf(),
            final(self).bits() == old(self).bits(),
    {
        while self.bits_used >= 8
            invariant
                self.bits_used <= 64,
                self.bits_used == 64 || self.bit_buf < (1u64 << self.bits_used),
                self.bits() == old(self).bits(),
            decreases self.bits_used,
        {
            let x = self.bit_buf;
            let u = self.bits_used;
            let b = x as u8;
            let ghost out0 = self.out@;
            proof {
                lemma_low_bits_split_byte(x, u as nat);
                lemma_bytes_to_bits_push(out0, b);
                let uu = u as u64;
                if uu == 64 {
                    assert((x >> 8u64) < (1u64 << 56u64)) by (bit_vector);
                } else {
                    assert((x >> 8u64) < (1u64 << (uu - 8) as u64)) by (bit_vector)
                        requires
                            8 <= uu < 64,
                            x < (1u64 << uu),
                    ;
                }
            }
            self.out.push(b);
            self.bit_buf = x >> 8u64;
            self.bits_used = u - 8;
            proof {
                assert(self.bits() =~= old(self).bits());
            }
        }
    }
}

/// Bit `j` of a packed byte stream: bit `j % 8` of byte `j / 8`.
pub open spec fn packed_bit(bytes: Seq<u8>, j: int) -> bool {
    bit_at(bytes[j / 8] as u64, j % 8)
}

/// The bits that a run of writes `(value, count)` appends, each value's low bits LSB-first.
pub open spec fn written_bits(writes: Seq<(u32, u8)>) -> Seq<bool>
    decreases writes.len(),
{
    if writes.len() == 0 {
        Seq::empty()
    } else {
        written_bits(writes.drop_last()) + low_bits(
            writes.last().0 as u64,
            writes.last().1 as nat,
        )
    }
}

/// Bit `j` of the bits a byte sequence carries is bit `j % 8` of byte `j / 8`.
pub proof fn lemma_bytes_to_bits_index(s: Seq<u8>, j: int)
    requires
        0 <= j < 8 * s.len(),
    ensures
        bytes_to_bits(s).len() == 8 * s.len(),
        bytes_to_bits(s)[j] == packed_bit(s, j),
    decreases s.len(),
{
    lemma_bytes_to_bits_len(s);
    let n = s.len() - 1;
    lemma_bytes_to_bits_len(s.drop_last());
    if j < 8 * n {
        lemma_bytes_to_bits_index(s.drop_last(), j);
        assert(j / 8 < n);
        assert(s.drop_last()[j / 8] == s[j / 8]);
    } else {
        assert(j / 8 == n);
        assert(j % 8 == j - 8 * n);
        assert(bytes_to_bits(s)[j] == byte_bits(s.last())[j - 8 * n]);
    }
}

/// Packed bytes, read bit by bit: as many bytes as the bits need, bit `j` of the stream is
/// `bits[j]`, and every padding bit after them is zero.
pub proof fn lemma_packs_bitwise(bits: Seq<bool>, bytes: Seq<u8>)
    requires
        packs(bits, bytes),
    ensures
        bytes.len() == (bits.len() + 7) / 8,
        forall|j: int| 0 <= j < bits.len() ==> #[trigger] packed_bit(bytes, j) == bits[j],
        forall|j: int| bits.len() <= j < 8 * bytes.len() ==> !#[trigger] packed_bit(bytes, j),
{
    lemma_bytes_to_bits_len(bytes);
    assert forall|j: int| 0 <= j < bits.len() implies #[trigger] packed_bit(bytes, j) == bits[j] by {
        lemma_bytes_to_bits_index(bytes, j);
    }
    assert forall|j: int| bits.len() <= j < 8 * bytes.len() implies !#[trigger] packed_bit(bytes, j) by {
        lemma_bytes_to_bits_index(bytes, j);
    }
}

/// A writer that starts empty and takes the writes `writes` in turn, each as `put_bits` leaves
/// it, holds exactly `written_bits(writes)`; the bytes `finish` gives for it then carry those bits
/// LSB-first, bit `j` in bit `j % 8` of byte `j / 8`, with zero padding after them.
pub proof fn lemma_writes_then_finish(states: Seq<BitWriter>, writes: Seq<(u32, u8)>, bytes: Seq<u8>)
    requires
        states.len() == writes.len() + 1,
        states[0].bits() == Seq::<bool>::empty(),
        forall|i: int|
            0 <= i < writes.len() ==> #[trigger] states[i + 1].bits() == states[i].bits() + low_bits(
                writes[i].0 as u64,
                writes[i].1 as nat,
            ),
        packs(states.last().bits(), bytes),
    ensures
        states.last().bits() == written_bits(writes),
        bytes.len() == (written_bits(writes).len() + 7) / 8,
        forall|j: int|
            0 <= j < written_bits(writes).len() ==> #[trigger] packed_bit(bytes, j) == written_bits(
                writes,
            )[j],
        forall|j: int| written_bits(writes).len() <= j < 8 * bytes.len() ==> !#[trigger] packed_bit(bytes, j),
{
    let n = writes.len() as int;
    lemma_trace_bits(states, writes, n);
    assert(writes.take(n) =~= writes);
    assert(states.last() == states[n]);
    lemma_packs_bitwise(states.last().bits(), bytes);
}

/// After the first `k` writes of a trace, the writer holds the bits of those writes.
proof fn lemma_trace_bits(states: Seq<BitWriter>, writes: Seq<(u32, u8)>, k: int)
    requires
        states.len() == writes.len() + 1,
        0 <= k <= writes.len(),
        states[0].bits() == Seq::<bool>::empty(),
        forall|i: int|
            0 <= i < writes.len() ==> #[trigger] states[i + 1].bits() == states[i].bits() + low_bits(
                writes[i].0 as u64,
                writes[i].1 as nat,
            ),
    ensures
        states[k].bits() == written_bits(writes.take(k)),
    decreases k,
{
    if k == 0 {
        assert(writes.take(0) =~= Seq::<(u32, u8)>::empty());
    } else {
        lemma_trace_bits(states, writes, k - 1);
        assert(writes.take(k).drop_last() =~= writes.take(k - 1));
        assert(states[(k - 1) + 1].bits() == states[k - 1].bits() + low_bits(
            writes[k - 1].0 as u64,
            writes[k - 1].1 as nat,
        ));
    }
}

} // verus!
