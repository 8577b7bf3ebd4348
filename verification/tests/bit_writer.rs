use paraflate::bit_writer::BitWriter;

fn reference_bits(ops: &[(u32, u8)]) -> Vec<u8> {
    let mut out = Vec::new();
    let mut bit_buf = 0u64;
    let mut bits_used = 0u8;
    for &(val, n) in ops {
        let mask = if n == 32 { u32::MAX } else { (1u32 << n) - 1 };
        bit_buf |= ((val & mask) as u64) << bits_used;
        bits_used += n;
        while bits_used >= 8 {
            out.push(bit_buf as u8);
            bit_buf >>= 8;
            bits_used -= 8;
        }
    }
    if bits_used > 0 {
        out.push(bit_buf as u8);
    }
    out
}

#[test]
fn finish_flushes_all_pending_bytes() {
    let ops = [(0xABCD, 16)];
    let mut writer = BitWriter::with_capacity(16);
    for (val, bits) in ops {
        writer.put_bits(val, bits);
    }
    assert_eq!(writer.finish(), reference_bits(&ops));
}

#[test]
fn handles_writes_that_cross_the_u64_boundary() {
    let ops = [
        (0x89AB_CDEF, 32),
        (0x0123_4567, 32),
        (0b101_0110, 7),
        (0x1357_9BDF, 32),
        (0b11, 2),
    ];
    let mut writer = BitWriter::with_capacity(64);
    for (val, bits) in ops {
        writer.put_bits(val, bits);
    }
    assert_eq!(writer.finish(), reference_bits(&ops));
}

#[test]
fn empty_writer_finishes_with_no_bytes() {
    let writer = BitWriter::with_capacity(0);
    assert_eq!(writer.finish(), Vec::<u8>::new());
}

#[test]
fn partial_byte_is_padded_with_zero_bits() {
    let mut writer = BitWriter::with_capacity(0);
    writer.put_bits(0b101, 3);
    writer.put_bits(0xFFFF_FFFF, 0);
    writer.put_bits(0b1, 1);
    assert_eq!(writer.finish(), vec![0b0000_1101]);
}

#[test]
fn only_the_low_bits_of_a_value_are_written() {
    let mut writer = BitWriter::with_capacity(0);
    writer.put_bits(0xFF, 4);
    writer.put_bits(0, 4);
    assert_eq!(writer.finish(), vec![0x0F]);
}
