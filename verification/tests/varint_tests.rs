use ddup_bak::stream::ByteReader;
use ddup_bak::varint::{
    decode_i64, decode_u32, decode_u64, encode_i64, encode_u32, encode_u64, zigzag_decode,
    zigzag_encode,
};

#[test]
fn encode_small_values_take_one_byte() {
    assert_eq!(encode_u64(0), vec![0x00]);
    assert_eq!(encode_u64(1), vec![0x01]);
    assert_eq!(encode_u64(127), vec![0x7F]);
    assert_eq!(encode_u32(127), vec![0x7F]);
}

#[test]
fn encode_sets_the_high_bit_on_all_but_the_last_byte() {
    assert_eq!(encode_u64(128), vec![0x80, 0x01]);
    assert_eq!(encode_u64(300), vec![0xAC, 0x02]);
    assert_eq!(encode_u32(16384), vec![0x80, 0x80, 0x01]);
}

#[test]
fn encode_u64_max_takes_ten_bytes() {
    let bytes = encode_u64(u64::MAX);
    assert_eq!(
        bytes,
        vec![0xFF, 0xFF, 0xFF, 0xFF, 0xFF, 0xFF, 0xFF, 0xFF, 0xFF, 0x01]
    );
    assert_eq!(encode_u32(u32::MAX), vec![0xFF, 0xFF, 0xFF, 0xFF, 0x0F]);
}

#[test]
fn decode_gives_back_what_was_encoded() {
    for n in [0u64, 1, 127, 128, 300, 16383, 16384, 1 << 32, (1 << 63) - 1, 1 << 63, u64::MAX] {
        let mut reader = ByteReader::new(encode_u64(n));
        assert_eq!(decode_u64(&mut reader), n);
        assert_eq!(reader.remaining(), 0);
    }
    for n in [0u32, 1, 127, 128, 65535, u32::MAX] {
        let mut reader = ByteReader::new(encode_u32(n));
        assert_eq!(decode_u32(&mut reader), n);
        assert_eq!(reader.remaining(), 0);
    }
}

#[test]
fn decode_leaves_what_follows() {
    let mut bytes = encode_u64(300);
    bytes.extend_from_slice(&[9, 8, 7]);
    let mut reader = ByteReader::new(bytes);
    assert_eq!(decode_u64(&mut reader), 300);
    assert_eq!(reader.remaining(), 3);
    assert_eq!(reader.read_u8(), Some(9));
}

#[test]
fn decode_of_an_unterminated_varint_returns_the_partial_value() {
    let mut reader = ByteReader::new(vec![0x81, 0x82]);
    assert_eq!(decode_u64(&mut reader), 1 + (2 << 7));
    assert_eq!(reader.remaining(), 0);
    let mut empty = ByteReader::new(Vec::new());
    assert_eq!(decode_u64(&mut empty), 0);
    assert_eq!(decode_u32(&mut empty), 0);
}

#[test]
fn decode_drops_bits_above_the_width() {
    // eleven groups: the last two lie wholly above bit 63
    let mut long = vec![0xFF; 11];
    long.push(0x01);
    let mut reader = ByteReader::new(long);
    assert_eq!(decode_u64(&mut reader), u64::MAX);
    assert_eq!(reader.remaining(), 0);
    let mut reader = ByteReader::new(vec![0xFF, 0xFF, 0xFF, 0xFF, 0x7F]);
    assert_eq!(decode_u32(&mut reader), u32::MAX);
}

#[test]
fn zigzag_keeps_small_numbers_small() {
    assert_eq!(zigzag_encode(0), 0);
    assert_eq!(zigzag_encode(-1), 1);
    assert_eq!(zigzag_encode(1), 2);
    assert_eq!(zigzag_encode(-2), 3);
    assert_eq!(zigzag_encode(i64::MAX), u64::MAX - 1);
    assert_eq!(zigzag_encode(i64::MIN), u64::MAX);
    for n in [0i64, 1, -1, 63, -64, 64, -65, i64::MAX, i64::MIN, 1 << 40, -(1 << 40)] {
        assert_eq!(zigzag_encode(n), ((n << 1) ^ (n >> 63)) as u64);
        assert_eq!(zigzag_decode(zigzag_encode(n)), n);
        let mut reader = ByteReader::new(encode_i64(n));
        assert_eq!(decode_i64(&mut reader), n);
        assert_eq!(reader.remaining(), 0);
    }
    assert_eq!(encode_i64(-1), vec![1]);
    assert_eq!(encode_i64(-64), vec![0x7F]);
    assert_eq!(encode_i64(64), vec![0x80, 0x01]);
}

#[test]
fn the_reader_reads_exactly_or_not_at_all() {
    let mut reader = ByteReader::new(vec![1, 2, 3, 4, 5]);
    assert_eq!(reader.read_exact(2), Some(vec![1, 2]));
    assert_eq!(reader.read_exact(4), None);
    assert_eq!(reader.remaining(), 3);
    assert_eq!(reader.read_exact(0), Some(Vec::new()));
    assert_eq!(reader.read_exact(3), Some(vec![3, 4, 5]));
    assert_eq!(reader.read_u8(), None);
    assert_eq!(reader.read_exact(1), None);
}
