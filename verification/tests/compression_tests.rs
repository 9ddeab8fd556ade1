use ddup_bak::archive::CompressionFormat;
use ddup_bak::compression::{compress, copy_bytes, decompress};

fn sample() -> Vec<u8> {
    let mut data = Vec::new();
    for i in 0..4096u32 {
        data.push((i % 7) as u8);
    }
    data
}

#[test]
fn tags_are_zero_to_three() {
    assert_eq!(CompressionFormat::Uncompressed.encode(), 0);
    assert_eq!(CompressionFormat::Gzip.encode(), 1);
    assert_eq!(CompressionFormat::Deflate.encode(), 2);
    assert_eq!(CompressionFormat::Brotli.encode(), 3);
    assert_eq!(CompressionFormat::decode(0), CompressionFormat::Uncompressed);
    assert_eq!(CompressionFormat::decode(1), CompressionFormat::Gzip);
    assert_eq!(CompressionFormat::decode(2), CompressionFormat::Deflate);
    assert_eq!(CompressionFormat::decode(3), CompressionFormat::Brotli);
}

#[test]
fn uncompressed_is_the_identity() {
    let data = sample();
    assert_eq!(compress(CompressionFormat::Uncompressed, &data), Some(data.clone()));
    assert_eq!(decompress(CompressionFormat::Uncompressed, &data), Some(data.clone()));
    assert_eq!(copy_bytes(&data), data);
}

#[test]
fn deflate_round_trips_and_shrinks() {
    let data = sample();
    let stored = compress(CompressionFormat::Deflate, &data).unwrap();
    assert_ne!(stored, data);
    assert!(stored.len() < data.len());
    assert_eq!(decompress(CompressionFormat::Deflate, &stored), Some(data));
}

#[test]
fn gzip_round_trips_and_has_its_magic() {
    let data = sample();
    let stored = compress(CompressionFormat::Gzip, &data).unwrap();
    assert_eq!(&stored[..2], &[0x1f, 0x8b]);
    assert!(stored.len() < data.len());
    assert_eq!(decompress(CompressionFormat::Gzip, &stored), Some(data));
}

#[test]
fn brotli_round_trips_and_shrinks() {
    let data = sample();
    let stored = compress(CompressionFormat::Brotli, &data).unwrap();
    assert_ne!(stored, data);
    assert!(stored.len() < data.len());
    assert_eq!(decompress(CompressionFormat::Brotli, &stored), Some(data));
}

#[test]
fn empty_input_round_trips_in_every_format() {
    for format in [
        CompressionFormat::Uncompressed,
        CompressionFormat::Gzip,
        CompressionFormat::Deflate,
        CompressionFormat::Brotli,
    ] {
        let stored = compress(format, &[]).unwrap();
        assert_eq!(decompress(format, &stored), Some(Vec::new()));
    }
}

#[test]
fn compression_is_a_function_of_its_input() {
    let data = sample();
    for format in [CompressionFormat::Gzip, CompressionFormat::Deflate, CompressionFormat::Brotli] {
        assert_eq!(compress(format, &data), compress(format, &data));
    }
}

#[test]
fn garbage_does_not_decompress() {
    let garbage = vec![0xFFu8; 64];
    assert_eq!(decompress(CompressionFormat::Gzip, &garbage), None);
    assert_eq!(decompress(CompressionFormat::Deflate, &garbage), None);
    assert_eq!(decompress(CompressionFormat::Brotli, &garbage), None);
}

#[test]
fn the_same_data_is_stored_as_the_same_bytes() {
    let data: Vec<u8> = (0..50_000u32).map(|i| (i * i % 251) as u8 ^ (i / 7) as u8).collect();
    for format in [CompressionFormat::Gzip, CompressionFormat::Deflate, CompressionFormat::Brotli] {
        let one = compress(format, &data).unwrap();
        let other = compress(format, &data.clone()).unwrap();
        assert_eq!(one, other);
        assert_ne!(one, data);
        assert_eq!(decompress(format, &one), Some(data.clone()));
    }
}
