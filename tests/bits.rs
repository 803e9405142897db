use lzfse_codec::bits::{mask, BitReader, BitWriter};
use lzfse_codec::error::Error;
use lzfse_codec::rng::Rng;

#[test]
fn bit_mask() {
    let lhs = u64::MAX;
    for n_bits in 0..64u32 {
        let expected = ((1u128 << n_bits) - 1) as u64;
        assert_eq!(mask(lhs, n_bits), expected);
    }
}

#[test]
fn check_bytes() {
    let mut rng = Rng::new(0);
    let bytes = rng.gen_vec(1023).unwrap();
    let mut rng = Rng::new(0);
    assert!(rng.check_bytes(&bytes));
}

#[test]
fn check_bytes_detects_a_change() {
    let mut bytes = Rng::new(0).gen_vec(1023).unwrap();
    bytes[1022] ^= 1;
    assert!(!Rng::new(0).check_bytes(&bytes));
}

#[test]
fn rng_first_values() {
    let mut rng = Rng::new(0);
    assert_eq!(rng.gen(), 12345);
    assert_eq!(rng.gen(), 12345u32.wrapping_mul(1_103_515_245).wrapping_add(12_345));
}

#[test]
fn write_read_fibonacci() {
    let mut fib = vec![1u64, 1];
    while fib.len() < 32 {
        let n = fib.len();
        fib.push(fib[n - 1] + fib[n - 2]);
    }
    let mut writer = BitWriter::new();
    for &v in fib.iter() {
        writer.push(v, 64 - v.leading_zeros());
    }
    let (bytes, off) = writer.finalize();
    let mut padded = vec![0u8; 8];
    padded.extend_from_slice(&bytes);
    let mut reader = BitReader::new(&padded, off).unwrap();
    for &v in fib.iter().rev() {
        assert_eq!(reader.pull(64 - v.leading_zeros()), v);
    }
    assert!(reader.finalize().is_ok());
}

#[test]
fn write_read_exact_bytes() {
    let mut writer = BitWriter::new();
    writer.push(0b101, 3);
    writer.push(0xAB, 8);
    let (bytes, off) = writer.finalize();
    // Bits, least significant first: 1 0 1, then 0xAB from its low bit up.
    assert_eq!(bytes, vec![0x5D, 0x05]);
    assert_eq!(off, 5);
    let mut padded = vec![0u8; 8];
    padded.extend_from_slice(&bytes);
    let mut reader = BitReader::new(&padded, off).unwrap();
    assert_eq!(reader.pull(8), 0xAB);
    assert_eq!(reader.pull(3), 0b101);
    assert!(reader.finalize().is_ok());
}

#[test]
fn finalize_detects_under_pull() {
    let bytes = [0u8, 0, 0, 0, 0, 0, 0, 0, 0xFF, 0x01];
    let mut reader = BitReader::new(&bytes, 7).unwrap();
    let _ = reader.pull(8);
    assert_eq!(reader.finalize(), Err(Error::PayloadUnderflow));
}

#[test]
fn finalize_detects_over_pull() {
    let bytes = [0x11u8, 0, 0, 0, 0, 0, 0, 0x80, 0xFF];
    let mut reader = BitReader::new(&bytes, 0).unwrap();
    assert_eq!(reader.pull(8), 0xFF);
    // The pad is no data: pulling into it is an over-pull.
    assert_eq!(reader.pull(2), 2);
    assert_eq!(reader.finalize(), Err(Error::PayloadUnderflow));
}

#[test]
fn reader_refuses_high_bits() {
    let bytes = [0u8, 0, 0, 0, 0, 0, 0, 0, 0x00, 0x80];
    assert!(matches!(BitReader::new(&bytes, 1), Err(Error::BadBitStream)));
    assert!(BitReader::new(&bytes, 0).is_ok());
}

// Bit stream of the first 32 Fibonacci numbers, behind an eight byte pad.
const FIB_32_BS: [u8; 49] = [
    0x00, 0x00, 0x00, 0x00, 0x00, 0x00, 0x00, 0x00, 0x7B, 0xB1, 0xAB, 0x78, 0x67, 0x21, 0xD3,
    0xF3, 0x8A, 0xB9, 0x7D, 0x8F, 0x31, 0xB4, 0x0A, 0xB6, 0x69, 0x61, 0xF5, 0xA5, 0x18, 0xFF,
    0x06, 0xA9, 0x8D, 0x28, 0x19, 0xA3, 0x5D, 0xE8, 0xDF, 0xB9, 0x6C, 0xD6, 0x62, 0x1F, 0x45,
    0x96, 0xBB, 0x15, 0x29,
];

const FIB_32_OFF: u32 = 2;

fn fib_32() -> Vec<u64> {
    let mut fib = vec![0u64, 1];
    while fib.len() < 32 {
        let n = fib.len();
        fib.push(fib[n - 1] + fib[n - 2]);
    }
    fib
}

#[test]
fn fibonacci() {
    let mut rdr = BitReader::new(&FIB_32_BS, FIB_32_OFF).unwrap();
    for &v in fib_32().iter().rev() {
        let u = rdr.pull(64 - v.leading_zeros());
        assert_eq!(v, u);
    }
    assert!(rdr.finalize().is_ok());
}

#[test]
fn fibonacci_interleave_zero() {
    let mut rdr = BitReader::new(&FIB_32_BS, FIB_32_OFF).unwrap();
    for &v in fib_32().iter().rev() {
        let u = rdr.pull(64 - v.leading_zeros());
        assert_eq!(v, u);
        assert_eq!(rdr.pull(0), 0);
    }
    assert!(rdr.finalize().is_ok());
}

#[test]
fn overflow() {
    let bytes = [0xFF, 0xFF, 0xFF, 0xFF, 0xFF, 0xFF, 0xFF, 0xFF, 0x00];
    for off in 0..7u32 {
        let mut rdr = BitReader::new(&bytes, off).unwrap();
        for _ in 0..8 - off {
            assert_eq!(rdr.pull(1), 0);
        }
        assert!(rdr.finalize().is_ok());
        let mut rdr = BitReader::new(&bytes, off).unwrap();
        for _ in 0..8 - off {
            rdr.pull(1);
        }
        assert_eq!(rdr.pull(1), 1);
        assert!(rdr.finalize().is_err());
    }
}

#[test]
fn writer_matches_padded_fibonacci_stream() {
    let mut writer = BitWriter::new();
    for &v in fib_32().iter() {
        writer.push(v, 64 - v.leading_zeros());
    }
    let (bytes, off) = writer.finalize();
    assert_eq!(off, FIB_32_OFF);
    assert_eq!(&bytes[..], &FIB_32_BS[8..]);
}
