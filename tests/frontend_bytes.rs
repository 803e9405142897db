use lzfse_codec::block::{FSE2_MAGIC, RAW_MAGIC, VN_CUTOFF};
use lzfse_codec::encode::LzfseEncoder;
use lzfse_codec::frontend_bytes::FrontendBytes;
use lzfse_codec::history::HistoryTable;
use lzfse_codec::rng::Rng;

fn compress(src: &[u8]) -> Vec<u8> {
    let table = HistoryTable::new();
    let mut frontend = FrontendBytes::new(table, src);
    let mut dst = Vec::with_capacity(32 + src.len() * 2);
    frontend.execute(&mut dst);
    dst
}

fn check_output(src: &[u8], expected: &[u8]) {
    let dst = compress(src);
    assert_eq!(dst, expected);
}

fn check_magic(src: &[u8], expected: u32) {
    let dst = compress(src);
    let magic = u32::from_le_bytes([dst[0], dst[1], dst[2], dst[3]]);
    assert_eq!(magic, expected);
}

// Raw, assumes the defaults (RAW_CUTOFF: 0x0014, VN_CUTOFF: 0x1000)
#[test]
fn frontend_bytes_zero_0() {
    check_output(&[0; 0], &[0x62, 0x76, 0x78, 0x2D, 0x00, 0x00, 0x00, 0x00, 0x62, 0x76, 0x78, 0x24]);
}

#[test]
fn frontend_bytes_zero_1() {
    check_output(
        &[0; 1],
        &[0x62, 0x76, 0x78, 0x2D, 0x01, 0x00, 0x00, 0x00, 0x00, 0x62, 0x76, 0x78, 0x24],
    );
}

#[test]
fn frontend_bytes_zero_20() {
    check_output(
        &[0; 20],
        &[
            0x62, 0x76, 0x78, 0x2D, 0x14, 0x00, 0x00, 0x00, 0x00, 0x00, 0x00, 0x00, 0x00, 0x00,
            0x00, 0x00, 0x00, 0x00, 0x00, 0x00, 0x00, 0x00, 0x00, 0x00, 0x00, 0x00, 0x00, 0x00,
            0x62, 0x76, 0x78, 0x24,
        ],
    );
}

#[test]
fn frontend_bytes_zero_21() {
    check_output(
        &[0; 21],
        &[
            0x62, 0x76, 0x78, 0x6E, 0x15, 0x00, 0x00, 0x00, 0x0C, 0x00, 0x00, 0x00, 0x68, 0x01,
            0x00, 0xFC, 0x06, 0x00, 0x00, 0x00, 0x00, 0x00, 0x00, 0x00, 0x62, 0x76, 0x78, 0x24,
        ],
    );
}

#[test]
fn frontend_bytes_zero_4096() {
    check_output(
        &[0; 4096],
        &[
            0x62, 0x76, 0x78, 0x6E, 0x00, 0x10, 0x00, 0x00, 0x2B, 0x00, 0x00, 0x00, 0x68, 0x01,
            0x00, 0xF0, 0xFF, 0xF0, 0xFF, 0xF0, 0xFF, 0xF0, 0xFF, 0xF0, 0xFF, 0xF0, 0xFF, 0xF0,
            0xFF, 0xF0, 0xFF, 0xF0, 0xFF, 0xF0, 0xFF, 0xF0, 0xFF, 0xF0, 0xFF, 0xF0, 0xFF, 0xF0,
            0xFF, 0xF0, 0xFF, 0xF0, 0x06, 0x06, 0x00, 0x00, 0x00, 0x00, 0x00, 0x00, 0x00, 0x62,
            0x76, 0x78, 0x24,
        ],
    );
}

#[test]
fn frontend_bytes_zero_4097() {
    check_output(
        &[0; 4097],
        &[
            0x62, 0x76, 0x78, 0x32, 0x01, 0x10, 0x00, 0x00, 0x04, 0x00, 0x00, 0x00, 0x00, 0x02,
            0x00, 0x70, 0x00, 0x00, 0x00, 0x00, 0x00, 0x0C, 0x00, 0x10, 0x83, 0x00, 0x00, 0x00,
            0x20, 0x00, 0x00, 0x08, 0x8F, 0xC0, 0x23, 0x00, 0x00, 0x00, 0x00, 0x00, 0x00, 0x00,
            0x00, 0x00, 0xC0, 0xA3, 0xF0, 0x68, 0x3C, 0x1A, 0x00, 0x00, 0x00, 0x00, 0x00, 0x00,
            0x00, 0x00, 0x00, 0x00, 0x00, 0x00, 0x00, 0x00, 0x00, 0xF0, 0xE8, 0x03, 0x00, 0x00,
            0x00, 0x00, 0x00, 0x00, 0x00, 0x00, 0x00, 0x00, 0x00, 0x00, 0x00, 0x00, 0x00, 0x00,
            0x00, 0x00, 0x00, 0x00, 0x00, 0x00, 0x00, 0x00, 0x00, 0x00, 0x00, 0x00, 0x00, 0x00,
            0x00, 0x00, 0x00, 0x00, 0x00, 0x00, 0x00, 0x00, 0x00, 0x00, 0x00, 0x00, 0x00, 0x00,
            0x00, 0x00, 0x00, 0x00, 0x00, 0x00, 0x00, 0x00, 0x00, 0x00, 0x00, 0x00, 0x00, 0x00,
            0x00, 0x00, 0x00, 0x00, 0x00, 0x00, 0x00, 0x00, 0x00, 0x00, 0x00, 0x00, 0x00, 0x22,
            0xCB, 0xFF, 0x01, 0x62, 0x76, 0x78, 0x24,
        ],
    );
}

// Random non-compressible data (<= VN_CUTOFF) should fall back to a Raw block (more efficient).
#[test]
fn frontend_bytes_rand_vn_cutoff() {
    check_magic(Rng::new(0).gen_vec(VN_CUTOFF as usize).unwrap().as_ref(), RAW_MAGIC);
}

// Random non-compressible data (> VN_CUTOFF) does not fall back to a Raw block.
#[test]
fn frontend_bytes_rand_vn_cutoff_add_1() {
    check_magic(Rng::new(0).gen_vec(VN_CUTOFF as usize + 1).unwrap().as_ref(), FSE2_MAGIC);
}

#[test]
fn encoder_reuse_gives_same_frames() {
    let mut encoder = LzfseEncoder::new();
    let src: Vec<u8> = (0..5000u32).map(|i| (i % 7) as u8).collect();
    let mut a = Vec::new();
    let mut b = Vec::new();
    encoder.encode_bytes(&src, &mut a).unwrap();
    encoder.encode_bytes(&src, &mut b).unwrap();
    assert_eq!(a, b);
    assert_eq!(&a[..4], &[0x62, 0x76, 0x78, 0x32]);
    assert_eq!(&a[a.len() - 4..], &[0x62, 0x76, 0x78, 0x24]);
}
