use lzfse_codec::decode::decode_bytes;
use lzfse_codec::encode::encode_bytes;
use lzfse_codec::error::Error;
use lzfse_codec::frontend_ring::FrontendRing;
use lzfse_codec::rng::Rng;

fn round_trip(data: &[u8]) {
    let mut enc = Vec::new();
    encode_bytes(data, &mut enc).unwrap();
    let mut dec = Vec::new();
    decode_bytes(&enc, &mut dec).unwrap();
    assert!(dec == data, "round trip of {} bytes", data.len());
}

fn pattern(len: usize, period: u32) -> Vec<u8> {
    (0..len as u32).map(|i| ((i % period) * 7 + (i / 1000)) as u8).collect()
}

#[test]
fn round_trip_small() {
    for len in 0..64 {
        round_trip(&vec![0u8; len]);
        round_trip(&pattern(len, 5));
        round_trip(&Rng::new(len as u32).gen_vec(len).unwrap());
    }
}

#[test]
fn round_trip_cutoffs() {
    for &len in &[20usize, 21, 4095, 4096, 4097, 4098, 10_000] {
        round_trip(&vec![0u8; len]);
        round_trip(&pattern(len, 3));
        round_trip(&pattern(len, 300));
        round_trip(&Rng::new(7).gen_vec(len).unwrap());
    }
}

#[test]
fn round_trip_text() {
    let text = b"The man who does not read good books has no advantage over the man who cannot read them. ";
    let mut data = Vec::new();
    for i in 0..200 {
        data.extend_from_slice(text);
        data.push(i as u8);
    }
    round_trip(&data);
    round_trip(&data[..300]);
}

#[test]
fn round_trip_long_runs_and_distances() {
    let mut data = Rng::new(3).gen_vec(70_000).unwrap();
    let copy = data[100..60_000].to_vec();
    data.extend_from_slice(&copy);
    data.extend_from_slice(&vec![9u8; 5000]);
    round_trip(&data);
}

#[test]
fn round_trip_many_blocks() {
    let data = pattern(300_000, 17);
    round_trip(&data);
    let noise = Rng::new(11).gen_vec(120_000).unwrap();
    round_trip(&noise);
}

#[test]
fn ring_round_trip_beyond_one_segment() {
    let data = pattern(0x9_0000, 29);
    let mut frontend = FrontendRing::new();
    let mut enc = Vec::new();
    for piece in data.chunks(4093) {
        frontend.write(&mut enc, piece);
    }
    frontend.flush(&mut enc);
    let mut dec = Vec::new();
    decode_bytes(&enc, &mut dec).unwrap();
    assert!(dec == data);
}

#[test]
fn decode_refuses_unknown_magic() {
    let mut dec = Vec::new();
    assert_eq!(decode_bytes(&[0x62, 0x76, 0x78, 0x30, 0, 0, 0, 0], &mut dec), Err(Error::BadBlock));
}

#[test]
fn decode_refuses_truncated_frames() {
    let mut enc = Vec::new();
    encode_bytes(&pattern(5000, 9), &mut enc).unwrap();
    for cut in [0usize, 3, 10, 40, enc.len() - 4, enc.len() - 1] {
        let mut dec = Vec::new();
        assert!(decode_bytes(&enc[..cut], &mut dec).is_err());
    }
}

#[test]
fn decode_refuses_short_raw_block() {
    let mut dec = Vec::new();
    let frame = [0x62, 0x76, 0x78, 0x2D, 0x05, 0, 0, 0, 1, 2];
    assert_eq!(decode_bytes(&frame, &mut dec), Err(Error::BadRawByteCount));
}

#[test]
fn decode_vn_bad_opcode() {
    let mut dec = Vec::new();
    let frame = [0x62, 0x76, 0x78, 0x6E, 0x01, 0, 0, 0, 0x01, 0, 0, 0, 0x70, 0x62, 0x76, 0x78, 0x24];
    assert_eq!(decode_bytes(&frame, &mut dec), Err(Error::BadOpcode));
}

#[test]
fn decode_survives_mutations() {
    let mut enc = Vec::new();
    encode_bytes(&pattern(6000, 11), &mut enc).unwrap();
    let mut rng = Rng::new(5);
    for _ in 0..300 {
        let mut m = enc.clone();
        let i = (rng.gen() as usize) % m.len();
        m[i] ^= (rng.gen() % 255 + 1) as u8;
        let mut dec = Vec::new();
        let _ = decode_bytes(&m, &mut dec);
    }
}

const DATA: &[u8] = b"The man who does not read good books has no\
    advantage over the man who cannot read them.";

#[test]
fn encode_decode_all() {
    let mut enc = Vec::default();
    encode_bytes(DATA, &mut enc).unwrap();
    let mut dec = Vec::default();
    decode_bytes(&enc, &mut dec).unwrap();
    assert_eq!(DATA, &dec[..]);
}

#[test]
fn ring_matches_reach_across_segments() {
    let block = Rng::new(21).gen_vec(200_000).unwrap();
    let mut data = Vec::new();
    for _ in 0..3 {
        data.extend_from_slice(&block);
    }
    let mut frontend = FrontendRing::new();
    let mut enc = Vec::new();
    for piece in data.chunks(65_536) {
        frontend.write(&mut enc, piece);
    }
    frontend.flush(&mut enc);
    // The bytes past the first segment repeat those 200 000 bytes back, within reach.
    assert!(enc.len() < 240_000, "{} bytes", enc.len());
    let mut dec = Vec::new();
    decode_bytes(&enc, &mut dec).unwrap();
    assert!(dec == data);
}

fn le32_at(b: &[u8], i: usize) -> u32 {
    u32::from_le_bytes([b[i], b[i + 1], b[i + 2], b[i + 3]])
}

fn le64_at(b: &[u8], i: usize) -> u64 {
    le32_at(b, i) as u64 | ((le32_at(b, i + 4) as u64) << 32)
}

// Rewrites every compact (`bvx2`) block of a frame as a plain (`bvx1`) block.
fn to_v1(frame: &[u8]) -> Vec<u8> {
    let mut out = Vec::new();
    let mut pos = 0;
    loop {
        let magic = le32_at(frame, pos);
        match magic {
            0x2478_7662 => {
                out.extend_from_slice(&frame[pos..pos + 4]);
                return out;
            }
            0x2D78_7662 => {
                let n = le32_at(frame, pos + 4) as usize;
                out.extend_from_slice(&frame[pos..pos + 8 + n]);
                pos += 8 + n;
            }
            0x6E78_7662 => {
                let n = le32_at(frame, pos + 8) as usize;
                out.extend_from_slice(&frame[pos..pos + 12 + n]);
                pos += 12 + n;
            }
            0x3278_7662 => {
                let n_raw = le32_at(frame, pos + 4);
                let f0 = le64_at(frame, pos + 8);
                let f1 = le64_at(frame, pos + 16);
                let f2 = le64_at(frame, pos + 24);
                let n_literals = (f0 & 0xF_FFFF) as u32;
                let n_lit_payload = ((f0 >> 20) & 0xF_FFFF) as u32;
                let n_matches = ((f0 >> 40) & 0xF_FFFF) as u32;
                let lit_bits = ((f0 >> 60) & 7) as i32 - 7;
                let lit_states: Vec<u16> = (0..4).map(|i| ((f1 >> (10 * i)) & 0x3FF) as u16).collect();
                let n_lmd_payload = ((f1 >> 40) & 0xF_FFFF) as u32;
                let lmd_bits = ((f1 >> 60) & 7) as i32 - 7;
                let header_size = (f2 & 0xFFFF_FFFF) as usize;
                let l_state = ((f2 >> 32) & 0x3FF) as u16;
                let m_state = ((f2 >> 42) & 0x3FF) as u16;
                let d_state = ((f2 >> 52) & 0x3FF) as u16;
                // The weights' prefix code.
                let nbits = [2, 3, 2, 5, 2, 3, 2, 8, 2, 3, 2, 5, 2, 3, 2, 14];
                let vals = [0, 2, 1, 4, 0, 3, 1, 0, 0, 2, 1, 5, 0, 3, 1, 0, 0, 2, 1, 6, 0, 3, 1, 0, 0, 2, 1, 7, 0, 3, 1, 0];
                let mut acc: u64 = 0;
                let mut n_acc = 0;
                let mut q = pos + 32;
                let mut weights = Vec::new();
                for _ in 0..360 {
                    while n_acc <= 24 && q < pos + header_size {
                        acc |= (frame[q] as u64) << n_acc;
                        n_acc += 8;
                        q += 1;
                    }
                    let t = (acc & 31) as usize;
                    let n = nbits[t & 15];
                    let v = if n == 8 {
                        8 + ((acc >> 4) & 15) as u16
                    } else if n == 14 {
                        24 + ((acc >> 4) & 1023) as u16
                    } else {
                        vals[t] as u16
                    };
                    acc >>= n;
                    n_acc -= n;
                    weights.push(v);
                }
                out.extend_from_slice(&0x3178_7662u32.to_le_bytes());
                for v in [n_raw, n_lit_payload + n_lmd_payload, n_literals, n_matches, n_lit_payload, n_lmd_payload] {
                    out.extend_from_slice(&v.to_le_bytes());
                }
                out.extend_from_slice(&lit_bits.to_le_bytes());
                for s in lit_states {
                    out.extend_from_slice(&s.to_le_bytes());
                }
                out.extend_from_slice(&lmd_bits.to_le_bytes());
                for s in [l_state, m_state, d_state] {
                    out.extend_from_slice(&s.to_le_bytes());
                }
                for w in weights {
                    out.extend_from_slice(&w.to_le_bytes());
                }
                out.extend_from_slice(&[0, 0]);
                let payload = (n_lit_payload + n_lmd_payload) as usize;
                out.extend_from_slice(&frame[pos + header_size..pos + header_size + payload]);
                pos += header_size + payload;
            }
            _ => panic!("unexpected block"),
        }
    }
}

#[test]
fn decode_plain_fse_blocks() {
    for data in [vec![0u8; 4097], pattern(60_000, 7), Rng::new(9).gen_vec(70_000).unwrap()] {
        let mut enc = Vec::new();
        encode_bytes(&data, &mut enc).unwrap();
        let v1 = to_v1(&enc);
        assert_eq!(&v1[..4], &[0x62, 0x76, 0x78, 0x31]);
        let mut dec = Vec::new();
        decode_bytes(&v1, &mut dec).unwrap();
        assert!(dec == data);
    }
}
