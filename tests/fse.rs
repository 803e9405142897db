use lzfse_codec::fse_decode::{build_u_table, Decoder, UEntry, VEntry, Weights};
use lzfse_codec::fse_weights::normalize;
use lzfse_codec::lmd::Lmd;
use lzfse_codec::fse_block::split_lmds;

#[test]
fn normalize_two_equal_symbols() {
    let mut freq = vec![0u32; 20];
    freq[0] = 1;
    freq[1] = 1;
    let w = normalize(&freq, 6);
    assert_eq!(w[0], 32);
    assert_eq!(w[1], 32);
    assert_eq!(w.iter().map(|&x| x as u32).sum::<u32>(), 64);
}

#[test]
fn normalize_keeps_rare_symbols() {
    let mut freq = vec![0u32; 256];
    freq[0] = 100_000;
    freq[7] = 1;
    freq[9] = 2;
    let w = normalize(&freq, 10);
    assert!(w[7] >= 1 && w[9] >= 1);
    assert_eq!(w[3], 0);
    assert_eq!(w.iter().map(|&x| x as u32).sum::<u32>(), 1024);
}

#[test]
fn normalize_empty_gives_all_to_first() {
    let freq = vec![0u32; 64];
    let w = normalize(&freq, 8);
    assert_eq!(w[0], 256);
}

#[test]
fn u_table_single_symbol() {
    let mut w = vec![0u16; 256];
    w[5] = 1024;
    let mut table = vec![UEntry::default(); 1024];
    build_u_table(&w, &mut table);
    assert!(table.iter().enumerate().all(|(j, e)| e.k == 0 && e.symbol == 5 && e.delta == j as i16));
}

#[test]
fn u_table_two_symbols() {
    let mut w = vec![0u16; 256];
    w[0] = 1000;
    w[1] = 24;
    let mut table = vec![UEntry::default(); 1024];
    build_u_table(&w, &mut table);
    // Weight 1000: k = 1, x = 2 * 512 - 1000 = 24 states read one bit.
    assert_eq!(table[0], UEntry { k: 1, symbol: 0, delta: ((1000 << 1) - 1024) as i16 });
    assert_eq!(table[24], UEntry { k: 0, symbol: 0, delta: 0 });
    // Weight 24: k = 6 (24 << 6 = 1536), x = 2048 / 64 - 24 = 8.
    assert_eq!(table[1000], UEntry { k: 6, symbol: 1, delta: ((24 << 6) - 1024) as i16 });
    assert_eq!(table[1008], UEntry { k: 5, symbol: 1, delta: 0 });
}

#[test]
fn decoder_latches_unused_states() {
    let mut l = vec![0u16; 20];
    l[0] = 32;
    let mut m = vec![0u16; 20];
    m[0] = 64;
    let mut d = vec![0u16; 64];
    d[0] = 256;
    let mut u = vec![0u16; 256];
    u[0] = 1024;
    let weights = Weights { l, m, d, u };
    let mut decoder = Decoder::new();
    decoder.init(&weights);
    // L states 32..64 are past the weights' total: they read nothing and stay.
    assert_eq!(decoder.v_entry(40), VEntry { k: 0, v_bits: 0, delta: 40, v_base: 0 });
    // L symbol 0 has weight 32 of 64: one bit per state.
    assert_eq!(decoder.v_entry(0), VEntry { k: 1, v_bits: 0, delta: 0, v_base: 0 });
    // M symbol 0 owns every M state, which read nothing and stay, relative to the whole table.
    assert_eq!(decoder.v_entry(64 + 5), VEntry { k: 0, v_bits: 0, delta: 64 + 5, v_base: 0 });
    assert_eq!(decoder.u_entry(7), UEntry { k: 0, symbol: 0, delta: 7 });
}

#[test]
fn split_long_match() {
    let cmds = vec![Lmd::new(1, 4096, 1)];
    let packs = split_lmds(&cmds);
    assert_eq!(packs.len(), 2);
    assert_eq!((packs[0].literal_len, packs[0].match_len, packs[0].match_distance), (1, 2359, 1));
    assert_eq!((packs[1].literal_len, packs[1].match_len, packs[1].match_distance), (0, 1737, 0));
}

#[test]
fn split_long_literals() {
    let cmds = vec![Lmd::new(700, 0, 0)];
    let packs = split_lmds(&cmds);
    let lens: Vec<u16> = packs.iter().map(|p| p.literal_len).collect();
    assert_eq!(lens, vec![315, 315, 70]);
}

use lzfse_codec::fse_block::{
    code_packs, count_codes, count_literals, store_literals, store_lmds, Literals, Lmds,
};
use lzfse_codec::fse_encode::build_encoder_table;
use lzfse_codec::lmd::LmdPack;

fn zero_weights() -> (Vec<u16>, Vec<u16>, Vec<u16>, Vec<u16>) {
    (vec![0u16; 20], vec![0u16; 20], vec![0u16; 64], vec![0u16; 256])
}

fn literal_encode_decode_check(data: &[u8]) -> Vec<u8> {
    let mut lits = data.to_vec();
    while lits.len() % 4 != 0 {
        lits.push(data[0]);
    }
    let w = normalize(&count_literals(&lits), 10);
    let table = build_encoder_table(&w, 10);
    let (bytes, off, states) = store_literals(&lits, &table, &w);
    let (l, m, d, _) = zero_weights();
    let mut decoder = Decoder::new();
    decoder.init(&Weights { l, m, d, u: w });
    let mut store = vec![0u8; 8];
    store.extend_from_slice(&bytes);
    let mut literals = Literals::new();
    literals
        .load(&store, off, &decoder, (states.0 as usize, states.1 as usize, states.2 as usize, states.3 as usize), lits.len())
        .unwrap();
    assert_eq!(data, &literals.as_vec()[..data.len()]);
    literals.as_vec().clone()
}

#[test]
fn literal_encode_decode() {
    let data = b"Full fathom five thy father lies; \
                 Of his bones are coral made; \
                 Those are pearls that were his eyes: \
                 Nothing of him that doth fade; \
                 But doth suffer a sea-change; \
                 Into something rich and strange.";
    literal_encode_decode_check(data);
}

#[test]
fn literal_encode_decode_seq() {
    let data: Vec<u8> = (0u8..255).collect();
    let out = literal_encode_decode_check(&data);
    assert_eq!(out.len(), 256);
}

fn lmd_encode_decode_check(data: &[LmdPack]) {
    let packs = data.to_vec();
    let (lc, mc, dc) = code_packs(&packs, 0, packs.len());
    let lw = normalize(&count_codes(&lc, 20), 6);
    let mw = normalize(&count_codes(&mc, 20), 6);
    let dw = normalize(&count_codes(&dc, 64), 8);
    let lt = build_encoder_table(&lw, 6);
    let mt = build_encoder_table(&mw, 6);
    let dt = build_encoder_table(&dw, 8);
    let (store, off, states) = store_lmds(&lc, &mc, &dc, (&lt, &mt, &dt), (&lw, &mw, &dw));
    let mut u = vec![0u16; 256];
    u[0] = 1024;
    let mut decoder = Decoder::new();
    decoder.init(&Weights { l: lw, m: mw, d: dw, u });
    let mut lmds = Lmds::new();
    lmds.load(&store, off, &decoder, (states.0 as usize, states.1 as usize, states.2 as usize), packs.len()).unwrap();
    assert_eq!(lmds.as_vec(), &packs);
}

#[test]
fn lmd_encode_decode() {
    let data = [
        LmdPack::new(128, 1, 256),
        LmdPack { literal_len: 128, match_len: 0, match_distance: 0 },
        LmdPack::new(256, 128, 1),
        LmdPack { literal_len: 256, match_len: 128, match_distance: 0 },
        LmdPack::new(0, 128, 1),
        LmdPack { literal_len: 0, match_len: 128, match_distance: 0 },
    ];
    lmd_encode_decode_check(&data);
}

#[test]
fn load_failure_keeps_staged_literals() {
    let mut u = vec![0u16; 256];
    u[0] = 1024;
    let (l, m, d, _) = zero_weights();
    let mut decoder = Decoder::new();
    decoder.init(&Weights { l, m, d, u });
    let mut literals = Literals::new();
    literals.push(&[7, 7, 7], 0, 3);
    // A single symbol reads no bits: one stray data bit is left over.
    let store = [0u8, 0, 0, 0, 0, 0, 0, 0, 1];
    assert!(literals.load(&store, 7, &decoder, (0, 0, 0, 0), 4).is_err());
    assert_eq!(literals.as_vec(), &vec![7u8, 7, 7]);
}
