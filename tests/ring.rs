use lzfse_codec::idx::Idx;
use lzfse_codec::ring::{overmatch_len, Ring};
use lzfse_codec::ring_config::Input;

#[test]
fn ring_shadows() {
    let mut ring = Ring::new::<Input>();
    let size = ring.ring_size();
    for i in 0..size {
        ring.set(Idx::new(i), (i % 251) as u8);
    }
    assert!(!ring.head_shadowed());
    ring.head_copy_out();
    assert!(ring.head_shadowed());
    assert!(!ring.tail_shadowed());
    ring.tail_copy_out();
    assert!(ring.tail_shadowed());
    assert_eq!(ring.get(Idx::new(size + 3)), 3);
    assert_eq!(ring.get_u32(Idx::new(size - 2)), u32::from_le_bytes([
        ((size - 2) % 251) as u8,
        ((size - 1) % 251) as u8,
        0,
        1,
    ]));
}

#[test]
fn ring_copy_in() {
    let mut ring = Ring::new::<Input>();
    ring.set(Idx::new(0), 9);
    ring.head_copy_out();
    ring.set(Idx::new(0), 1);
    ring.head_copy_in();
    assert_eq!(ring.get(Idx::new(0)), 9);
    let size = ring.ring_size();
    ring.set(Idx::new(size - 1), 4);
    ring.tail_copy_out();
    ring.set(Idx::new(size - 1), 5);
    ring.tail_copy_in();
    assert_eq!(ring.get(Idx::new(size - 1)), 4);
}

#[test]
fn overmatch() {
    assert_eq!(overmatch_len(8), 48);
}
