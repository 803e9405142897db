use lzfse_codec::history::{History, Item};
use lzfse_codec::idx::{is_wrapping, Idx, Q0, Q1, Q2, Q3};

fn q(v: u32) -> Idx {
    Idx::new(v)
}

#[test]
fn history_clamp_rebias_q0_0() {
    let mut history = History::default();
    history.clamp_rebias(q(Q0), 0);
    assert_eq!(history, History::new(Item::new(0, q(Q0))));
}

#[test]
fn history_clamp_rebias_q0_q1() {
    let mut history = History::default();
    history.clamp_rebias(q(Q0), Q1);
    assert_eq!(history, History::new(Item::new(0, q(Q0).wrapping_sub(Q1))));
}

#[test]
fn history_clamp_rebias_q1_0() {
    let mut history = History::default();
    history.clamp_rebias(q(Q1), 0);
    assert_eq!(history, History::new(Item::new(0, q(Q0))));
}

#[test]
fn history_clamp_rebias_q1_q1() {
    let mut history = History::default();
    history.clamp_rebias(q(Q1), Q1);
    assert_eq!(history, History::new(Item::new(0, q(Q0).wrapping_sub(Q1))));
}

#[test]
fn history_clamp_rebias_q2_0() {
    let mut history = History::default();
    history.clamp_rebias(q(Q2), 0);
    assert_eq!(history, History::new(Item::new(0, q(Q1))));
}

#[test]
fn history_clamp_rebias_q2_q1() {
    let mut history = History::default();
    history.clamp_rebias(q(Q2), Q1);
    assert_eq!(history, History::new(Item::new(0, q(Q1).wrapping_sub(Q1))));
}

#[test]
fn history_push_q0() {
    History::default().push(Item::new(0, q(Q0)));
}

#[test]
fn history_push_q3_sub_1() {
    History::default().push(Item::new(0, q(Q3).wrapping_sub(1)));
}

#[test]
fn is_wrapping_q0_sub_1() {
    (0..4).map(|u| Idx::new(u * Q1)).for_each(|idx| assert!(is_wrapping(idx.wrapping_sub(Q0).wrapping_sub(1), idx)));
}

#[test]
fn is_wrapping_q1() {
    (0..4).map(|u| Idx::new(u * Q1)).for_each(|idx| assert!(is_wrapping(idx.wrapping_sub(Q1), idx)));
}

#[test]
fn not_wrapping_q1_sub_1() {
    (0..4)
        .map(|u| Idx::new(u * Q1))
        .for_each(|idx| assert!(!is_wrapping(idx.wrapping_sub(Q1).wrapping_sub(1), idx)));
}

#[test]
fn not_is_wrapping_q0() {
    (0..4).map(|u| Idx::new(u * Q1)).for_each(|idx| assert!(!is_wrapping(idx.wrapping_sub(Q0), idx)));
}

#[test]
fn history_push_keeps_newest_first() {
    let mut history = History::default();
    for i in 1..=6u32 {
        history.push(Item::new(i * 10, q(i)));
    }
    assert_eq!(history.get(0), Item::new(60, q(6)));
    assert_eq!(history.get(1), Item::new(50, q(5)));
    assert_eq!(history.get(2), Item::new(40, q(4)));
    assert_eq!(history.get(3), Item::new(30, q(3)));
}
