use data_structures::ranking_barrier::{BarrierStep, RankingBarrier};

#[test]
fn barrier_full_round_of_three() {
    let mut b = RankingBarrier::new(3);
    assert_eq!(b.wait_step(), BarrierStep::Sleep);
    assert_eq!(b.wait_step(), BarrierStep::Sleep);
    assert_eq!(b.wait_step(), BarrierStep::Pass(2));
    assert_eq!(b.wait_step(), BarrierStep::Pass(1));
    assert_eq!(b.wait_step(), BarrierStep::Pass(1));
    // open and empty again: the next round behaves the same
    assert_eq!(b.wait_step(), BarrierStep::Sleep);
    assert_eq!(b.wait_step(), BarrierStep::Sleep);
    assert_eq!(b.wait_step(), BarrierStep::Pass(2));
}

#[test]
fn barrier_full_round_of_five() {
    let mut b = RankingBarrier::new(5);
    for _ in 0..4 {
        assert_eq!(b.wait_step(), BarrierStep::Sleep);
    }
    assert_eq!(b.wait_step(), BarrierStep::Pass(4));
    assert_eq!(b.wait_step(), BarrierStep::Pass(3));
    assert_eq!(b.wait_step(), BarrierStep::Pass(2));
    assert_eq!(b.wait_step(), BarrierStep::Pass(1));
    assert_eq!(b.wait_step(), BarrierStep::Pass(1));
    assert_eq!(b.wait_step(), BarrierStep::Sleep);
}

#[test]
fn barrier_of_two_releases_both() {
    let mut b = RankingBarrier::new(2);
    assert_eq!(b.wait_step(), BarrierStep::Sleep);
    assert_eq!(b.wait_step(), BarrierStep::Pass(1));
    assert_eq!(b.wait_step(), BarrierStep::Pass(1));
    assert_eq!(b.wait_step(), BarrierStep::Sleep);
}

#[test]
fn barrier_of_zero_never_fills() {
    let mut b = RankingBarrier::new(0);
    assert_eq!(b.wait_step(), BarrierStep::Spin);
    assert_eq!(b.wait_step(), BarrierStep::Spin);
}

#[test]
fn barrier_arrival_while_closed_leaves() {
    // with six threads for a barrier of three, the fourth looks while the
    // barrier is still releasing and leaves at once
    let mut b = RankingBarrier::new(3);
    assert_eq!(b.wait_step(), BarrierStep::Sleep);
    assert_eq!(b.wait_step(), BarrierStep::Sleep);
    assert_eq!(b.wait_step(), BarrierStep::Pass(2));
    assert_eq!(b.wait_step(), BarrierStep::Pass(1));
    assert_eq!(b.wait_step(), BarrierStep::Pass(1));
    assert_eq!(b.wait_step(), BarrierStep::Sleep);
}

#[test]
fn barrier_fewer_arrivals_than_limit_all_sleep() {
    let mut b = RankingBarrier::new(6);
    for _ in 0..5 {
        assert_eq!(b.wait_step(), BarrierStep::Sleep);
    }
    assert_eq!(b.wait_step(), BarrierStep::Pass(5));
}
