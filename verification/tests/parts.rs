use burst_pool::slot::Slot;
use burst_pool::state::Claim;
use burst_pool::state::ReceiverState;
use burst_pool::wake::WakeObject;
use burst_pool::wake::MAX_CREDITS;

#[test]
fn try_arm_arms_only_the_idle() {
    let mut s = ReceiverState::Idle;
    assert!(s.try_arm());
    assert_eq!(s, ReceiverState::Armed);
    for start in [ReceiverState::Busy, ReceiverState::Armed, ReceiverState::Orphaned] {
        let mut s = start;
        assert!(!s.try_arm());
        assert_eq!(s, start);
    }
}

#[test]
fn begin_wait_from_busy_and_from_orphaned() {
    let mut s = ReceiverState::Busy;
    assert!(s.begin_wait());
    assert_eq!(s, ReceiverState::Idle);
    let mut s = ReceiverState::Orphaned;
    assert!(!s.begin_wait());
    assert_eq!(s, ReceiverState::Orphaned);
}

#[test]
fn try_claim_has_three_outcomes() {
    let mut s = ReceiverState::Armed;
    assert_eq!(s.try_claim(), Claim::Mine);
    assert_eq!(s, ReceiverState::Busy);
    let mut s = ReceiverState::Idle;
    assert_eq!(s.try_claim(), Claim::NotMine);
    assert_eq!(s, ReceiverState::Idle);
    let mut s = ReceiverState::Orphaned;
    assert_eq!(s.try_claim(), Claim::Orphaned);
    assert_eq!(s, ReceiverState::Orphaned);
}

#[test]
fn orphan_stores_orphaned_whatever_was_there() {
    for start in [
        ReceiverState::Busy,
        ReceiverState::Idle,
        ReceiverState::Armed,
        ReceiverState::Orphaned,
    ] {
        let mut s = start;
        s.orphan();
        assert_eq!(s, ReceiverState::Orphaned);
    }
}

#[test]
fn slot_publish_then_claim() {
    let mut slot: Slot<String> = Slot::new();
    assert!(slot.is_empty());
    slot.publish(Box::new(String::from("x")));
    assert!(!slot.is_empty());
    assert_eq!(*slot.claim(), "x");
    assert!(slot.is_empty());
}

#[test]
fn wake_object_counts() {
    let mut wake = WakeObject::new();
    assert!(!wake.readable());
    assert_eq!(wake.credits(), 0);
    wake.write(3);
    assert!(wake.readable());
    assert_eq!(wake.read(), 1);
    assert_eq!(wake.read(), 1);
    assert_eq!(wake.credits(), 1);
    wake.write(0);
    assert_eq!(wake.read(), 1);
    assert!(!wake.readable());
}

#[test]
fn wake_object_holds_up_to_its_limit() {
    let mut wake = WakeObject::new();
    wake.write(MAX_CREDITS);
    assert_eq!(wake.credits(), 0xffff_ffff_ffff_fffe);
    assert_eq!(wake.read(), 1);
    wake.write(1);
    assert_eq!(wake.credits(), MAX_CREDITS);
}
