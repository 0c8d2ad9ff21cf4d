use burst_pool::Receiver;
use burst_pool::ReceiverState;
use burst_pool::RecvError;
use burst_pool::RecvStep;
use burst_pool::Sender;

fn ready(n: usize) -> (Sender<u32>, Vec<Receiver<u32>>) {
    let mut tx = Sender::new();
    let mut rxs = Vec::new();
    for _ in 0..n {
        let rx = tx.mk_receiver();
        assert_eq!(rx.recv(&mut tx), RecvStep::Wait);
        rxs.push(rx);
    }
    (tx, rxs)
}

fn states(tx: &Sender<u32>, rxs: &Vec<Receiver<u32>>) -> Vec<ReceiverState> {
    let mut out = Vec::new();
    for rx in rxs.iter() {
        out.push(tx.state_of(rx));
    }
    out
}

#[test]
fn new_sender_is_empty() {
    let tx: Sender<u32> = Sender::new();
    assert_eq!(tx.receiver_count(), 0);
    assert_eq!(tx.cursor(), 0);
    assert_eq!(tx.pending_credits(), 0);
    assert_eq!(tx.credits(), 0);
    assert!(!tx.is_orphaned());
}

#[test]
fn enqueue_without_receivers_returns_payload() {
    let mut tx: Sender<u32> = Sender::new();
    assert_eq!(tx.enqueue(Box::new(5)), Some(Box::new(5)));
    assert_eq!(tx.pending_credits(), 0);
    assert_eq!(tx.cursor(), 0);
}

#[test]
fn mk_receiver_starts_busy_and_counts() {
    let mut tx: Sender<u32> = Sender::new();
    let a = tx.mk_receiver();
    let b = tx.mk_receiver();
    assert_eq!(a.index(), 0);
    assert_eq!(b.index(), 1);
    assert_eq!(tx.receiver_count(), 2);
    assert!(tx.owns(&a));
    assert!(tx.owns(&b));
    assert_eq!(tx.state_of(&a), ReceiverState::Busy);
    assert_eq!(tx.state_of(&b), ReceiverState::Busy);
}

#[test]
fn a_receiver_of_another_sender_is_not_owned() {
    let mut big: Sender<u32> = Sender::new();
    big.mk_receiver();
    let far = big.mk_receiver();
    let mut small: Sender<u32> = Sender::new();
    small.mk_receiver();
    assert!(!small.owns(&far));
}

#[test]
fn first_turn_begins_the_wait() {
    let mut tx: Sender<u32> = Sender::new();
    let rx = tx.mk_receiver();
    assert_eq!(rx.recv(&mut tx), RecvStep::Wait);
    assert_eq!(tx.state_of(&rx), ReceiverState::Idle);
}

#[test]
fn enqueue_arms_and_moves_the_cursor() {
    let (mut tx, rxs) = ready(3);
    assert_eq!(tx.enqueue(Box::new(1)), None);
    assert_eq!(
        states(&tx, &rxs),
        vec![ReceiverState::Armed, ReceiverState::Idle, ReceiverState::Idle]
    );
    assert_eq!(tx.cursor(), 1);
    assert_eq!(tx.pending_credits(), 1);
    assert_eq!(tx.credits(), 0);
}

#[test]
fn cursor_wraps_at_the_end_of_the_ring() {
    let (mut tx, _rxs) = ready(2);
    assert_eq!(tx.enqueue(Box::new(1)), None);
    assert_eq!(tx.cursor(), 1);
    assert_eq!(tx.enqueue(Box::new(2)), None);
    assert_eq!(tx.cursor(), 0);
}

#[test]
fn scan_skips_busy_receivers() {
    let mut tx: Sender<u32> = Sender::new();
    let a = tx.mk_receiver();
    let b = tx.mk_receiver();
    let c = tx.mk_receiver();
    // only the last one waits
    assert_eq!(c.recv(&mut tx), RecvStep::Wait);
    assert_eq!(tx.enqueue(Box::new(9)), None);
    assert_eq!(tx.state_of(&a), ReceiverState::Busy);
    assert_eq!(tx.state_of(&b), ReceiverState::Busy);
    assert_eq!(tx.state_of(&c), ReceiverState::Armed);
    // the cursor stands just behind the receiver that was picked
    assert_eq!(tx.cursor(), 0);
}

#[test]
fn scan_starts_at_the_cursor_and_goes_round() {
    let (mut tx, rxs) = ready(3);
    assert_eq!(tx.enqueue(Box::new(1)), None);
    assert_eq!(tx.enqueue(Box::new(2)), None);
    tx.wake_all();
    // receiver 0 takes its payload and waits again; 1 stays armed, 2 idle
    assert_eq!(rxs[0].recv(&mut tx), RecvStep::Done(Ok(Box::new(1))));
    assert_eq!(rxs[0].recv(&mut tx), RecvStep::Wait);
    assert_eq!(tx.cursor(), 2);
    assert_eq!(tx.enqueue(Box::new(3)), None);
    assert_eq!(tx.state_of(&rxs[2]), ReceiverState::Armed);
    assert_eq!(tx.cursor(), 0);
    assert_eq!(tx.enqueue(Box::new(4)), None);
    assert_eq!(tx.state_of(&rxs[0]), ReceiverState::Armed);
    assert_eq!(tx.cursor(), 1);
    assert_eq!(tx.enqueue(Box::new(5)), Some(Box::new(5)));
    assert_eq!(tx.cursor(), 1);
}

#[test]
fn wake_all_moves_pending_to_the_wake_object() {
    let (mut tx, _rxs) = ready(4);
    for k in 0..3 {
        assert_eq!(tx.enqueue(Box::new(k)), None);
    }
    assert_eq!(tx.pending_credits(), 3);
    assert_eq!(tx.credits(), 0);
    let image = tx.wake_all();
    assert_eq!(image, 3i64.to_ne_bytes());
    assert_eq!(tx.pending_credits(), 0);
    assert_eq!(tx.credits(), 3);
}

#[test]
fn wake_all_with_nothing_pending_writes_zero() {
    let (mut tx, _rxs) = ready(1);
    assert_eq!(tx.wake_all(), [0u8; 8]);
    assert_eq!(tx.credits(), 0);
}

#[test]
fn wake_image_is_in_native_order() {
    let (mut tx, _rxs) = ready(300);
    for k in 0..258 {
        assert_eq!(tx.enqueue(Box::new(k)), None);
    }
    let image = tx.wake_all();
    assert_eq!(i64::from_ne_bytes(image), 258);
    assert_eq!(image, 258i64.to_ne_bytes());
    assert!(image == [2, 1, 0, 0, 0, 0, 0, 0] || image == [0, 0, 0, 0, 0, 0, 1, 2]);
}

#[test]
fn unblock_is_wake_all() {
    let mut tx: Sender<u32> = Sender::new();
    let rx = tx.receiver();
    assert_eq!(rx.recv(&mut tx), RecvStep::Wait);
    assert_eq!(tx.send(Box::new(7)), None);
    assert_eq!(tx.send(Box::new(8)), Some(Box::new(8)));
    assert_eq!(tx.unblock(), 1i64.to_ne_bytes());
    assert_eq!(rx.recv(&mut tx), RecvStep::Done(Ok(Box::new(7))));
    let gone: burst_pool::RecError = RecvError::Orphaned;
    assert_eq!(gone, RecvError::Orphaned);
}

#[test]
fn armed_receiver_waits_until_the_flush() {
    let (mut tx, rxs) = ready(1);
    assert_eq!(tx.enqueue(Box::new(1)), None);
    assert_eq!(rxs[0].recv(&mut tx), RecvStep::Wait);
    assert_eq!(tx.state_of(&rxs[0]), ReceiverState::Armed);
    tx.wake_all();
    assert_eq!(rxs[0].recv(&mut tx), RecvStep::Done(Ok(Box::new(1))));
    assert_eq!(tx.state_of(&rxs[0]), ReceiverState::Busy);
    assert_eq!(tx.credits(), 0);
}

#[test]
fn stolen_wakeup_yields_and_leaves_the_credit() {
    let (mut tx, rxs) = ready(2);
    assert_eq!(tx.enqueue(Box::new(1)), None);
    tx.wake_all();
    // receiver 1 wakes first, but the credit is for receiver 0
    assert_eq!(rxs[1].recv(&mut tx), RecvStep::Yield);
    assert_eq!(tx.credits(), 1);
    assert_eq!(tx.state_of(&rxs[1]), ReceiverState::Idle);
    assert_eq!(rxs[1].recv(&mut tx), RecvStep::Yield);
    assert_eq!(rxs[0].recv(&mut tx), RecvStep::Done(Ok(Box::new(1))));
    assert_eq!(tx.credits(), 0);
    assert_eq!(rxs[1].recv(&mut tx), RecvStep::Wait);
}

#[test]
fn teardown_orphans_every_receiver() {
    let mut tx: Sender<u32> = Sender::new();
    let busy = tx.mk_receiver();
    let idle = tx.mk_receiver();
    let armed = tx.mk_receiver();
    assert_eq!(idle.recv(&mut tx), RecvStep::Wait);
    assert_eq!(armed.recv(&mut tx), RecvStep::Wait);
    assert_eq!(tx.enqueue(Box::new(1)), None);
    assert_eq!(tx.state_of(&armed), ReceiverState::Idle);
    assert_eq!(tx.state_of(&idle), ReceiverState::Armed);
    assert_eq!(tx.teardown(), Some(1i64.to_ne_bytes()));
    assert!(tx.is_orphaned());
    assert_eq!(tx.credits(), 1);
    for rx in [&busy, &idle, &armed] {
        assert_eq!(tx.state_of(rx), ReceiverState::Orphaned);
        assert_eq!(rx.recv(&mut tx), RecvStep::Done(Err(RecvError::Orphaned)));
        assert_eq!(rx.recv(&mut tx), RecvStep::Done(Err(RecvError::Orphaned)));
    }
    assert_eq!(tx.credits(), 1);
}

#[test]
fn teardown_twice_changes_nothing() {
    let (mut tx, _rxs) = ready(1);
    assert_eq!(tx.teardown(), Some(1i64.to_ne_bytes()));
    assert_eq!(tx.teardown(), None);
    assert_eq!(tx.credits(), 1);
}

#[test]
fn after_teardown_nothing_is_accepted() {
    let (mut tx, _rxs) = ready(2);
    tx.teardown();
    assert_eq!(tx.enqueue(Box::new(3)), Some(Box::new(3)));
    assert_eq!(tx.pending_credits(), 0);
}

#[test]
fn a_receiver_made_after_teardown_is_orphaned() {
    let mut tx: Sender<u32> = Sender::new();
    tx.teardown();
    let rx = tx.mk_receiver();
    assert_eq!(tx.state_of(&rx), ReceiverState::Orphaned);
    assert_eq!(rx.recv(&mut tx), RecvStep::Done(Err(RecvError::Orphaned)));
}

#[test]
fn teardown_without_receivers_writes_one_credit() {
    let mut tx: Sender<u32> = Sender::new();
    assert_eq!(tx.teardown(), Some(1i64.to_ne_bytes()));
    assert_eq!(tx.credits(), 1);
}

#[test]
fn conservation_of_a_burst() {
    let (mut tx, rxs) = ready(5);
    let mut accepted = Vec::new();
    for k in 0..8u32 {
        if tx.enqueue(Box::new(k)).is_none() {
            accepted.push(k);
        }
    }
    assert_eq!(accepted, vec![0, 1, 2, 3, 4]);
    assert_eq!(tx.wake_all(), 5i64.to_ne_bytes());
    let mut got = Vec::new();
    for i in [3usize, 1, 4, 0, 2, 3, 1] {
        if let RecvStep::Done(Ok(p)) = rxs[i].recv(&mut tx) {
            got.push(*p);
        }
    }
    got.sort();
    assert_eq!(got, accepted);
    assert_eq!(tx.credits(), 0);
}

#[test]
fn no_payload_is_returned_twice() {
    let (mut tx, rxs) = ready(1);
    assert_eq!(tx.enqueue(Box::new(1)), None);
    tx.wake_all();
    assert_eq!(rxs[0].recv(&mut tx), RecvStep::Done(Ok(Box::new(1))));
    // the next receive starts over and finds nothing
    assert_eq!(rxs[0].recv(&mut tx), RecvStep::Wait);
    assert_eq!(rxs[0].recv(&mut tx), RecvStep::Wait);
    assert_eq!(tx.credits(), 0);
}

#[test]
fn accepted_payload_survives_other_steps() {
    let (mut tx, rxs) = ready(2);
    assert_eq!(tx.enqueue(Box::new(11)), None);
    // other parties act: a new receiver, another offer, a flush, a claim
    let late = tx.mk_receiver();
    assert_eq!(late.recv(&mut tx), RecvStep::Wait);
    assert_eq!(tx.enqueue(Box::new(22)), None);
    tx.wake_all();
    assert_eq!(rxs[1].recv(&mut tx), RecvStep::Done(Ok(Box::new(22))));
    assert_eq!(late.recv(&mut tx), RecvStep::Yield);
    assert_eq!(tx.state_of(&rxs[0]), ReceiverState::Armed);
    assert_eq!(rxs[0].recv(&mut tx), RecvStep::Done(Ok(Box::new(11))));
}

#[test]
fn armed_receiver_is_never_armed_again() {
    let (mut tx, rxs) = ready(2);
    assert_eq!(tx.enqueue(Box::new(1)), None);
    assert_eq!(tx.enqueue(Box::new(2)), None);
    assert_eq!(tx.enqueue(Box::new(3)), Some(Box::new(3)));
    assert_eq!(tx.enqueue(Box::new(4)), Some(Box::new(4)));
    tx.wake_all();
    assert_eq!(rxs[0].recv(&mut tx), RecvStep::Done(Ok(Box::new(1))));
    assert_eq!(rxs[1].recv(&mut tx), RecvStep::Done(Ok(Box::new(2))));
}

#[test]
fn credits_cover_payloads_in_slots() {
    let (mut tx, rxs) = ready(3);
    let armed = |tx: &Sender<u32>| {
        rxs.iter().filter(|rx| tx.state_of(rx) == ReceiverState::Armed).count() as u64
    };
    assert_eq!(tx.enqueue(Box::new(1)), None);
    assert_eq!(tx.credits() + tx.pending_credits() as u64, armed(&tx));
    tx.wake_all();
    assert_eq!(tx.enqueue(Box::new(2)), None);
    assert_eq!(tx.credits() + tx.pending_credits() as u64, armed(&tx));
    // receiver 1 claims with the credit that was written for receiver 0
    assert_eq!(rxs[1].recv(&mut tx), RecvStep::Done(Ok(Box::new(2))));
    assert_eq!(tx.credits() + tx.pending_credits() as u64, armed(&tx));
    assert_eq!(rxs[0].recv(&mut tx), RecvStep::Wait);
    tx.wake_all();
    assert_eq!(rxs[0].recv(&mut tx), RecvStep::Done(Ok(Box::new(1))));
    assert_eq!(tx.credits() + tx.pending_credits() as u64, armed(&tx));
    assert_eq!(armed(&tx), 0);
}

#[test]
fn round_robin_with_bursts_is_balanced() {
    let (mut tx, rxs) = ready(4);
    let mut count = [0u32; 4];
    let bursts = [3usize, 2, 4, 1, 4, 3];
    let mut next = 0u32;
    for b in bursts {
        for _ in 0..b {
            assert_eq!(tx.enqueue(Box::new(next)), None);
            next += 1;
        }
        tx.wake_all();
        for i in 0..4 {
            if let RecvStep::Done(Ok(_)) = rxs[i].recv(&mut tx) {
                count[i] += 1;
                assert_eq!(rxs[i].recv(&mut tx), RecvStep::Wait);
            }
        }
        let most = *count.iter().max().unwrap();
        let least = *count.iter().min().unwrap();
        assert!(most - least <= 1);
    }
    assert_eq!(count.iter().sum::<u32>(), 17);
    assert_eq!(count, [5, 4, 4, 4]);
}

/// A small generator of numbers, the same on every run.
struct Dice(u64);

impl Dice {
    fn roll(&mut self, sides: u64) -> u64 {
        self.0 = self.0.wrapping_mul(6364136223846793005).wrapping_add(1442695040888963407);
        (self.0 >> 33) % sides
    }
}

#[test]
fn many_runs_keep_the_books() {
    let mut dice = Dice(7);
    for _ in 0..200 {
        let mut tx: Sender<u32> = Sender::new();
        let mut rxs: Vec<Receiver<u32>> = Vec::new();
        let mut next = 0u32;
        let mut in_flight: Vec<u32> = Vec::new();
        let mut returned: Vec<u32> = Vec::new();
        let mut accepted: Vec<u32> = Vec::new();
        for _ in 0..300 {
            match dice.roll(8) {
                0 => {
                    if rxs.len() < 6 {
                        rxs.push(tx.mk_receiver());
                    }
                },
                1 | 2 | 3 => {
                    let back = tx.enqueue(Box::new(next));
                    let idle = rxs.iter().any(|rx| tx.state_of(rx) == ReceiverState::Idle);
                    match back {
                        None => {
                            accepted.push(next);
                            in_flight.push(next);
                        },
                        Some(p) => {
                            assert_eq!(*p, next);
                            assert!(!idle);
                        },
                    }
                    next += 1;
                },
                4 => {
                    let pending = tx.pending_credits();
                    assert_eq!(tx.wake_all(), pending.to_ne_bytes());
                },
                _ => {
                    if !rxs.is_empty() {
                        let i = dice.roll(rxs.len() as u64) as usize;
                        let before = tx.state_of(&rxs[i]);
                        let credits = tx.credits();
                        match rxs[i].recv(&mut tx) {
                            RecvStep::Done(Ok(p)) => {
                                assert_eq!(before, ReceiverState::Armed);
                                assert_eq!(tx.credits(), credits - 1);
                                let at = in_flight.iter().position(|v| *v == *p).unwrap();
                                in_flight.remove(at);
                                returned.push(*p);
                            },
                            RecvStep::Yield => {
                                assert_eq!(before, ReceiverState::Idle);
                                assert!(credits > 0);
                                assert_eq!(tx.credits(), credits);
                            },
                            RecvStep::Wait => {
                                assert_eq!(tx.credits(), credits);
                            },
                            RecvStep::Done(Err(e)) => panic!("{:?} while the producer lives", e),
                        }
                    }
                },
            }
            let armed = rxs.iter().filter(|rx| tx.state_of(rx) == ReceiverState::Armed).count();
            assert_eq!(tx.credits() + tx.pending_credits() as u64, armed as u64);
            assert_eq!(in_flight.len(), armed);
            if rxs.is_empty() {
                assert_eq!(tx.cursor(), 0);
            } else {
                assert!(tx.cursor() < rxs.len());
            }
        }
        // flush and let every receiver take its turn: all that was accepted comes out
        tx.wake_all();
        for rx in rxs.iter() {
            if let RecvStep::Done(Ok(p)) = rx.recv(&mut tx) {
                returned.push(*p);
            }
        }
        returned.sort();
        assert_eq!(returned, accepted);
        assert_eq!(tx.credits(), 0);
        tx.teardown();
        for rx in rxs.iter() {
            assert_eq!(rx.recv(&mut tx), RecvStep::Done(Err(RecvError::Orphaned)));
        }
    }
}
