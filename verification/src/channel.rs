//! The two endpoints of the channel.
//!
//! `Sender` is the producer's endpoint. It owns the receivers' cells, the
//! wake object, the rotating cursor and the count of credits not yet
//! flushed. `Receiver` is a consumer's handle to one cell. Every call is
//! one atomic step of the machine in `model`; nothing here blocks.
use crate::model::Cell;
use crate::model::Channel;
use crate::model::lemma_enqueue_wf;
use crate::model::lemma_first_idle_is;
use crate::model::lemma_first_idle;
use crate::model::lemma_held_bound;
use crate::model::lemma_mk_receiver_wf;
use crate::model::lemma_recv_wf;
use crate::model::lemma_ring;
use crate::model::lemma_target;
use crate::model::lemma_teardown_wf;
use crate::model::ring;
use crate::slot::Slot;
use crate::state::Claim;
use crate::state::ReceiverState;
use crate::wake::WakeObject;
use crate::wake::is_native_image;
use crate::wake::write_native;
use std::marker::PhantomData;
use vstd::prelude::*;

verus! {

/// Why a receive ends without a payload.
#[derive(Debug, PartialEq, Eq, Structural)]
pub enum RecvError {
    /// The producer is gone: nothing will ever arrive.
    Orphaned,
}

/// What one turn of a receive tells the caller to do next.
#[derive(Debug, PartialEq)]
pub enum RecvStep<T> {
    /// Block until the wake object is readable, then take another turn.
    Wait,
    /// The wake-up was meant for another receiver. Let the scheduler run the
    /// others, then wait again.
    Yield,
    /// The receive is over: a payload, or the news that the producer is gone.
    Done(Result<Box<T>, RecvError>),
}

/// One receiver's cell: its state word and its slot.
struct Worker<T> {
    state: ReceiverState,
    slot: Slot<T>,
}

impl<T> View for Worker<T> {
    type V = Cell<T>;

    closed spec fn view(&self) -> Cell<T> {
        Cell { state: self.state, slot: self.slot@ }
    }
}

/// The producer's endpoint.
pub struct Sender<T> {
    workers: Vec<Worker<T>>,
    wake: WakeObject,
    next_worker: usize,
    workers_to_unblock: i64,
    orphaned: bool,
}

/// A consumer's endpoint: the handle to one cell of a `Sender`.
pub struct Receiver<T> {
    index: usize,
    payload: PhantomData<T>,
}

impl<T> View for Sender<T> {
    type V = Channel<T>;

    closed spec fn view(&self) -> Channel<T> {
        Channel {
            cells: Seq::new(self.workers@.len(), |i: int| self.workers@[i]@),
            credits: self.wake@,
            cursor: self.next_worker as nat,
            pending: self.workers_to_unblock as nat,
            orphaned: self.orphaned,
        }
    }
}

impl<T> Sender<T> {
    /// What the fields hold beyond the view.
    pub closed spec fn repr(&self) -> bool {
        self.workers_to_unblock >= 0
    }

    /// The channel is well formed and small enough for the machine.
    pub open spec fn wf(&self) -> bool {
        &&& self@.wf()
        &&& self@.len() <= isize::MAX
        &&& self.repr()
    }

    /// A producer with no receiver yet.
    pub fn new() -> (sender: Sender<T>)
        ensures
            sender.wf(),
            sender@ == Channel::<T>::empty(),
    {
        let sender = Sender {
            workers: Vec::new(),
            wake: WakeObject::new(),
            next_worker: 0,
            workers_to_unblock: 0,
            orphaned: false,
        };
        assert(sender@.cells =~= Seq::empty());
        sender
    }

    /// Create a new receiver handle. The receiver starts busy: it takes
    /// part in the dispatch once it has begun to wait.
    pub fn mk_receiver(&mut self) -> (receiver: Receiver<T>)
        requires
            old(self).wf(),
            old(self)@.len() < isize::MAX,
        ensures
            final(self).wf(),
            final(self)@ == old(self)@.mk_receiver(),
            receiver@ == old(self)@.len(),
    {
        let index = self.workers.len();
        let state = if self.orphaned {
            ReceiverState::Orphaned
        } else {
            ReceiverState::Busy
        };
        self.workers.push(Worker { state, slot: Slot::new() });
        proof {
            lemma_mk_receiver_wf(old(self)@);
            assert(self@.cells =~= old(self)@.mk_receiver().cells);
        }
        Receiver { index, payload: PhantomData }
    }

    /// Attempt to hand a payload to a waiting receiver.
    ///
    /// The receivers are tried in ring order from the cursor. The first
    /// idle one is armed: the payload goes into its slot, the cursor moves
    /// just behind it and one more credit is pending. `None` says that the
    /// payload was accepted. When no receiver is idle the payload comes
    /// back unchanged and nothing else changes either.
    ///
    /// The receiver is not woken: that is what `wake_all` is for.
    pub fn enqueue(&mut self, x: Box<T>) -> (back: Option<Box<T>>)
        requires
            old(self).wf(),
        ensures
            final(self).wf(),
            final(self)@ == old(self)@.enqueue(x),
            back == if old(self)@.target() is Some {
                None
            } else {
                Some(x)
            },
            forall|i: int|
                0 <= i < old(self)@.len() && (#[trigger] old(self)@.cells[i]).state
                    != ReceiverState::Idle ==> final(self)@.cells[i] == old(self)@.cells[i],
    {
        let n = self.workers.len();
        let mut i: usize = 0;
        while i < n
            invariant
                i <= n,
                n == self.workers.len(),
                self.wf(),
                self@ == old(self)@,
                forall|m: int| 0 <= m < i ==> !self@.idle_at(m),
            decreases n - i,
        {
            let i2 = (i + self.next_worker) % n;
            proof {
                lemma_ring(self.next_worker as int, i as int, n as int);
                assert(i2 == ring(self@.cursor as int, i as int, self@.len() as int));
                assert(self@.cells[i2 as int].wf());
            }
            let armed = self.workers[i2].state.try_arm();
            if armed {
                self.workers[i2].slot.publish(x);
                self.next_worker = (i2 + 1) % n;
                proof {
                    let before = old(self)@;
                    lemma_first_idle_is(before, i as nat);
                    lemma_target(before);
                    lemma_enqueue_wf(before, x);
                    lemma_held_bound(before.enqueue(x).cells);
                    assert(self.workers@.len() == n);
                    assert(before.enqueue(x).cells =~= Seq::new(
                        self.workers@.len(),
                        |j: int| self.workers@[j]@,
                    ));
                }
                self.workers_to_unblock = self.workers_to_unblock + 1;
                return None;
            }
            proof {
                assert(self@.cells =~= old(self)@.cells);
                assert(!self@.idle_at(i as int));
            }
            i = i + 1;
        }
        proof {
            lemma_first_idle(self@, 0);
        }
        Some(x)
    }

    /// Wake the receivers: hand every pending credit to the wake object at
    /// once and start counting anew.
    ///
    /// Returns the eight bytes whose single write to the kernel's wake
    /// object adds those credits there.
    pub fn wake_all(&mut self) -> (image: [u8; 8])
        requires
            old(self).wf(),
        ensures
            final(self).wf(),
            final(self)@ == old(self)@.wake_all(),
            is_native_image(image@, old(self)@.pending as i64),
    {
        let credits = self.workers_to_unblock;
        let image = write_native(credits);
        self.wake.write(credits as u64);
        self.workers_to_unblock = 0;
        image
    }

    /// The producer's departure: every receiver becomes orphaned, and one
    /// credit goes to the wake object so that every waiting receiver wakes
    /// and sees it. A second call changes nothing.
    ///
    /// Returns the eight bytes to write to the kernel's wake object, or
    /// `None` when the producer had left before.
    pub fn teardown(&mut self) -> (image: Option<[u8; 8]>)
        requires
            old(self).wf(),
        ensures
            final(self).wf(),
            final(self)@ == old(self)@.teardown(),
            old(self)@.orphaned <==> image is None,
            image matches Some(bytes) ==> is_native_image(bytes@, 1),
    {
        if self.orphaned {
            return None;
        }
        let n = self.workers.len();
        let mut i: usize = 0;
        while i < n
            invariant
                i <= n,
                n == self.workers.len(),
                n == old(self).workers.len(),
                self.wake == old(self).wake,
                self.next_worker == old(self).next_worker,
                self.workers_to_unblock == old(self).workers_to_unblock,
                self.orphaned == old(self).orphaned,
                forall|j: int|
                    0 <= j < i ==> (#[trigger] self.workers@[j])@ == (Cell {
                        state: ReceiverState::Orphaned,
                        slot: old(self).workers@[j]@.slot,
                    }),
                forall|j: int| i <= j < n ==> (#[trigger] self.workers@[j]) == old(self).workers@[j],
            decreases n - i,
        {
            self.workers[i].state.orphan();
            i = i + 1;
        }
        proof {
            lemma_teardown_wf(old(self)@);
            assert(old(self)@.teardown().cells =~= Seq::new(
                self.workers@.len(),
                |j: int| self.workers@[j]@,
            ));
        }
        self.wake.write(1);
        self.orphaned = true;
        Some(write_native(1))
    }
}

impl<T> Sender<T> {
    /// How many receivers the producer has made.
    pub fn receiver_count(&self) -> (n: usize)
        ensures
            n == self@.len(),
    {
        self.workers.len()
    }

    /// The place in the ring where the next enqueue starts to look.
    pub fn cursor(&self) -> (next: usize)
        ensures
            next == self@.cursor,
    {
        self.next_worker
    }

    /// The credits promised since the last flush.
    pub fn pending_credits(&self) -> (n: i64)
        requires
            self.wf(),
        ensures
            n == self@.pending,
    {
        self.workers_to_unblock
    }

    /// The credits that the wake object holds.
    pub fn credits(&self) -> (n: u64)
        ensures
            n == self@.credits,
    {
        self.wake.credits()
    }

    /// Whether the producer has left.
    pub fn is_orphaned(&self) -> (gone: bool)
        ensures
            gone == self@.orphaned,
    {
        self.orphaned
    }

    /// Whether `receiver` is a handle to one of this producer's cells.
    pub fn owns(&self, receiver: &Receiver<T>) -> (mine: bool)
        ensures
            mine <==> 0 <= receiver@ < self@.len(),
    {
        receiver.index < self.workers.len()
    }

    /// The state of a receiver.
    pub fn state_of(&self, receiver: &Receiver<T>) -> (state: ReceiverState)
        requires
            0 <= receiver@ < self@.len(),
        ensures
            state == self@.cells[receiver@].state,
    {
        self.workers[receiver.index].state
    }
}

impl<T> Receiver<T> {
    /// The place of the receiver's cell in the ring.
    pub fn index(&self) -> (i: usize)
        ensures
            i == self@,
    {
        self.index
    }

    /// One turn of a receive.
    ///
    /// A busy receiver becomes idle and is told to wait. A waiting receiver
    /// that finds the wake object readable looks at its state: armed, it
    /// becomes busy, consumes one credit and leaves with its payload; still
    /// idle, the credit was meant for another and it is told to yield and
    /// wait again, with the credit left in place. An orphaned receiver
    /// leaves with `Orphaned`. A waiting receiver that finds the wake
    /// object not readable is told to wait.
    pub fn recv(&self, sender: &mut Sender<T>) -> (step: RecvStep<T>)
        requires
            old(sender).wf(),
            0 <= self@ < old(sender)@.len(),
        ensures
            final(sender).wf(),
            final(sender)@ == old(sender)@.recv(self@),
            step == old(sender)@.recv_step(self@),
    {
        let i = self.index;
        proof {
            lemma_recv_wf(old(sender)@, i as int);
            assert(sender@.cells[i as int].wf());
        }
        let state = sender.workers[i].state;
        match state {
            ReceiverState::Busy => {
                let waiting = sender.workers[i].state.begin_wait();
                proof {
                    assert(old(sender)@.recv(i as int).cells =~= Seq::new(
                        sender.workers@.len(),
                        |j: int| sender.workers@[j]@,
                    ));
                }
                RecvStep::Wait
            },
            ReceiverState::Orphaned => RecvStep::Done(Err(RecvError::Orphaned)),
            _ => {
                if !sender.wake.readable() {
                    return RecvStep::Wait;
                }
                let found = sender.workers[i].state.try_claim();
                match found {
                    Claim::Mine => {
                        let taken = sender.wake.read();
                        let payload = sender.workers[i].slot.claim();
                        proof {
                            assert(old(sender)@.recv(i as int).cells =~= Seq::new(
                                sender.workers@.len(),
                                |j: int| sender.workers@[j]@,
                            ));
                        }
                        RecvStep::Done(Ok(payload))
                    },
                    Claim::NotMine => {
                        proof {
                            assert(sender@.cells =~= old(sender)@.cells);
                        }
                        RecvStep::Yield
                    },
                    Claim::Orphaned => RecvStep::Done(Err(RecvError::Orphaned)),
                }
            },
        }
    }
}

impl<T> View for Receiver<T> {
    type V = int;

    /// The place of the receiver's cell in the ring.
    closed spec fn view(&self) -> int {
        self.index as int
    }
}

} // verus!
