//! The channel as a mathematical state machine.
//!
//! A `Channel` is what the producer, the receivers and the wake object hold
//! together at one instant. Every operation of the executable engine is one
//! atomic step of this machine, given here as a function from state to state.
use crate::channel::RecvError;
use crate::channel::RecvStep;
use crate::state::ReceiverState;
use vstd::multiset::Multiset;
use vstd::prelude::*;

verus! {

/// One receiver's state word and slot.
pub struct Cell<T> {
    pub state: ReceiverState,
    pub slot: Option<Box<T>>,
}

impl<T> Cell<T> {
    /// The state word tells what the slot holds: nothing while the receiver
    /// is busy or idle, a payload while it is armed. An orphaned receiver
    /// keeps whatever it had.
    pub open spec fn wf(self) -> bool {
        match self.state {
            ReceiverState::Busy => self.slot is None,
            ReceiverState::Idle => self.slot is None,
            ReceiverState::Armed => self.slot is Some,
            ReceiverState::Orphaned => true,
        }
    }

    /// The payload in the slot, as a multiset of none or one.
    pub open spec fn payload(self) -> Multiset<Box<T>> {
        match self.slot {
            Some(p) => Multiset::singleton(p),
            None => Multiset::empty(),
        }
    }
}

/// The payloads that sit in the slots of `cells`.
pub open spec fn held<T>(cells: Seq<Cell<T>>) -> Multiset<Box<T>>
    decreases cells.len(),
{
    if cells.len() == 0 {
        Multiset::empty()
    } else {
        held(cells.drop_last()).add(cells.last().payload())
    }
}

/// How many of `cells` are armed.
pub open spec fn armed<T>(cells: Seq<Cell<T>>) -> nat
    decreases cells.len(),
{
    if cells.len() == 0 {
        0
    } else {
        armed(cells.drop_last()) + if cells.last().state == ReceiverState::Armed {
            1nat
        } else {
            0nat
        }
    }
}

/// The receiver that stands `k` places after `cursor` in a ring of `n`.
pub open spec fn ring(cursor: int, k: int, n: int) -> int {
    (cursor + k) % n
}

/// The whole channel at one instant.
pub struct Channel<T> {
    /// The receivers' cells, in the order in which they were made.
    pub cells: Seq<Cell<T>>,
    /// The count that the wake object holds.
    pub credits: nat,
    /// Where the next scan starts.
    pub cursor: nat,
    /// Credits promised to armed receivers and not yet written to the wake object.
    pub pending: nat,
    /// Whether the producer is gone.
    pub orphaned: bool,
}

impl<T> Channel<T> {
    /// The channel of a new producer: no receiver, no credit.
    pub open spec fn empty() -> Channel<T> {
        Channel { cells: Seq::empty(), credits: 0, cursor: 0, pending: 0, orphaned: false }
    }

    /// How many receivers there are.
    pub open spec fn len(self) -> nat {
        self.cells.len()
    }

    /// How many receivers are armed.
    pub open spec fn armed(self) -> nat {
        armed(self.cells)
    }

    /// The payloads that were accepted and not yet handed to a receiver.
    pub open spec fn in_flight(self) -> Multiset<Box<T>> {
        held(self.cells)
    }

    /// What holds of every channel that the operations can reach.
    ///
    /// Each cell agrees with its state word, the cursor points into the
    /// ring, and while the producer lives every payload in a slot is covered
    /// by exactly one credit, written or pending. Once the producer is gone
    /// every receiver is orphaned and the wake object stays readable.
    pub open spec fn wf(self) -> bool {
        &&& forall|i: int| 0 <= i < self.cells.len() ==> (#[trigger] self.cells[i]).wf()
        &&& self.cursor == 0 || self.cursor < self.cells.len()
        &&& self.credits + self.pending <= self.cells.len() + 1
        &&& !self.orphaned ==> {
            &&& self.credits + self.pending == self.in_flight().len()
            &&& forall|i: int|
                0 <= i < self.cells.len() ==> (#[trigger] self.cells[i]).state
                    != ReceiverState::Orphaned
        }
        &&& self.orphaned ==> {
            &&& self.credits >= 1
            &&& forall|i: int|
                0 <= i < self.cells.len() ==> (#[trigger] self.cells[i]).state
                    == ReceiverState::Orphaned
        }
    }

    /// A new receiver joins at the end of the ring: busy with an empty slot,
    /// or orphaned from the start if the producer is already gone.
    pub open spec fn mk_receiver(self) -> Channel<T> {
        let state = if self.orphaned {
            ReceiverState::Orphaned
        } else {
            ReceiverState::Busy
        };
        Channel { cells: self.cells.push(Cell { state, slot: None }), ..self }
    }

    /// Whether the receiver `k` places after the cursor is idle.
    pub open spec fn idle_at(self, k: int) -> bool {
        self.cells[ring(self.cursor as int, k, self.cells.len() as int)].state
            == ReceiverState::Idle
    }

    /// The number of places after the cursor at which a scan that starts
    /// `k` places after it first meets an idle receiver, within one full
    /// turn of the ring.
    pub open spec fn first_idle(self, k: nat) -> Option<nat>
        decreases self.cells.len() - k,
    {
        if k >= self.cells.len() {
            None
        } else if self.idle_at(k as int) {
            Some(k)
        } else {
            self.first_idle(k + 1)
        }
    }

    /// The receiver that the next enqueue arms, if any: the first idle one
    /// in the ring, the cursor's own place first.
    pub open spec fn target(self) -> Option<int> {
        match self.first_idle(0) {
            Some(k) => Some(ring(self.cursor as int, k as int, self.cells.len() as int)),
            None => None,
        }
    }

    /// The channel with receiver `t` armed with `payload`: the slot filled,
    /// the cursor just behind it, one more credit pending.
    pub open spec fn arm(self, t: int, payload: Box<T>) -> Channel<T> {
        Channel {
            cells: self.cells.update(
                t,
                Cell { state: ReceiverState::Armed, slot: Some(payload) },
            ),
            cursor: ring(t, 1, self.cells.len() as int) as nat,
            pending: self.pending + 1,
            ..self
        }
    }

    /// One enqueue: arm the target, or change nothing when no receiver is idle.
    pub open spec fn enqueue(self, payload: Box<T>) -> Channel<T> {
        match self.target() {
            Some(t) => self.arm(t, payload),
            None => self,
        }
    }

    /// One flush: the pending credits go to the wake object.
    pub open spec fn wake_all(self) -> Channel<T> {
        Channel { credits: self.credits + self.pending, pending: 0, ..self }
    }

    /// Whether a turn of receiver `i` hands it a payload: it is armed and
    /// the wake object is readable.
    pub open spec fn delivers(self, i: int) -> bool {
        &&& 0 <= i < self.cells.len()
        &&& self.cells[i].state == ReceiverState::Armed
        &&& self.credits > 0
    }

    /// One turn of receiver `i`.
    ///
    /// A busy receiver starts to wait. An armed receiver that finds the wake
    /// object readable takes its payload, becomes busy and consumes one
    /// credit. In every other case nothing changes.
    pub open spec fn recv(self, i: int) -> Channel<T> {
        if !(0 <= i < self.cells.len()) {
            self
        } else if self.cells[i].state == ReceiverState::Busy {
            Channel {
                cells: self.cells.update(i, Cell { state: ReceiverState::Idle, ..self.cells[i] }),
                ..self
            }
        } else if self.delivers(i) {
            Channel {
                cells: self.cells.update(i, Cell { state: ReceiverState::Busy, slot: None }),
                credits: (self.credits - 1) as nat,
                ..self
            }
        } else {
            self
        }
    }

    /// What one turn of receiver `i` tells its caller.
    pub open spec fn recv_step(self, i: int) -> RecvStep<T> {
        if !(0 <= i < self.cells.len()) {
            RecvStep::Wait
        } else {
            match self.cells[i].state {
                ReceiverState::Busy => RecvStep::Wait,
                ReceiverState::Idle => if self.credits > 0 {
                    RecvStep::Yield
                } else {
                    RecvStep::Wait
                },
                ReceiverState::Armed => if self.credits > 0 {
                    match self.cells[i].slot {
                        Some(p) => RecvStep::Done(Ok(p)),
                        None => RecvStep::Wait,
                    }
                } else {
                    RecvStep::Wait
                },
                ReceiverState::Orphaned => RecvStep::Done(Err(RecvError::Orphaned)),
            }
        }
    }

    /// The producer leaves: every receiver becomes orphaned and one credit
    /// is written so that the wake object is readable from then on. A
    /// second departure changes nothing.
    pub open spec fn teardown(self) -> Channel<T> {
        if self.orphaned {
            self
        } else {
            Channel {
                cells: Seq::new(
                    self.cells.len(),
                    |i: int| Cell { state: ReceiverState::Orphaned, slot: self.cells[i].slot },
                ),
                credits: self.credits + 1,
                orphaned: true,
                ..self
            }
        }
    }
}

/// In a ring of `n` the place `k` after `cursor` is `cursor + k`, less `n`
/// where that runs past the end.
pub proof fn lemma_ring(cursor: int, k: int, n: int)
    requires
        0 <= cursor < n,
        0 <= k <= n,
    ensures
        ring(cursor, k, n) == if cursor + k < n {
            cursor + k
        } else {
            cursor + k - n
        },
        0 <= ring(cursor, k, n) < n,
{
    let x = cursor + k;
    if x < n {
        assert(x % n == x) by (nonlinear_arith)
            requires
                0 <= x < n,
        ;
    } else {
        assert(x % n == x - n) by (nonlinear_arith)
            requires
                n <= x < 2 * n,
        ;
    }
}

/// What `first_idle` finds is idle, nothing before it is, and it finds
/// nothing only where nothing is idle.
pub proof fn lemma_first_idle<T>(s: Channel<T>, k: nat)
    ensures
        match s.first_idle(k) {
            Some(j) => {
                &&& k <= j < s.len()
                &&& s.idle_at(j as int)
                &&& forall|m: int| k <= m < j ==> !s.idle_at(m)
            },
            None => forall|m: int| k <= m < s.len() ==> !s.idle_at(m),
        },
    decreases s.len() - k,
{
    if k < s.len() && !s.idle_at(k as int) {
        lemma_first_idle(s, k + 1);
    }
}

/// An idle place with no idle place before it is what `first_idle` finds.
pub proof fn lemma_first_idle_is<T>(s: Channel<T>, j: nat)
    requires
        j < s.len(),
        s.idle_at(j as int),
        forall|m: int| 0 <= m < j ==> !s.idle_at(m),
    ensures
        s.first_idle(0) == Some(j),
{
    lemma_first_idle(s, 0);
}

/// Adding a cell adds its payload to what is held.
pub proof fn lemma_held_push<T>(cells: Seq<Cell<T>>, c: Cell<T>)
    ensures
        held(cells.push(c)) == held(cells).add(c.payload()),
{
    assert(cells.push(c).drop_last() =~= cells);
}

/// Replacing a cell exchanges its payload for the new one in what is held.
pub proof fn lemma_held_update<T>(cells: Seq<Cell<T>>, i: int, c: Cell<T>)
    requires
        0 <= i < cells.len(),
    ensures
        held(cells.update(i, c)).add(cells[i].payload()) == held(cells).add(c.payload()),
    decreases cells.len(),
{
    let after = cells.update(i, c);
    let front = cells.drop_last();
    assert(held(after) == held(after.drop_last()).add(after.last().payload()));
    assert(held(cells) == held(front).add(cells.last().payload()));
    if i == cells.len() - 1 {
        assert(after.drop_last() =~= front);
    } else {
        let moved = front.update(i, c);
        assert(after.drop_last() =~= moved);
        assert(front[i] == cells[i]);
        lemma_held_update(front, i, c);
        assert forall|v: Box<T>|
            held(moved).count(v) + cells[i].payload().count(v) == held(front).count(v)
                + c.payload().count(v) by {
            assert(held(moved).add(front[i].payload()).count(v) == held(front).add(
                c.payload(),
            ).count(v));
        }
    }
    assert(held(after).add(cells[i].payload()) =~= held(cells).add(c.payload()));
}

/// No more payloads are held than there are cells.
pub proof fn lemma_held_bound<T>(cells: Seq<Cell<T>>)
    ensures
        held(cells).len() <= cells.len(),
    decreases cells.len(),
{
    if cells.len() > 0 {
        lemma_held_bound(cells.drop_last());
    }
}

/// Cells that differ only in their state words hold the same payloads.
pub proof fn lemma_held_same_slots<T>(a: Seq<Cell<T>>, b: Seq<Cell<T>>)
    requires
        a.len() == b.len(),
        forall|i: int| 0 <= i < a.len() ==> (#[trigger] a[i]).slot == b[i].slot,
    ensures
        held(a) == held(b),
    decreases a.len(),
{
    if a.len() > 0 {
        lemma_held_same_slots(a.drop_last(), b.drop_last());
        assert(a.last().slot == b.last().slot);
    }
}

/// A payload in a slot is among what is held.
pub proof fn lemma_held_has<T>(cells: Seq<Cell<T>>, i: int)
    requires
        0 <= i < cells.len(),
        cells[i].slot is Some,
    ensures
        held(cells).count(cells[i].slot->0) >= 1,
        held(cells).len() >= 1,
    decreases cells.len(),
{
    if i < cells.len() - 1 {
        lemma_held_has(cells.drop_last(), i);
    }
    assert(held(cells).count(cells[i].slot->0) <= held(cells).len());
}

/// Where every slot is empty nothing is held.
pub proof fn lemma_held_none<T>(cells: Seq<Cell<T>>)
    requires
        forall|i: int| 0 <= i < cells.len() ==> (#[trigger] cells[i]).slot is None,
    ensures
        held(cells) == Multiset::<Box<T>>::empty(),
    decreases cells.len(),
{
    if cells.len() > 0 {
        lemma_held_none(cells.drop_last());
        assert(cells.last().slot is None);
        assert(held(cells) =~= Multiset::<Box<T>>::empty());
    }
}

/// Among well-formed cells of which none is orphaned, as many payloads are
/// held as cells are armed.
pub proof fn lemma_held_armed<T>(cells: Seq<Cell<T>>)
    requires
        forall|i: int|
            0 <= i < cells.len() ==> (#[trigger] cells[i]).wf() && cells[i].state
                != ReceiverState::Orphaned,
    ensures
        held(cells).len() == armed(cells),
    decreases cells.len(),
{
    if cells.len() > 0 {
        lemma_held_armed(cells.drop_last());
        assert(cells.last().wf() && cells.last().state != ReceiverState::Orphaned);
    }
}

/// The target of an enqueue is a receiver of the channel and is idle.
pub proof fn lemma_target<T>(s: Channel<T>)
    requires
        s.wf(),
    ensures
        s.target() matches Some(t) ==> {
            &&& 0 <= t < s.len()
            &&& s.cells[t].state == ReceiverState::Idle
            &&& s.cells[t].slot is None
            &&& !s.orphaned
        },
        s.target() is None ==> forall|i: int|
            0 <= i < s.len() ==> (#[trigger] s.cells[i]).state != ReceiverState::Idle,
{
    lemma_first_idle(s, 0);
    let n = s.len() as int;
    let c = s.cursor as int;
    match s.first_idle(0) {
        Some(k) => {
            lemma_ring(c, k as int, n);
            let t = ring(c, k as int, n);
            assert(s.cells[t].wf());
        },
        None => {
            assert forall|i: int| 0 <= i < n implies (#[trigger] s.cells[i]).state
                != ReceiverState::Idle by {
                let k = if i >= c {
                    i - c
                } else {
                    i - c + n
                };
                lemma_ring(c, k, n);
                assert(!s.idle_at(k));
            }
        },
    }
}

/// A new receiver leaves the channel well formed.
pub proof fn lemma_mk_receiver_wf<T>(s: Channel<T>)
    requires
        s.wf(),
    ensures
        s.mk_receiver().wf(),
        s.mk_receiver().in_flight() == s.in_flight(),
{
    let after = s.mk_receiver();
    lemma_held_push(s.cells, after.cells.last());
    assert(after.in_flight() =~= s.in_flight());
    assert forall|i: int| 0 <= i < after.cells.len() implies (#[trigger] after.cells[i]).wf() by {
        if i < s.cells.len() {
            assert(s.cells[i].wf());
        }
    }
    if s.orphaned {
        assert forall|i: int| 0 <= i < after.cells.len() implies (#[trigger] after.cells[i]).state
            == ReceiverState::Orphaned by {
            if i < s.cells.len() {
                assert(s.cells[i].state == ReceiverState::Orphaned);
            }
        }
    } else {
        assert forall|i: int| 0 <= i < after.cells.len() implies (#[trigger] after.cells[i]).state
            != ReceiverState::Orphaned by {
            if i < s.cells.len() {
                assert(s.cells[i].state != ReceiverState::Orphaned);
            }
        }
    }
}

/// An enqueue leaves the channel well formed, and what is in flight grows
/// by the payload exactly when it was accepted.
pub proof fn lemma_enqueue_wf<T>(s: Channel<T>, payload: Box<T>)
    requires
        s.wf(),
    ensures
        s.enqueue(payload).wf(),
        s.enqueue(payload).in_flight() == if s.target() is Some {
            s.in_flight().insert(payload)
        } else {
            s.in_flight()
        },
{
    lemma_target(s);
    match s.target() {
        Some(t) => {
            let after = s.enqueue(payload);
            let n = s.len() as int;
            lemma_ring(t, 1, n);
            lemma_held_update(s.cells, t, after.cells[t]);
            assert(s.cells[t].payload() =~= Multiset::empty());
            assert(after.in_flight() =~= s.in_flight().insert(payload));
            lemma_held_bound(after.cells);
            assert forall|i: int| 0 <= i < after.cells.len() implies (#[trigger] after.cells[i]).wf()
                && after.cells[i].state != ReceiverState::Orphaned by {
                if i != t {
                    assert(s.cells[i].wf());
                    assert(s.cells[i].state != ReceiverState::Orphaned);
                }
            }
        },
        None => {},
    }
}

/// A flush leaves the channel well formed.
pub proof fn lemma_wake_all_wf<T>(s: Channel<T>)
    requires
        s.wf(),
    ensures
        s.wake_all().wf(),
        s.wake_all().in_flight() == s.in_flight(),
{
}

/// A receiver's turn leaves the channel well formed, and what is in flight
/// shrinks by the payload exactly when one was handed over.
pub proof fn lemma_recv_wf<T>(s: Channel<T>, i: int)
    requires
        s.wf(),
    ensures
        s.recv(i).wf(),
        s.delivers(i) ==> s.cells[i].slot is Some && s.in_flight() == s.recv(i).in_flight().add(
            s.cells[i].payload(),
        ),
        !s.delivers(i) ==> s.recv(i).in_flight() == s.in_flight(),
{
    let after = s.recv(i);
    if 0 <= i < s.len() {
        assert(s.cells[i].wf());
        if s.cells[i].state == ReceiverState::Busy || s.delivers(i) {
            lemma_held_update(s.cells, i, after.cells[i]);
            assert(after.cells[i].payload() =~= Multiset::empty());
            assert(s.in_flight() =~= after.in_flight().add(s.cells[i].payload()));
            if !s.delivers(i) {
                assert(s.cells[i].payload() =~= Multiset::empty());
                assert(after.in_flight() =~= s.in_flight());
            }
            assert forall|j: int| 0 <= j < after.cells.len() implies (#[trigger] after.cells[j]).wf()
                && (after.cells[j].state == ReceiverState::Orphaned <==> s.orphaned) by {
                if j != i {
                    assert(s.cells[j].wf());
                }
                assert(s.cells[j].state == ReceiverState::Orphaned <==> s.orphaned);
            }
        }
    }
}

/// The producer's departure leaves the channel well formed, and every
/// payload stays in the slot where it was.
pub proof fn lemma_teardown_wf<T>(s: Channel<T>)
    requires
        s.wf(),
    ensures
        s.teardown().wf(),
        s.teardown().in_flight() == s.in_flight(),
{
    if !s.orphaned {
        lemma_held_same_slots(s.teardown().cells, s.cells);
        lemma_held_bound(s.cells);
    }
}

} // verus!
