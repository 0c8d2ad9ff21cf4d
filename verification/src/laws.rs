//! What holds of every run of the channel.
//!
//! A run is a sequence of steps, each taken by the producer or by one
//! receiver, in any order. The laws below are proved for every run from
//! every well-formed channel.
use crate::channel::RecvError;
use crate::channel::RecvStep;
use crate::model::Channel;
use crate::model::lemma_enqueue_wf;
use crate::model::lemma_held_armed;
use crate::model::lemma_held_has;
use crate::model::lemma_held_none;
use crate::model::lemma_mk_receiver_wf;
use crate::model::lemma_recv_wf;
use crate::model::lemma_target;
use crate::model::lemma_teardown_wf;
use crate::model::lemma_wake_all_wf;
use crate::state::ReceiverState;
use vstd::multiset::Multiset;
use vstd::prelude::*;

verus! {

/// One step of a run.
pub enum Op<T> {
    /// The producer makes a receiver.
    MkReceiver,
    /// The producer offers a payload.
    Enqueue(Box<T>),
    /// The producer flushes the pending credits.
    WakeAll,
    /// The receiver at this place takes one turn of a receive.
    Recv(int),
    /// The producer leaves.
    Teardown,
}

impl<T> Channel<T> {
    /// The channel after one step.
    pub open spec fn step(self, op: Op<T>) -> Channel<T> {
        match op {
            Op::MkReceiver => self.mk_receiver(),
            Op::Enqueue(x) => self.enqueue(x),
            Op::WakeAll => self.wake_all(),
            Op::Recv(i) => self.recv(i),
            Op::Teardown => self.teardown(),
        }
    }

    /// The channel after the steps of `ops`, first to last.
    pub open spec fn run(self, ops: Seq<Op<T>>) -> Channel<T>
        decreases ops.len(),
    {
        if ops.len() == 0 {
            self
        } else {
            self.run(ops.drop_last()).step(ops.last())
        }
    }

    /// What one step takes in: the payload of an enqueue that is accepted.
    pub open spec fn takes_in(self, op: Op<T>) -> Multiset<Box<T>> {
        match op {
            Op::Enqueue(x) => if self.target() is Some {
                Multiset::singleton(x)
            } else {
                Multiset::empty()
            },
            _ => Multiset::empty(),
        }
    }

    /// What one step hands out: the payload that a receiver's turn returns.
    pub open spec fn hands_out(self, op: Op<T>) -> Multiset<Box<T>> {
        match op {
            Op::Recv(i) => if self.delivers(i) {
                self.cells[i].payload()
            } else {
                Multiset::empty()
            },
            _ => Multiset::empty(),
        }
    }

    /// The payloads that the enqueues of a run were accepted with.
    pub open spec fn accepted(self, ops: Seq<Op<T>>) -> Multiset<Box<T>>
        decreases ops.len(),
    {
        if ops.len() == 0 {
            Multiset::empty()
        } else {
            self.accepted(ops.drop_last()).add(self.run(ops.drop_last()).takes_in(ops.last()))
        }
    }

    /// The payloads that the receives of a run returned.
    pub open spec fn delivered(self, ops: Seq<Op<T>>) -> Multiset<Box<T>>
        decreases ops.len(),
    {
        if ops.len() == 0 {
            Multiset::empty()
        } else {
            self.delivered(ops.drop_last()).add(self.run(ops.drop_last()).hands_out(ops.last()))
        }
    }
}

/// Every step keeps the channel well formed, and what is in flight changes
/// by exactly what the step takes in and hands out.
pub proof fn lemma_step<T>(s: Channel<T>, op: Op<T>)
    requires
        s.wf(),
    ensures
        s.step(op).wf(),
        s.in_flight().add(s.takes_in(op)) == s.step(op).in_flight().add(s.hands_out(op)),
{
    match op {
        Op::MkReceiver => {
            lemma_mk_receiver_wf(s);
        },
        Op::Enqueue(x) => {
            lemma_enqueue_wf(s, x);
        },
        Op::WakeAll => {
            lemma_wake_all_wf(s);
        },
        Op::Recv(i) => {
            lemma_recv_wf(s, i);
        },
        Op::Teardown => {
            lemma_teardown_wf(s);
        },
    }
    assert(s.in_flight().add(s.takes_in(op)) =~= s.step(op).in_flight().add(s.hands_out(op)));
}

/// The invariant: every run from a well-formed channel ends in a
/// well-formed channel. So at every instant an idle or busy receiver has
/// an empty slot, an armed one a full slot, and the credits written and
/// pending are as many as the payloads in slots.
pub proof fn lemma_run_wf<T>(s: Channel<T>, ops: Seq<Op<T>>)
    requires
        s.wf(),
    ensures
        s.run(ops).wf(),
    decreases ops.len(),
{
    if ops.len() > 0 {
        lemma_run_wf(s, ops.drop_last());
        lemma_step(s.run(ops.drop_last()), ops.last());
    }
}

/// Conservation: over every run, the payloads in flight at the start and
/// those accepted on the way are, each as often as it occurs, the payloads
/// in flight at the end and those returned by receives. Nothing accepted
/// is lost and nothing is returned twice.
pub proof fn lemma_conservation<T>(s: Channel<T>, ops: Seq<Op<T>>)
    requires
        s.wf(),
    ensures
        s.in_flight().add(s.accepted(ops)) == s.run(ops).in_flight().add(s.delivered(ops)),
        s.delivered(ops).subset_of(s.in_flight().add(s.accepted(ops))),
    decreases ops.len(),
{
    if ops.len() > 0 {
        let front = ops.drop_last();
        lemma_conservation(s, front);
        lemma_run_wf(s, front);
        lemma_step(s.run(front), ops.last());
        let mid = s.run(front);
        let op = ops.last();
        assert forall|v: Box<T>|
            s.in_flight().count(v) + s.accepted(ops).count(v) == s.run(ops).in_flight().count(v)
                + s.delivered(ops).count(v) by {
            assert(s.in_flight().add(s.accepted(front)).count(v) == mid.in_flight().add(
                s.delivered(front),
            ).count(v));
            assert(mid.in_flight().add(mid.takes_in(op)).count(v) == mid.step(op).in_flight().add(
                mid.hands_out(op),
            ).count(v));
        }
    }
    assert(s.in_flight().add(s.accepted(ops)) =~= s.run(ops).in_flight().add(s.delivered(ops)));
    assert forall|v: Box<T>|
        s.delivered(ops).count(v) <= s.in_flight().add(s.accepted(ops)).count(v) by {
        assert(s.in_flight().add(s.accepted(ops)).count(v) == s.run(ops).in_flight().add(
            s.delivered(ops),
        ).count(v));
    }
}

/// Whether the steps of `ops` are all turns of receivers.
pub open spec fn only_turns<T>(ops: Seq<Op<T>>) -> bool {
    forall|k: int| 0 <= k < ops.len() ==> (#[trigger] ops[k]) is Recv
}

/// Whether no step of `ops` is a turn of receiver `t` or the producer's departure.
pub open spec fn leaves_alone<T>(ops: Seq<Op<T>>, t: int) -> bool {
    forall|k: int|
        0 <= k < ops.len() ==> (#[trigger] ops[k]) != Op::<T>::Recv(t) && ops[k]
            != Op::<T>::Teardown
}

/// The steps that offer the payloads of `xs` in order.
pub open spec fn offers<T>(xs: Seq<Box<T>>) -> Seq<Op<T>> {
    Seq::new(xs.len(), |k: int| Op::Enqueue(xs[k]))
}

impl<T> Channel<T> {
    /// Nothing is in flight and the producer lives.
    pub open spec fn quiet(self) -> bool {
        &&& !self.orphaned
        &&& self.credits == 0
        &&& self.pending == 0
    }

    /// The producer lives and has flushed every credit that it promised.
    pub open spec fn flushed(self) -> bool {
        &&& !self.orphaned
        &&& self.pending == 0
    }
}

/// No double arm: an enqueue never picks an armed receiver, and leaves
/// the state and the slot of every armed receiver as they were.
pub proof fn lemma_no_double_arm<T>(s: Channel<T>, x: Box<T>, i: int)
    requires
        s.wf(),
        0 <= i < s.len(),
        s.cells[i].state == ReceiverState::Armed,
    ensures
        s.target() != Some(i),
        s.enqueue(x).cells[i] == s.cells[i],
{
    lemma_target(s);
}

/// Turns of receivers after a flush: the channel stays flushed, every
/// payload returned is one that was in flight, each return consumes one
/// credit, and there are always as many credits as payloads in flight.
pub proof fn lemma_flushed_turns<T>(b: Channel<T>, turns: Seq<Op<T>>)
    requires
        b.wf(),
        b.flushed(),
        only_turns(turns),
    ensures
        b.run(turns).wf(),
        b.run(turns).flushed(),
        b.run(turns).credits == b.run(turns).in_flight().len(),
        b.in_flight() == b.run(turns).in_flight().add(b.delivered(turns)),
        b.delivered(turns).len() + b.run(turns).credits == b.credits,
    decreases turns.len(),
{
    lemma_run_wf(b, turns);
    if turns.len() > 0 {
        let front = turns.drop_last();
        assert(only_turns(front));
        lemma_flushed_turns(b, front);
        let mid = b.run(front);
        assert(turns.last() is Recv);
        let op = turns.last();
        lemma_step(mid, op);
        assert forall|v: Box<T>|
            b.in_flight().count(v) == b.run(turns).in_flight().count(v) + b.delivered(
                turns,
            ).count(v) by {
            assert(b.in_flight().count(v) == mid.in_flight().add(b.delivered(front)).count(v));
            assert(mid.in_flight().add(mid.takes_in(op)).count(v) == mid.step(op).in_flight().add(
                mid.hands_out(op),
            ).count(v));
        }
        assert(b.in_flight() =~= b.run(turns).in_flight().add(b.delivered(turns)));
    } else {
        assert(b.in_flight() =~= b.run(turns).in_flight().add(b.delivered(turns)));
    }
}

/// After a flush every armed receiver gets its payload on its next turn.
pub proof fn lemma_armed_delivers<T>(s: Channel<T>, i: int)
    requires
        s.wf(),
        s.flushed(),
        0 <= i < s.len(),
        s.cells[i].state == ReceiverState::Armed,
    ensures
        s.delivers(i),
        s.cells[i].slot matches Some(p) && s.recv_step(i) == RecvStep::Done(Ok(p)),
{
    assert(s.cells[i].wf());
    lemma_held_has(s.cells, i);
}

/// Where no receiver is armed, nothing is in flight.
pub proof fn lemma_none_armed<T>(s: Channel<T>)
    requires
        s.wf(),
        !s.orphaned,
        forall|i: int| 0 <= i < s.len() ==> (#[trigger] s.cells[i]).state != ReceiverState::Armed,
    ensures
        s.in_flight() == Multiset::<Box<T>>::empty(),
        s.credits == 0,
        s.pending == 0,
{
    assert forall|i: int| 0 <= i < s.cells.len() implies (#[trigger] s.cells[i]).slot is None by {
        assert(s.cells[i].wf());
        assert(s.cells[i].state != ReceiverState::Orphaned);
    }
    lemma_held_none(s.cells);
}

/// Offers alone: the producer stays, the credits in the wake object stay,
/// and no payload is returned.
pub proof fn lemma_offers<T>(s: Channel<T>, xs: Seq<Box<T>>)
    requires
        s.wf(),
    ensures
        s.run(offers(xs)).orphaned == s.orphaned,
        s.run(offers(xs)).credits == s.credits,
        s.delivered(offers(xs)) == Multiset::<Box<T>>::empty(),
    decreases xs.len(),
{
    if xs.len() > 0 {
        assert(offers(xs).drop_last() =~= offers(xs.drop_last()));
        lemma_offers(s, xs.drop_last());
        assert(s.delivered(offers(xs)) =~= Multiset::<Box<T>>::empty());
    }
}

/// Conservation of a burst.
///
/// The producer, alive, offers the payloads of `xs` and then flushes once.
/// Say `K` of them were accepted. Then exactly `K` more payloads are in
/// flight than before, the accepted ones, and the wake object holds one
/// credit for each payload in flight. Whatever turns the receivers take
/// after that, what they return are payloads that were in flight, each at
/// most as often as it was there; every return consumes one credit; every
/// receiver that is still armed gets its payload on its next turn; and
/// once no receiver is armed any more, what was returned is exactly what
/// was in flight: from a quiet channel, exactly the `K` accepted payloads.
pub proof fn lemma_burst_conservation<T>(s: Channel<T>, xs: Seq<Box<T>>, turns: Seq<Op<T>>)
    requires
        s.wf(),
        !s.orphaned,
        only_turns(turns),
    ensures
        ({
            let accepted = s.accepted(offers(xs));
            let b = s.run(offers(xs)).wake_all();
            let e = b.run(turns);
            &&& b.in_flight() == s.in_flight().add(accepted)
            &&& b.credits == b.in_flight().len()
            &&& b.credits == b.armed()
            &&& b.delivered(turns).subset_of(b.in_flight())
            &&& b.delivered(turns).len() + e.credits == b.credits
            &&& b.in_flight() == e.in_flight().add(b.delivered(turns))
            &&& forall|i: int|
                0 <= i < e.len() && (#[trigger] e.cells[i]).state == ReceiverState::Armed
                    ==> e.delivers(i)
            &&& e.armed() == 0 ==> b.delivered(turns) == b.in_flight()
            &&& s.quiet() ==> b.in_flight() == accepted && b.credits == accepted.len()
        }),
{
    let accepted = s.accepted(offers(xs));
    let a = s.run(offers(xs));
    let b = a.wake_all();
    let e = b.run(turns);
    lemma_offers(s, xs);
    lemma_run_wf(s, offers(xs));
    lemma_conservation(s, offers(xs));
    assert(a.in_flight() =~= s.in_flight().add(accepted));
    lemma_wake_all_wf(a);
    lemma_flushed_turns(b, turns);
    lemma_held_armed(b.cells);
    lemma_held_armed(e.cells);
    assert(b.delivered(turns).subset_of(b.in_flight())) by {
        assert forall|v: Box<T>| b.delivered(turns).count(v) <= b.in_flight().count(v) by {
            assert(b.in_flight().count(v) == e.in_flight().add(b.delivered(turns)).count(v));
        }
    }
    assert forall|i: int|
        0 <= i < e.len() && (#[trigger] e.cells[i]).state == ReceiverState::Armed implies e.delivers(
        i,
    ) by {
        lemma_armed_delivers(e, i);
    }
    if e.armed() == 0 {
        assert(e.in_flight() =~= Multiset::<Box<T>>::empty());
        assert(b.delivered(turns) =~= b.in_flight());
    }
    if s.quiet() {
        assert(s.in_flight() =~= Multiset::<Box<T>>::empty());
        assert(b.in_flight() =~= accepted);
    }
}

/// Credits cover armed receivers: while the producer lives, the credits in
/// the wake object and the credits pending are together as many as the
/// receivers that are armed, and as many as the payloads in slots.
pub proof fn lemma_credits_cover_armed<T>(s: Channel<T>)
    requires
        s.wf(),
        !s.orphaned,
    ensures
        s.credits + s.pending == s.armed(),
        s.armed() == s.in_flight().len(),
        s.pending <= s.armed(),
{
    lemma_held_armed(s.cells);
}

/// No duplication: over every run, each payload is returned at most as
/// often as it was in flight at the start or accepted on the way; and the
/// turn that returns a payload leaves the receiver busy with an empty slot.
pub proof fn lemma_no_duplication<T>(s: Channel<T>, ops: Seq<Op<T>>, v: Box<T>, i: int)
    requires
        s.wf(),
    ensures
        s.delivered(ops).count(v) <= s.in_flight().count(v) + s.accepted(ops).count(v),
        s.delivers(i) ==> s.recv(i).cells[i].slot is None && s.recv(i).cells[i].state
            == ReceiverState::Busy && !s.recv(i).delivers(i),
{
    lemma_conservation(s, ops);
    assert(s.in_flight().add(s.accepted(ops)).count(v) == s.in_flight().count(v) + s.accepted(
        ops,
    ).count(v));
}

/// Every step moves every receiver along the table of legal transitions,
/// or leaves it where it was.
pub proof fn lemma_step_legal<T>(s: Channel<T>, op: Op<T>, i: int)
    requires
        s.wf(),
        0 <= i < s.len(),
    ensures
        i < s.step(op).len(),
        s.cells[i].state.stays_or_becomes(s.step(op).cells[i].state),
{
    lemma_target(s);
}

/// An armed receiver keeps its state and its payload through every step
/// that is neither its own turn nor the producer's departure.
pub proof fn lemma_armed_stays<T>(s: Channel<T>, ops: Seq<Op<T>>, t: int)
    requires
        s.wf(),
        0 <= t < s.len(),
        s.cells[t].state == ReceiverState::Armed,
        leaves_alone(ops, t),
    ensures
        t < s.run(ops).len(),
        s.run(ops).cells[t] == s.cells[t],
        !s.run(ops).orphaned,
    decreases ops.len(),
{
    if ops.len() > 0 {
        let front = ops.drop_last();
        assert(leaves_alone(front, t));
        lemma_armed_stays(s, front, t);
        lemma_run_wf(s, front);
        let mid = s.run(front);
        let op = ops.last();
        assert(op != Op::<T>::Recv(t) && op != Op::<T>::Teardown);
        lemma_target(mid);
    } else {
        assert(s.cells[t].state != ReceiverState::Orphaned);
    }
}

/// No loss without refusal.
///
/// A payload that was accepted sits in the slot of the receiver that was
/// armed with it, whatever the producer and the other receivers do, until
/// that receiver takes its turn; and on its first turn after a flush that
/// receiver gets exactly this payload. Only the producer's departure can
/// come between.
pub proof fn lemma_no_loss<T>(s: Channel<T>, x: Box<T>, ops: Seq<Op<T>>)
    requires
        s.wf(),
        s.target() is Some,
        leaves_alone(ops, s.target()->0),
    ensures
        ({
            let t = s.target()->0;
            let e = s.enqueue(x).run(ops);
            &&& t < e.len()
            &&& e.cells[t].state == ReceiverState::Armed
            &&& e.cells[t].slot == Some(x)
            &&& e.wake_all().delivers(t)
            &&& e.wake_all().recv_step(t) == RecvStep::Done(Ok(x))
        }),
{
    let t = s.target()->0;
    lemma_target(s);
    lemma_enqueue_wf(s, x);
    let a = s.enqueue(x);
    lemma_armed_stays(a, ops, t);
    lemma_run_wf(a, ops);
    let e = a.run(ops);
    lemma_wake_all_wf(e);
    lemma_armed_delivers(e.wake_all(), t);
}

/// Orphan progress.
///
/// Once the producer has left, whatever steps follow, the wake object
/// stays readable, so that no receiver waits on it, and every turn of
/// every receiver ends the receive with `Orphaned`.
pub proof fn lemma_orphaned_forever<T>(s: Channel<T>, ops: Seq<Op<T>>)
    requires
        s.wf(),
    ensures
        ({
            let e = s.teardown().run(ops);
            &&& e.orphaned
            &&& e.credits >= 1
            &&& forall|i: int|
                0 <= i < e.len() ==> #[trigger] e.recv_step(i) == RecvStep::<T>::Done(
                    Err(RecvError::Orphaned),
                )
        }),
    decreases ops.len(),
{
    lemma_teardown_wf(s);
    lemma_run_wf(s.teardown(), ops);
    if ops.len() > 0 {
        lemma_orphaned_forever(s, ops.drop_last());
        lemma_run_wf(s.teardown(), ops.drop_last());
        lemma_target(s.teardown().run(ops.drop_last()));
    }
    let e = s.teardown().run(ops);
    assert forall|i: int| 0 <= i < e.len() implies #[trigger] e.recv_step(i) == RecvStep::<
        T,
    >::Done(Err(RecvError::Orphaned)) by {
        assert(e.cells[i].state == ReceiverState::Orphaned);
    }
}

} // verus!
