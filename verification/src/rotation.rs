//! The rotation law: how often each receiver is picked.
use crate::laws::Op;
use crate::laws::lemma_run_wf;
use crate::model::Channel;
use crate::model::lemma_first_idle_is;
use crate::model::lemma_ring;
use crate::model::lemma_target;
use crate::model::ring;
use crate::state::ReceiverState;
use vstd::prelude::*;

verus! {

/// How many places receiver `r` stands after `cursor` in a ring of `n`.
pub open spec fn places_after(cursor: int, r: int, n: int) -> int {
    if r >= cursor {
        r - cursor
    } else {
        r - cursor + n
    }
}

/// Whether no step of `ops` makes a receiver.
pub open spec fn fixed_ring<T>(ops: Seq<Op<T>>) -> bool {
    forall|k: int| 0 <= k < ops.len() ==> !((#[trigger] ops[k]) is MkReceiver)
}

impl<T> Channel<T> {
    /// Every receiver is idle.
    pub open spec fn all_idle(self) -> bool {
        forall|i: int| 0 <= i < self.len() ==> (#[trigger] self.cells[i]).state == ReceiverState::Idle
    }

    /// How often the enqueues of a run picked receiver `r`.
    pub open spec fn tally(self, ops: Seq<Op<T>>, r: int) -> nat
        decreases ops.len(),
    {
        if ops.len() == 0 {
            0
        } else {
            let before = self.tally(ops.drop_last(), r);
            if ops.last() is Enqueue && self.run(ops.drop_last()).target() == Some(r) {
                before + 1
            } else {
                before
            }
        }
    }

    /// Whether each burst of a run, that is each unbroken row of enqueues,
    /// starts with every receiver idle.
    pub open spec fn idle_between_bursts(self, ops: Seq<Op<T>>) -> bool {
        forall|k: int|
            0 <= k < ops.len() && (#[trigger] ops[k]) is Enqueue && (k == 0 || !(ops[k - 1]
                is Enqueue)) ==> self.run(ops.take(k)).all_idle()
    }

    /// The first `m` receivers from the cursor on are idle and the rest of
    /// the ring is armed.
    pub open spec fn idle_ahead(self, m: int) -> bool {
        &&& 0 <= m <= self.len()
        &&& forall|k: int|
            0 <= k < self.len() ==> (#[trigger] self.cells[ring(
                self.cursor as int,
                k,
                self.len() as int,
            )]).state == if k < m {
                ReceiverState::Idle
            } else {
                ReceiverState::Armed
            }
    }
}

/// With every receiver idle, the enqueue picks the receiver at the cursor
/// and the cursor moves one place on.
pub proof fn lemma_idle_ring_picks_cursor<T>(s: Channel<T>, x: Box<T>)
    requires
        s.wf(),
        s.len() > 0,
        s.all_idle(),
    ensures
        s.target() == Some(s.cursor as int),
        s.enqueue(x).cursor == ring(s.cursor as int, 1, s.len() as int),
{
    lemma_ring(s.cursor as int, 0, s.len() as int);
    lemma_first_idle_is(s, 0);
}

/// One enqueue into a ring whose idle receivers stand in a row from the
/// cursor on: it picks the cursor's receiver when there is an idle one, and
/// the row is then one shorter, from the new cursor on.
proof fn lemma_enqueue_idle_ahead<T>(s: Channel<T>, x: Box<T>, m: int)
    requires
        s.wf(),
        s.len() > 0,
        s.idle_ahead(m),
    ensures
        m > 0 ==> s.target() == Some(s.cursor as int) && s.enqueue(x).idle_ahead(m - 1),
        m == 0 ==> s.target() is None && s.enqueue(x) == s,
{
    let n = s.len() as int;
    let c = s.cursor as int;
    lemma_target(s);
    lemma_ring(c, 0, n);
    if m > 0 {
        assert(s.cells[ring(c, 0, n)].state == ReceiverState::Idle);
        lemma_first_idle_is(s, 0);
        let e = s.enqueue(x);
        lemma_ring(c, 1, n);
        let c2 = e.cursor as int;
        assert forall|k: int| 0 <= k < n implies (#[trigger] e.cells[ring(c2, k, n)]).state == if k
            < m - 1 {
            ReceiverState::Idle
        } else {
            ReceiverState::Armed
        } by {
            lemma_ring(c2, k, n);
            if k < n - 1 {
                lemma_ring(c, k + 1, n);
                assert(ring(c2, k, n) == ring(c, k + 1, n));
                assert(s.cells[ring(c, k + 1, n)].state == if k + 1 < m {
                    ReceiverState::Idle
                } else {
                    ReceiverState::Armed
                });
            } else {
                assert(ring(c2, k, n) == c);
            }
        }
    } else {
        if s.target() is Some {
            let t = s.target()->0;
            let k = places_after(c, t, n);
            lemma_ring(c, k, n);
            assert(s.cells[ring(c, k, n)].state == ReceiverState::Armed);
        }
    }
}

/// One more pick of the receiver at the cursor `c`: if the tallies were
/// `q` laps and one more for the receivers that the cursor had passed,
/// they are so again with the cursor one place on.
proof fn lemma_tally_step(
    c0: int,
    c: int,
    n: int,
    q: nat,
    before: spec_fn(int) -> nat,
    after: spec_fn(int) -> nat,
) -> (q2: nat)
    requires
        0 <= c0 < n,
        0 <= c < n,
        forall|r: int|
            0 <= r < n ==> #[trigger] before(r) == q + if places_after(c0, r, n) < places_after(
                c0,
                c,
                n,
            ) {
                1nat
            } else {
                0nat
            },
        forall|r: int|
            0 <= r < n ==> #[trigger] after(r) == before(r) + if r == c {
                1nat
            } else {
                0nat
            },
    ensures
        forall|r: int|
            0 <= r < n ==> #[trigger] after(r) == q2 + if places_after(c0, r, n) < places_after(
                c0,
                ring(c, 1, n),
                n,
            ) {
                1nat
            } else {
                0nat
            },
{
    lemma_ring(c, 1, n);
    let c2 = ring(c, 1, n);
    let q2 = if c2 == c0 {
        q + 1
    } else {
        q
    };
    assert forall|r: int| 0 <= r < n implies #[trigger] after(r) == q2 + if places_after(c0, r, n)
        < places_after(c0, c2, n) {
        1nat
    } else {
        0nat
    } by {
        assert(before(r) == q + if places_after(c0, r, n) < places_after(c0, c, n) {
            1nat
        } else {
            0nat
        });
    }
    q2 as nat
}

/// Before an enqueue of a run in which every burst starts with all
/// receivers idle, the idle receivers stand in a row from the cursor on:
/// the whole ring at the start of a burst, and within a burst the row
/// `m` that the enqueue before left.
proof fn lemma_row<T>(s: Channel<T>, ops: Seq<Op<T>>, m: int) -> (row: int)
    requires
        s.wf(),
        s.len() > 0,
        ops.len() > 0,
        ops.last() is Enqueue,
        s.idle_between_bursts(ops),
        s.run(ops.drop_last()).len() == s.len(),
        s.run(ops.drop_last()).cursor < s.len(),
        ops.len() > 1 && ops[ops.len() - 2] is Enqueue ==> s.run(ops.drop_last()).idle_ahead(m),
    ensures
        s.run(ops.drop_last()).idle_ahead(row),
{
    let n = s.len() as int;
    let k = ops.len() - 1;
    let mid = s.run(ops.drop_last());
    if k == 0 || !(ops[k - 1] is Enqueue) {
        assert(ops.take(k) =~= ops.drop_last());
        assert(ops[k] is Enqueue);
        assert(mid.all_idle());
        assert forall|j: int| 0 <= j < n implies (#[trigger] mid.cells[ring(
            mid.cursor as int,
            j,
            n,
        )]).state == ReceiverState::Idle by {
            lemma_ring(mid.cursor as int, j, n);
        }
        n
    } else {
        m
    }
}

/// A shorter run of a run in which every burst starts with all receivers
/// idle is such a run too.
proof fn lemma_front<T>(s: Channel<T>, ops: Seq<Op<T>>)
    requires
        ops.len() > 0,
        fixed_ring(ops),
        s.idle_between_bursts(ops),
    ensures
        fixed_ring(ops.drop_last()),
        s.idle_between_bursts(ops.drop_last()),
{
    let front = ops.drop_last();
    assert forall|k: int| 0 <= k < front.len() implies !((#[trigger] front[k]) is MkReceiver) by {
        assert(front[k] == ops[k]);
    }
    assert forall|k: int|
        0 <= k < front.len() && (#[trigger] front[k]) is Enqueue && (k == 0 || !(front[k - 1]
            is Enqueue)) implies s.run(front.take(k)).all_idle() by {
        assert(front.take(k) =~= ops.take(k));
        assert(ops[k] is Enqueue);
    }
}

/// The tallies of a run in which every burst starts with all receivers
/// idle: some number of full laps of the ring, and one more for the
/// receivers that the cursor has passed in the lap under way. The second
/// result is the length of the row of idle receivers after a run that
/// ends with an enqueue.
proof fn lemma_laps<T>(s: Channel<T>, ops: Seq<Op<T>>) -> (qm: (nat, int))
    requires
        s.wf(),
        s.len() > 0,
        fixed_ring(ops),
        s.idle_between_bursts(ops),
    ensures
        s.run(ops).len() == s.len(),
        s.run(ops).cursor < s.len(),
        forall|r: int|
            0 <= r < s.len() ==> #[trigger] s.tally(ops, r) == qm.0 + if places_after(
                s.cursor as int,
                r,
                s.len() as int,
            ) < places_after(s.cursor as int, s.run(ops).cursor as int, s.len() as int) {
                1nat
            } else {
                0nat
            },
        ops.len() > 0 && ops.last() is Enqueue ==> s.run(ops).idle_ahead(qm.1),
    decreases ops.len(),
{
    let n = s.len() as int;
    let c0 = s.cursor as int;
    if ops.len() == 0 {
        (0, 0)
    } else {
        let front = ops.drop_last();
        let op = ops.last();
        lemma_front(s, ops);
        let (q, m) = lemma_laps(s, front);
        let mid = s.run(front);
        lemma_run_wf(s, front);
        assert(!(ops[ops.len() - 1] is MkReceiver));
        match op {
            Op::Enqueue(x) => {
                if ops.len() > 1 {
                    assert(front.last() == ops[ops.len() - 2]);
                }
                let row = lemma_row(s, ops, m);
                lemma_enqueue_idle_ahead(mid, x, row);
                if row > 0 {
                    let before = |r: int| s.tally(front, r);
                    let after = |r: int| s.tally(ops, r);
                    assert forall|r: int| 0 <= r < n implies #[trigger] after(r) == before(r)
                        + if r == mid.cursor as int {
                        1nat
                    } else {
                        0nat
                    } by {}
                    assert forall|r: int| 0 <= r < n implies #[trigger] before(r) == q
                        + if places_after(c0, r, n) < places_after(c0, mid.cursor as int, n) {
                        1nat
                    } else {
                        0nat
                    } by {
                        assert(before(r) == s.tally(front, r));
                    }
                    let q2 = lemma_tally_step(c0, mid.cursor as int, n, q, before, after);
                    assert forall|r: int| 0 <= r < n implies #[trigger] s.tally(ops, r) == q2
                        + if places_after(c0, r, n) < places_after(
                        c0,
                        s.run(ops).cursor as int,
                        n,
                    ) {
                        1nat
                    } else {
                        0nat
                    } by {
                        assert(after(r) == s.tally(ops, r));
                    }
                    lemma_ring(mid.cursor as int, 1, n);
                    (q2, row - 1)
                } else {
                    assert forall|r: int| 0 <= r < n implies #[trigger] s.tally(ops, r) == s.tally(
                        front,
                        r,
                    ) by {}
                    (q, 0)
                }
            },
            _ => {
                assert(s.run(ops).cursor == mid.cursor);
                assert(s.run(ops).len() == mid.len());
                assert forall|r: int| 0 <= r < n implies #[trigger] s.tally(ops, r) == s.tally(
                    front,
                    r,
                ) by {}
                (q, 0)
            },
        }
    }
}

/// Round-robin progress.
///
/// Take any run over a fixed ring of receivers in which each burst of
/// enqueues starts with every receiver idle. Then the numbers of payloads
/// that any two receivers were picked for differ by at most one.
pub proof fn lemma_round_robin<T>(s: Channel<T>, ops: Seq<Op<T>>, r1: int, r2: int)
    requires
        s.wf(),
        fixed_ring(ops),
        s.idle_between_bursts(ops),
        0 <= r1 < s.len(),
        0 <= r2 < s.len(),
    ensures
        s.tally(ops, r1) <= s.tally(ops, r2) + 1,
{
    let qm = lemma_laps(s, ops);
    assert(s.tally(ops, r1) <= qm.0 + 1);
    assert(s.tally(ops, r2) >= qm.0);
}

} // verus!
