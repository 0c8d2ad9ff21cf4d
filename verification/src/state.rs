//! The per-receiver state machine.
//!
//! Each receiver owns one state word. The producer and the receiver change
//! it in turns, and the word decides who may touch the receiver's slot.
use vstd::prelude::*;

verus! {

/// Where one receiver stands in the hand-off protocol.
#[derive(Clone, Copy, Debug, PartialEq, Eq, Structural)]
pub enum ReceiverState {
    /// Running user code, or not yet waiting. The slot is empty.
    Busy,
    /// Waiting for work. The slot is empty and the producer may pick this receiver.
    Idle,
    /// A payload sits in the slot and a wake-up credit is promised.
    Armed,
    /// The producer is gone. Terminal.
    Orphaned,
}

/// What a receiver finds when it looks at its state after a wake-up.
#[derive(Clone, Copy, Debug, PartialEq, Eq, Structural)]
pub enum Claim {
    /// The receiver was armed: the payload in its slot is its own.
    Mine,
    /// The receiver was still idle: the wake-up was meant for another receiver.
    NotMine,
    /// The producer is gone.
    Orphaned,
}

impl ReceiverState {
    /// The legal transitions: a receiver starts to wait, the producer arms
    /// it, the receiver claims, and from every live state the producer's
    /// departure leads to `Orphaned`.
    pub open spec fn may_become(self, next: ReceiverState) -> bool {
        match (self, next) {
            (ReceiverState::Busy, ReceiverState::Idle) => true,
            (ReceiverState::Idle, ReceiverState::Armed) => true,
            (ReceiverState::Armed, ReceiverState::Busy) => true,
            (ReceiverState::Busy, ReceiverState::Orphaned) => true,
            (ReceiverState::Idle, ReceiverState::Orphaned) => true,
            (ReceiverState::Armed, ReceiverState::Orphaned) => true,
            _ => false,
        }
    }

    /// A call either leaves the state alone or makes one legal transition.
    pub open spec fn stays_or_becomes(self, next: ReceiverState) -> bool {
        self == next || self.may_become(next)
    }

    /// Producer side: arm the receiver if, and only if, it is idle.
    /// Any other state only means "not now, try the next receiver".
    pub fn try_arm(&mut self) -> (armed: bool)
        ensures
            armed <==> *old(self) == ReceiverState::Idle,
            armed ==> *final(self) == ReceiverState::Armed,
            !armed ==> *final(self) == *old(self),
            old(self).stays_or_becomes(*final(self)),
    {
        match *self {
            ReceiverState::Idle => {
                *self = ReceiverState::Armed;
                true
            },
            _ => false,
        }
    }

    /// Receiver side, on entering a receive: go from `Busy` to `Idle`.
    /// Returns `false`, and changes nothing, when the producer is gone.
    /// A receiver enters a receive only while busy or orphaned.
    pub fn begin_wait(&mut self) -> (waiting: bool)
        requires
            *old(self) == ReceiverState::Busy || *old(self) == ReceiverState::Orphaned,
        ensures
            waiting <==> *old(self) == ReceiverState::Busy,
            waiting ==> *final(self) == ReceiverState::Idle,
            !waiting ==> *final(self) == ReceiverState::Orphaned,
            old(self).stays_or_becomes(*final(self)),
    {
        match *self {
            ReceiverState::Busy => {
                *self = ReceiverState::Idle;
                true
            },
            _ => false,
        }
    }

    /// Receiver side, after a wake-up: go from `Armed` to `Busy` and report
    /// what was found. Only a waiting receiver claims, so the state is not
    /// `Busy` on entry.
    pub fn try_claim(&mut self) -> (found: Claim)
        requires
            *old(self) != ReceiverState::Busy,
        ensures
            found == Claim::Mine <==> *old(self) == ReceiverState::Armed,
            found == Claim::NotMine <==> *old(self) == ReceiverState::Idle,
            found == Claim::Orphaned <==> *old(self) == ReceiverState::Orphaned,
            found == Claim::Mine ==> *final(self) == ReceiverState::Busy,
            found != Claim::Mine ==> *final(self) == *old(self),
            old(self).stays_or_becomes(*final(self)),
    {
        match *self {
            ReceiverState::Armed => {
                *self = ReceiverState::Busy;
                Claim::Mine
            },
            ReceiverState::Idle => Claim::NotMine,
            _ => Claim::Orphaned,
        }
    }

    /// Producer side, on its departure: store `Orphaned`, whatever was there.
    pub fn orphan(&mut self)
        ensures
            *final(self) == ReceiverState::Orphaned,
            old(self).stays_or_becomes(*final(self)),
    {
        *self = ReceiverState::Orphaned;
    }
}

} // verus!
