//! A single-producer, multi-consumer dispatch channel for bursts of
//! now-or-never work, as a deterministic engine.
//!
//! The producer offers payloads with `Sender::enqueue` and wakes the
//! receivers with `Sender::wake_all`; a receiver takes turns of
//! `Receiver::recv` until one ends the receive. A payload is accepted only
//! if a receiver is idle at that moment, and then goes to exactly that
//! receiver. Nothing here blocks or does I/O: a call tells its caller what
//! to write to the kernel's wake object, or to wait on it. Each call is one
//! atomic step, and the threads of a program take their steps in any order.
//!
//! Three choices are fixed here.
//!
//! * A receiver that wakes without being armed has consumed nothing. The
//!   wait on the wake object does not take a credit; a credit is taken
//!   exactly once, together with the payload.
//! * A receiver handle that is dropped leaves its cell in the ring. If the
//!   cell is idle the producer may still arm it, and the payload then stays
//!   in its slot.
//! * A flush with no credit pending yields the image of zero, whose write
//!   adds nothing.
//!
//! `model` holds the state machine, `laws` and `rotation` what is proved of
//! all its runs, `channel` the executable endpoints, `pool` a round-robin
//! pool of worker queues.
pub mod burst_chan;
pub mod channel;
pub mod laws;
pub mod model;
pub mod pool;
pub mod rotation;
pub mod slot;
pub mod state;
pub mod wake;

pub use burst_chan::RecError;
pub use channel::Receiver;
pub use channel::RecvError;
pub use channel::RecvStep;
pub use channel::Sender;
pub use pool::BurstPool;
pub use pool::Work;
pub use state::ReceiverState;
