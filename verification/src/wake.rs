//! The counting wake object, and the bytes that carry credits to it.
//!
//! The kernel object behind a channel is a counter: a write of `n` adds `n`,
//! a read waits until the counter is positive and takes one. `WakeObject`
//! keeps that count in step with the engine; the kernel does the blocking.
use byteorder::ByteOrder;
use vstd::prelude::*;

verus! {

/// The largest count that the kernel object can hold.
pub const MAX_CREDITS: u64 = 0xffff_ffff_ffff_fffe;

/// The count of a wake object.
pub struct WakeObject {
    counter: u64,
}

impl View for WakeObject {
    type V = nat;

    closed spec fn view(&self) -> nat {
        self.counter as nat
    }
}

impl WakeObject {
    /// A wake object that holds no credit.
    pub fn new() -> (wake: WakeObject)
        ensures
            wake@ == 0,
    {
        WakeObject { counter: 0 }
    }

    /// The credits that are there to be read.
    pub fn credits(&self) -> (n: u64)
        ensures
            n == self@,
    {
        self.counter
    }

    /// Whether a wait on the object would return at once.
    pub fn readable(&self) -> (ready: bool)
        ensures
            ready <==> self@ > 0,
    {
        self.counter > 0
    }

    /// Add `n` credits. The sum must stay within what the object can hold.
    pub fn write(&mut self, n: u64)
        requires
            old(self)@ + n <= MAX_CREDITS,
        ensures
            final(self)@ == old(self)@ + n,
    {
        self.counter = self.counter + n;
    }

    /// Take one credit from a readable object. Returns what the kernel's
    /// read returns: the one credit taken.
    pub fn read(&mut self) -> (taken: u64)
        requires
            old(self)@ > 0,
        ensures
            taken == 1,
            final(self)@ == old(self)@ - 1,
    {
        self.counter = self.counter - 1;
        1
    }
}

/// The value of `n` read as an unsigned 64-bit number.
pub open spec fn unsigned(n: i64) -> nat {
    if n >= 0 {
        n as nat
    } else {
        (n + 0x1_0000_0000_0000_0000) as nat
    }
}

/// 256 to the power `i`.
pub open spec fn pow256(i: nat) -> nat
    decreases i,
{
    if i == 0 {
        1
    } else {
        256 * pow256((i - 1) as nat)
    }
}

/// Byte `i` of `n`, counted from the least significant.
pub open spec fn byte_of(n: i64, i: nat) -> u8 {
    ((unsigned(n) / pow256(i)) % 256) as u8
}

/// The eight bytes of `n`, least significant first.
pub open spec fn le_image(n: i64) -> Seq<u8> {
    Seq::new(8, |i: int| byte_of(n, i as nat))
}

/// The eight bytes of `n`, most significant first.
pub open spec fn be_image(n: i64) -> Seq<u8> {
    Seq::new(8, |i: int| byte_of(n, (7 - i) as nat))
}

/// The bytes of `n` in the order of the machine that runs the code: one of
/// the two orders, and nothing says which.
pub open spec fn is_native_image(bytes: Seq<u8>, n: i64) -> bool {
    bytes == le_image(n) || bytes == be_image(n)
}

/// Calls byteorder's `NativeEndian::write_i64` on a buffer of eight bytes.
///
/// Believed, not proved: the buffer then holds the two's-complement bytes
/// of `n`, least significant first on a little-endian machine and most
/// significant first on a big-endian one.
#[verifier::external_body]
pub(crate) fn write_native(n: i64) -> (buf: [u8; 8])
    ensures
        is_native_image(buf@, n),
{
    let mut buf = [0u8; 8];
    byteorder::NativeEndian::write_i64(&mut buf, n);
    buf
}

} // verus!
