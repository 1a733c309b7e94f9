use vstd::prelude::*;

verus! {

/// The largest payload that one datagram can carry.
pub const BUF_SIZE: usize = 65536;

/// The length of the correlation token that every request carries.
pub const UUID_LEN: usize = 16;

/// An opaque byte string: a key, a value or a whole datagram.
pub type Bytes = Vec<u8>;

/// A correlation token, echoed in the reply to the request that carried it.
pub type UUID = Vec<u8>;

/// One datagram as it came off the socket.
///
/// `body` is the buffer it was received into and `amt` the number of bytes of
/// it that the datagram filled; `dest` is where the datagram came from, and so
/// where its reply goes.
pub struct Packet<A> {
    pub dest: A,
    pub body: Bytes,
    pub amt: usize,
}

/// A fresh copy of the bytes of `b` from `start` up to `end`.
pub(crate) fn sub_bytes(b: &[u8], start: usize, end: usize) -> (r: Bytes)
    requires
        start <= end <= b@.len(),
    ensures
        r@ == b@.subrange(start as int, end as int),
{
    let mut r: Bytes = Vec::new();
    let mut i: usize = start;
    while i < end
        invariant
            start <= i <= end <= b@.len(),
            r@ == b@.subrange(start as int, i as int),
        decreases end - i,
    {
        r.push(b[i]);
        i = i + 1;
    }
    r
}

} // verus!
