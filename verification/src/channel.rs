//! How a channel comes into being.
use vstd::prelude::*;

use crate::outside::{is_o_cloexec, o_cloexec, oflag_from_bits};
use crate::receiver::Receiver;
use crate::sender::Sender;

verus! {

/// The flags with which the pipe of a channel is opened: its ends are closed when
/// the process executes another program, and nothing else is set.
pub fn pipe_flags() -> (flags: i32)
    ensures
        forall|b: i32| is_o_cloexec(b) <==> b == flags,
{
    let bits = o_cloexec();
    oflag_from_bits(bits).unwrap()
}

/// Creates a channel over the pipe whose ends are `fds`, the end to read from
/// first, as `pipe2` returns them.
pub fn channel<T>(fds: (i32, i32)) -> (ends: (Sender<T>, Receiver<T>))
    ensures
        ends.0.fd() == fds.1,
        ends.1.fd() == fds.0,
{
    (Sender::new(fds.1), Receiver::new(fds.0))
}

} // verus!
