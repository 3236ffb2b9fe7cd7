//! The sending half of a channel.
use core::marker::PhantomData;
use core::mem::ManuallyDrop;
use std::sync::mpsc::SendError;
use vstd::layout::size_of;
use vstd::prelude::*;
use vstd::slice::slice_subrange;

use crate::inner::Inner;
use crate::model::{frame_len, frame_of, send_next, SendNext};
use crate::text::{end_string, end_string_alternate, end_text, end_text_alternate, numeral_value};

verus! {

/// The sending half of a channel.
pub struct Sender<T>(Inner<T>);

impl<T> Sender<T> {
    /// The file descriptor of the end of the pipe that is written to.
    pub closed spec fn fd(&self) -> i32 {
        self.0.fd
    }

    pub(crate) fn new(fd: i32) -> (sender: Self)
        ensures
            sender.fd() == fd,
    {
        Sender(Inner::new(fd))
    }

    /// Begins to send `t` to the corresponding [`Receiver`](crate::Receiver). The
    /// bytes that `t` has in memory are `bytes`.
    ///
    /// The sender is borrowed until the send is over, so that the frames of two
    /// values are never mixed.
    pub fn send(&mut self, t: T, bytes: Vec<u8>) -> (sending: Sending<'_, T>)
        requires
            bytes@.len() == size_of::<T>(),
        ensures
            sending.fd() == old(self).fd(),
            sending.value() == t,
            sending.frame() == frame_of(bytes@),
            bytes@.len() > 0 ==> sending.frame() == bytes@,
            bytes@.len() == 0 ==> sending.frame() == seq![0u8],
            sending.sent() == 0,
            *final(self) == *old(self),
    {
        let frame = if bytes.len() > 0 {
            bytes
        } else {
            vec![0u8]
        };
        assert(frame@ == frame_of(bytes@));
        Sending { fd: self.0.fd, value: Box::new(t), frame, sent: 0, sender: PhantomData }
    }

    /// The file descriptor of the end of the pipe that is written to.
    pub fn as_raw_fd(&self) -> (fd: i32)
        ensures
            fd == self.fd(),
    {
        self.0.fd
    }

    /// The sender as text, with its file descriptor: what `{:?}` prints of it.
    pub fn debug_string(&self) -> (text: String)
        ensures
            text@ == end_text("Sender"@, self.fd() as int),
            exists|numeral: Seq<char>| #[trigger]
                numeral_value(numeral) == self.fd() && text@ == "Sender"@ + " { fd: "@ + numeral
                    + " }"@,
    {
        end_string("Sender", self.0.fd)
    }

    /// The sender as text over several lines: what `{:#?}` prints of it.
    pub fn debug_string_alternate(&self) -> (text: String)
        ensures
            text@ == end_text_alternate("Sender"@, self.fd() as int),
            exists|numeral: Seq<char>| #[trigger]
                numeral_value(numeral) == self.fd() && text@ == "Sender"@ + " {\n    fd: "@ + numeral
                    + ",\n}"@,
    {
        end_string_alternate("Sender", self.0.fd)
    }
}

/// A send in progress.
///
/// The value stands on the heap, so that a step moves a pointer, however large the
/// value is.
pub struct Sending<'a, T> {
    fd: i32,
    value: Box<T>,
    frame: Vec<u8>,
    sent: usize,
    sender: PhantomData<&'a mut Sender<T>>,
}

/// What to do next about a send.
pub enum SendStep<'a, T> {
    /// Write what is pending.
    Write(Sending<'a, T>),
    /// The send is over, and this is its result. After a success the value belongs to
    /// whoever receives it: what is left of it here is not to be dropped.
    Done(Result<ManuallyDrop<T>, SendError<T>>),
    /// The write failed for another reason than that the receiver is gone: panic. The
    /// value goes with it.
    Fail { error: nix::Error, value: T },
}

impl<'a, T> Sending<'a, T> {
    /// The file descriptor to write to.
    pub closed spec fn fd(&self) -> i32 {
        self.fd
    }

    /// The value that is sent.
    pub closed spec fn value(&self) -> T {
        *self.value
    }

    /// The bytes that stand for the value in the pipe.
    pub closed spec fn frame(&self) -> Seq<u8> {
        self.frame@
    }

    /// The number of bytes of the frame that are in the pipe.
    pub closed spec fn sent(&self) -> nat {
        self.sent as nat
    }

    #[verifier::type_invariant]
    spec fn wf(&self) -> bool {
        &&& self.frame@.len() == frame_len(size_of::<T>())
        &&& self.sent < self.frame@.len()
    }

    /// The file descriptor to write to.
    pub fn as_raw_fd(&self) -> (fd: i32)
        ensures
            fd == self.fd(),
    {
        self.fd
    }

    /// The bytes to write: those of the frame that are not in the pipe yet.
    pub fn pending(&self) -> (bytes: &[u8])
        ensures
            bytes@ == self.frame().skip(self.sent() as int),
            bytes@.len() == self.frame().len() - self.sent(),
            bytes@.len() > 0,
            self.frame().len() == frame_len(size_of::<T>()),
            size_of::<T>() > 0 ==> bytes@.len() == size_of::<T>() - self.sent(),
            size_of::<T>() == 0 ==> bytes@.len() == 1,
    {
        proof {
            use_type_invariant(self);
        }
        slice_subrange(self.frame.as_slice(), self.sent, self.frame.len())
    }

    /// Goes on after a write of the pending bytes that returned `result`.
    ///
    /// Once the whole frame is in the pipe, the value is kept from being dropped. If
    /// there is no receiver, the value is handed back.
    pub fn step(self, result: Result<usize, nix::Error>) -> (step: SendStep<'a, T>)
        ensures
            match send_next(self.frame().len(), self.sent(), result) {
                SendNext::More { sent } => step matches SendStep::Write(next) && next.fd()
                    == self.fd() && next.value() == self.value() && next.frame() == self.frame()
                    && next.sent() == sent,
                SendNext::Sent => step matches SendStep::Done(Ok(kept)) && kept@ == self.value(),
                SendNext::Closed => step == SendStep::<'a, T>::Done(Err(SendError(self.value()))),
                SendNext::Failed { error } => step matches SendStep::Fail { error: e, value } && e
                    == error && value == self.value(),
            },
            // A short write takes its bytes off the front of what is pending.
            result matches Ok(count) ==> count < self.frame().len() - self.sent() ==> (
            step matches SendStep::Write(next) && next.frame().skip(next.sent() as int)
                == self.frame().skip(self.sent() as int).skip(count as int)),
            result matches Ok(count) ==> count >= self.frame().len() - self.sent() ==> (
            step matches SendStep::Done(Ok(kept)) && kept@ == self.value()),
            // `EPIPE` hands the value back; any other error is reported as it is.
            result matches Err(error) ==> if error == nix::Error::Sys(nix::Errno::EPIPE) {
                step matches SendStep::Done(Err(e)) && e.0 == self.value()
            } else {
                step matches SendStep::Fail { error: e, value } && e == error && value
                    == self.value()
            },
    {
        proof {
            use_type_invariant(&self);
        }
        match result {
            Ok(count) => {
                if count < self.frame.len() - self.sent {
                    SendStep::Write(
                        Sending {
                            fd: self.fd,
                            value: self.value,
                            frame: self.frame,
                            sent: self.sent + count,
                            sender: PhantomData,
                        },
                    )
                } else {
                    SendStep::Done(Ok(ManuallyDrop::new(*self.value)))
                }
            },
            Err(nix::Error::Sys(nix::Errno::EPIPE)) => SendStep::Done(Err(SendError(*self.value))),
            Err(error) => SendStep::Fail { error, value: *self.value },
        }
    }
}

} // verus!
