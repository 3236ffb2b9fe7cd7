//! The receiving half of a channel.
use core::marker::PhantomData;
use std::sync::mpsc::RecvError;
use vstd::layout::size_of;
use vstd::prelude::*;
use vstd::slice::slice_subrange;

use crate::inner::Inner;
use crate::model::{frame_len, recv_next, value_of, RecvNext};
use crate::text::{end_string, end_string_alternate, end_text, end_text_alternate, numeral_value};

verus! {

/// The receiving half of a channel.
pub struct Receiver<T>(Inner<T>);

impl<T> Receiver<T> {
    /// The file descriptor of the end of the pipe that is read from.
    pub closed spec fn fd(&self) -> i32 {
        self.0.fd
    }

    pub(crate) fn new(fd: i32) -> (receiver: Self)
        ensures
            receiver.fd() == fd,
    {
        Receiver(Inner::new(fd))
    }

    /// Begins to receive a value sent by the corresponding
    /// [`Sender`](crate::Sender).
    ///
    /// The receiver is borrowed until the receive is over, so that no frame is
    /// taken apart.
    pub fn recv(&mut self) -> (receiving: Receiving<'_, T>)
        ensures
            receiving.fd() == old(self).fd(),
            receiving.got() == Seq::<u8>::empty(),
            *final(self) == *old(self),
    {
        Receiving::new(self.0.fd)
    }

    /// An iterator over the values sent through the channel, which borrows the
    /// receiver.
    pub fn iter(&mut self) -> (iter: Iter<'_, T>)
        ensures
            iter.fd() == old(self).fd(),
            *final(self) == *old(self),
    {
        Iter { fd: self.0.fd, receiver: PhantomData }
    }

    /// An iterator over the values sent through the channel, which owns the
    /// receiver.
    pub fn into_iter(self) -> (iter: IntoIter<T>)
        ensures
            iter.receiver() == self,
    {
        IntoIter(self)
    }

    /// The file descriptor of the end of the pipe that is read from.
    pub fn as_raw_fd(&self) -> (fd: i32)
        ensures
            fd == self.fd(),
    {
        self.0.fd
    }

    /// The receiver as text, with its file descriptor: what `{:?}` prints of it.
    pub fn debug_string(&self) -> (text: String)
        ensures
            text@ == end_text("Receiver"@, self.fd() as int),
            exists|numeral: Seq<char>| #[trigger]
                numeral_value(numeral) == self.fd() && text@ == "Receiver"@ + " { fd: "@ + numeral
                    + " }"@,
    {
        end_string("Receiver", self.0.fd)
    }

    /// The receiver as text over several lines: what `{:#?}` prints of it.
    pub fn debug_string_alternate(&self) -> (text: String)
        ensures
            text@ == end_text_alternate("Receiver"@, self.fd() as int),
            exists|numeral: Seq<char>| #[trigger]
                numeral_value(numeral) == self.fd() && text@ == "Receiver"@ + " {\n    fd: "@ + numeral
                    + ",\n}"@,
    {
        end_string_alternate("Receiver", self.0.fd)
    }
}

/// A receive in progress.
pub struct Receiving<'a, T> {
    fd: i32,
    got: Vec<u8>,
    len: usize,
    receiver: PhantomData<&'a mut Receiver<T>>,
}

/// What to do next about a receive.
pub enum RecvStep<'a, T> {
    /// Read what is wanted.
    Read(Receiving<'a, T>),
    /// The receive is over, and this is its result: the bytes that the value has in
    /// memory, or an error if there is no sender.
    Done(Result<Vec<u8>, RecvError>),
    /// The read failed: panic.
    Fail(nix::Error),
}

impl<'a, T> Receiving<'a, T> {
    /// The file descriptor to read from.
    pub closed spec fn fd(&self) -> i32 {
        self.fd
    }

    /// The bytes of the frame that have come.
    pub closed spec fn got(&self) -> Seq<u8> {
        self.got@
    }

    #[verifier::type_invariant]
    spec fn wf(&self) -> bool {
        &&& self.len == frame_len(size_of::<T>())
        &&& self.got@.len() < self.len
    }

    fn new(fd: i32) -> (receiving: Self)
        ensures
            receiving.fd() == fd,
            receiving.got() == Seq::<u8>::empty(),
    {
        let size: usize = core::mem::size_of::<T>();
        let len: usize = if size > 0 {
            size
        } else {
            1
        };
        Receiving { fd, got: Vec::new(), len, receiver: PhantomData }
    }

    /// The file descriptor to read from.
    pub fn as_raw_fd(&self) -> (fd: i32)
        ensures
            fd == self.fd(),
    {
        self.fd
    }

    /// The number of bytes to read: those of the frame that have not come yet.
    pub fn wanted(&self) -> (count: usize)
        ensures
            count == frame_len(size_of::<T>()) - self.got().len(),
            size_of::<T>() > 0 ==> count == size_of::<T>() - self.got().len(),
            size_of::<T>() == 0 ==> count == 1,
            count > 0,
    {
        proof {
            use_type_invariant(self);
        }
        self.len - self.got.len()
    }

    /// Goes on after a read into `buf`, a buffer for as many bytes as are wanted,
    /// that returned `result`.
    pub fn step(self, result: Result<usize, nix::Error>, buf: &[u8]) -> (step: RecvStep<'a, T>)
        requires
            self.got().len() + buf@.len() == frame_len(size_of::<T>()),
            result matches Ok(count) ==> count <= buf@.len(),
        ensures
            match recv_next(frame_len(size_of::<T>()), self.got(), result, buf@) {
                RecvNext::More { got } => step matches RecvStep::Read(next) && next.fd()
                    == self.fd() && next.got() == got,
                RecvNext::Received { frame } => step matches RecvStep::Done(Ok(bytes)) && bytes@
                    == value_of(size_of::<T>(), frame),
                RecvNext::Closed => step == RecvStep::<'a, T>::Done(Err(RecvError)),
                RecvNext::Failed { error } => step == RecvStep::<'a, T>::Fail(error),
            },
            result == Ok::<usize, nix::Error>(0) ==> step == RecvStep::<'a, T>::Done(
                Err(RecvError),
            ),
            // A short read is kept behind what has come before.
            result matches Ok(count) ==> 0 < count < buf@.len() ==> (step matches RecvStep::Read(
                next,
            ) && next.got() == self.got() + buf@.take(count as int)),
            // The last read completes the bytes of the value.
            result matches Ok(count) ==> 0 < count == buf@.len() ==> (step matches RecvStep::Done(
                Ok(bytes),
            ) && bytes@.len() == size_of::<T>() && (size_of::<T>() > 0 ==> bytes@ == self.got()
                + buf@)),
            result matches Err(error) ==> step == RecvStep::<'a, T>::Fail(error),
    {
        proof {
            use_type_invariant(&self);
        }
        match result {
            Ok(0) => RecvStep::Done(Err(RecvError)),
            Ok(count) => {
                let len: usize = self.len;
                let mut got = self.got;
                got.extend_from_slice(slice_subrange(buf, 0, count));
                assert(got@ == self.got@ + buf@.take(count as int));
                if got.len() < len {
                    RecvStep::Read(Receiving { fd: self.fd, got, len, receiver: PhantomData })
                } else {
                    got.truncate(core::mem::size_of::<T>());
                    RecvStep::Done(Ok(got))
                }
            },
            Err(error) => RecvStep::Fail(error),
        }
    }
}

/// The item that an iterator yields when a receive ends with `result`: the bytes of
/// the value that was received, or none if there is no sender.
pub fn item(result: Result<Vec<u8>, RecvError>) -> (item: Option<Vec<u8>>)
    ensures
        item == (match result {
            Ok(bytes) => Some(bytes),
            Err(_) => None,
        }),
{
    result.ok()
}

/// Iterator over the values sent through the channel, which owns the receiver.
pub struct IntoIter<T>(Receiver<T>);

impl<T> IntoIter<T> {
    /// The receiver that the values come from.
    pub closed spec fn receiver(&self) -> Receiver<T> {
        self.0
    }

    /// Begins to receive the next item; [`item`] says what it is.
    pub fn next(&mut self) -> (receiving: Receiving<'_, T>)
        ensures
            receiving.fd() == old(self).receiver().fd(),
            receiving.got() == Seq::<u8>::empty(),
            final(self).receiver() == old(self).receiver(),
    {
        self.0.recv()
    }
}

/// Iterator over the values sent through the channel, which borrows the receiver.
///
/// See [`Receiver::iter`].
pub struct Iter<'a, T> {
    fd: i32,
    receiver: PhantomData<&'a mut Receiver<T>>,
}

impl<'a, T> Iter<'a, T> {
    /// The file descriptor of the receiver that the values come from.
    pub closed spec fn fd(&self) -> i32 {
        self.fd
    }

    /// Begins to receive the next item; [`item`] says what it is.
    pub fn next(&mut self) -> (receiving: Receiving<'_, T>)
        ensures
            receiving.fd() == old(self).fd(),
            receiving.got() == Seq::<u8>::empty(),
            *final(self) == *old(self),
    {
        Receiving::new(self.fd)
    }
}

} // verus!
