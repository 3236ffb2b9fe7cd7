//! What both ends of a channel are made of.
use core::marker::PhantomData;
use vstd::prelude::*;

verus! {

/// One end of a pipe that carries values of type `T`.
pub(crate) struct Inner<T> {
    pub(crate) fd: i32,
    pub(crate) p: PhantomData<T>,
}

impl<T> Inner<T> {
    /// The end with file descriptor `fd`.
    pub(crate) fn new(fd: i32) -> (inner: Self)
        ensures
            inner.fd == fd,
    {
        Inner { fd, p: PhantomData }
    }
}

} // verus!
