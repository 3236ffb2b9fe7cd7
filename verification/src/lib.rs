//! Channel protocol over pipes.
//!
//! A channel carries values of one type from a [`Sender`] to a [`Receiver`]
//! through an OS-level pipe. A value travels as the bytes that it has in memory;
//! a value of a zero-sized type travels as a single zero byte. The pipe may take
//! and give these bytes in pieces of any size.
//!
//! This library makes every decision of the protocol and performs no I/O. A send
//! or a receive is an operation in progress, [`Sending`] or [`Receiving`]: it says
//! which file descriptor and which bytes the next system call is about, takes what
//! the call returned, and says whether to go on, to finish, or to give up.
//! Around it, a caller opens the pipe, makes the calls and closes the ends.
//!
//! Module [`model`] says what a frame is and what one system call leads to; module
//! [`laws`] proves what follows for a whole channel, and module [`system`] for several
//! channels side by side.
#![allow(unused_imports)]

pub mod channel;
mod inner;
pub mod laws;
pub mod model;
pub mod outside;
pub mod receiver;
pub mod sender;
pub mod system;
pub mod text;

pub use channel::{channel, pipe_flags};
pub use receiver::{item, IntoIter, Iter, Receiver, Receiving, RecvStep};
pub use sender::{SendStep, Sender, Sending};
