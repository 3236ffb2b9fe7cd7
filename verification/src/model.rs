//! What a value looks like in the pipe, and what one system call leads to.
use vstd::prelude::*;

verus! {

/// The number of bytes that stand in the pipe for one value of a type of `size`
/// bytes.
pub open spec fn frame_len(size: nat) -> nat {
    if size > 0 {
        size
    } else {
        1
    }
}

/// The bytes that stand in the pipe for a value whose bytes in memory are `bytes`.
pub open spec fn frame_of(bytes: Seq<u8>) -> Seq<u8> {
    if bytes.len() > 0 {
        bytes
    } else {
        seq![0u8]
    }
}

/// The bytes in memory of the value of a type of `size` bytes for which `frame`
/// stands in the pipe.
pub open spec fn value_of(size: nat, frame: Seq<u8>) -> Seq<u8> {
    frame.take(size as int)
}

/// What a send has come to after a write.
pub enum SendNext {
    /// `sent` bytes of the frame are in the pipe, and there are more.
    More { sent: nat },
    /// The whole frame is in the pipe.
    Sent,
    /// There is no receiver.
    Closed,
    /// The write failed in a way that the channel does not provide for.
    Failed { error: nix::Error },
}

/// What a send of a frame of `len` bytes, of which `sent` are in the pipe, comes to
/// when the write of the rest returns `result`.
pub open spec fn send_next(len: nat, sent: nat, result: Result<usize, nix::Error>) -> SendNext {
    match result {
        Ok(count) => if sent + count < len {
            SendNext::More { sent: (sent + count) as nat }
        } else {
            SendNext::Sent
        },
        Err(error) => if error == nix::Error::Sys(nix::Errno::EPIPE) {
            SendNext::Closed
        } else {
            SendNext::Failed { error }
        },
    }
}

/// What a receive has come to after a read.
pub enum RecvNext {
    /// The bytes `got` of the frame have come, and there are more.
    More { got: Seq<u8> },
    /// The whole frame has come.
    Received { frame: Seq<u8> },
    /// There is no sender, and nothing is left in the pipe.
    Closed,
    /// The read failed in a way that the channel does not provide for.
    Failed { error: nix::Error },
}

/// What a receive of a frame of `len` bytes, of which `got` have come, comes to when
/// a read returns `result` and leaves `buf` in its buffer.
pub open spec fn recv_next(
    len: nat,
    got: Seq<u8>,
    result: Result<usize, nix::Error>,
    buf: Seq<u8>,
) -> RecvNext {
    match result {
        Ok(count) => if count == 0 {
            RecvNext::Closed
        } else if got.len() + count < len {
            RecvNext::More { got: got + buf.take(count as int) }
        } else {
            RecvNext::Received { frame: got + buf.take(count as int) }
        },
        Err(error) => RecvNext::Failed { error },
    }
}

} // verus!
