//! What the library takes from `nix`, `libc` and the standard library on trust.
use vstd::prelude::*;

verus! {

/// `std::sync::mpsc::SendError`, a tuple struct whose one public field is the
/// value that was not sent.
#[verifier::external_type_specification]
pub struct ExSendError<T>(std::sync::mpsc::SendError<T>);

/// `std::sync::mpsc::RecvError`, a struct without fields.
#[verifier::external_type_specification]
pub struct ExRecvError(std::sync::mpsc::RecvError);

/// `nix::Error`, the error of every system call that `nix` makes: a public enum
/// whose variant `Sys` holds the error number.
#[verifier::external_type_specification]
pub struct ExError(nix::Error);

/// `nix::Errno`, a public enum with one variant for each error number.
#[verifier::external_type_specification]
pub struct ExErrno(nix::Errno);

/// Whether `bits` is the value that `libc` gives to `O_CLOEXEC` on the target.
pub uninterp spec fn is_o_cloexec(bits: i32) -> bool;

/// Whether `nix::fcntl::OFlag::from_bits` accepts `bits`, that is, whether each bit
/// of it belongs to a flag that `OFlag` defines on the target.
pub uninterp spec fn is_oflag(bits: i32) -> bool;

/// Reads the constant `libc::O_CLOEXEC`. Its value differs between targets, so the
/// contract gives it a name and no number.
#[verifier::external_body]
pub(crate) fn o_cloexec() -> (bits: i32)
    ensures
        forall|b: i32| is_o_cloexec(b) <==> b == bits,
{
    libc::O_CLOEXEC
}

/// Calls `nix::fcntl::OFlag::from_bits`, and hands out the bits of the flags that it
/// returned. The call keeps the bits as they are, or returns nothing if one of
/// them belongs to no flag; `O_CLOEXEC` is a flag of `OFlag` on every target.
#[verifier::external_body]
pub(crate) fn oflag_from_bits(bits: i32) -> (flags: Option<i32>)
    ensures
        flags == (if is_oflag(bits) { Some(bits) } else { None }),
        is_o_cloexec(bits) ==> flags is Some,
{
    nix::fcntl::OFlag::from_bits(bits).map(|flags| flags.bits())
}

} // verus!
