# pipe_channel

Channels over OS-level pipes, with the protocol verified in Verus.

A value is sent as the bytes that it has in memory, a value of a zero-sized type as
one zero byte. The kernel may take and give these bytes in pieces; the library in
`src/` decides what to write or read next, when a send or a receive is over and with
which result. It makes no system call itself.

- `src/model.rs`: what stands in the pipe for a value, and what one system call leads to.
- `src/sender.rs`, `src/receiver.rs`: the two ends, and the operations in progress.
- `src/channel.rs`: the flags of the pipe, and which end is which.
- `src/laws.rs`: what holds of a whole channel: values arrive whole and in order, the
  receiver ends after the last one, a value that cannot be sent comes back.
- `src/system.rs`: what holds of several channels: each is as if it were alone.
- `src/outside.rs`: what is taken from `nix`, `libc` and the standard library on trust.
- `app/`: the channel as a program uses it, with the system calls, the memory of the
  values and the traits of the standard library.

`Sender::send` fails with an error only on `EPIPE`. In a process that does not ignore
`SIGPIPE`, writing to a pipe without a reader raises that signal first.
