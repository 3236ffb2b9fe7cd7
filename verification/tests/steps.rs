//! The steps of a send and of a receive, without a pipe.
use std::sync::mpsc::{RecvError, SendError};

use nix::Errno::{EAGAIN, EINTR, EPIPE};
use nix::Error::{InvalidPath, Sys};
use pipe_channel::{channel, item, Receiver, Receiving, RecvStep, SendStep, Sender, Sending};

fn written<T>(step: SendStep<'_, T>) -> Sending<'_, T> {
    match step {
        SendStep::Write(sending) => sending,
        _ => panic!("the send is over"),
    }
}

fn read<T>(step: RecvStep<'_, T>) -> Receiving<'_, T> {
    match step {
        RecvStep::Read(receiving) => receiving,
        _ => panic!("the receive is over"),
    }
}

fn ends<T>() -> (Sender<T>, Receiver<T>) {
    channel((10, 11))
}

#[test]
fn channel_takes_the_ends_of_the_pipe() {
    let (tx, rx) = channel::<u8>((3, 4));
    assert_eq!(tx.as_raw_fd(), 4);
    assert_eq!(rx.as_raw_fd(), 3);
}

#[test]
fn ends_as_text() {
    let (tx, rx) = channel::<String>((0, 1234567890));
    assert_eq!(tx.debug_string(), "Sender { fd: 1234567890 }");
    assert_eq!(rx.debug_string(), "Receiver { fd: 0 }");
    let (tx, rx) = channel::<u8>((i32::MIN, -1));
    assert_eq!(tx.debug_string(), "Sender { fd: -1 }");
    assert_eq!(rx.debug_string(), "Receiver { fd: -2147483648 }");
    let (tx, rx) = channel::<u8>((i32::MAX, 10));
    assert_eq!(tx.debug_string(), "Sender { fd: 10 }");
    assert_eq!(rx.debug_string(), "Receiver { fd: 2147483647 }");
}

#[test]
fn ends_as_text_over_several_lines() {
    let (tx, rx) = channel::<i32>((-12, 7));
    assert_eq!(tx.debug_string(), "Sender { fd: 7 }");
    assert_eq!(tx.debug_string_alternate(), "Sender {\n    fd: 7,\n}");
    assert_eq!(rx.debug_string_alternate(), "Receiver {\n    fd: -12,\n}");
}

#[test]
fn send_goes_on_until_the_frame_is_written() {
    let (mut tx, _) = ends::<[u8; 5]>();
    let sending = tx.send([1, 2, 3, 4, 5], vec![1, 2, 3, 4, 5]);
    assert_eq!(sending.as_raw_fd(), 11);
    assert_eq!(sending.pending(), &[1, 2, 3, 4, 5]);
    let sending = written(sending.step(Ok(2)));
    assert_eq!(sending.as_raw_fd(), 11);
    assert_eq!(sending.pending(), &[3, 4, 5]);
    let sending = written(sending.step(Ok(0)));
    assert_eq!(sending.pending(), &[3, 4, 5]);
    let sending = written(sending.step(Ok(2)));
    assert_eq!(sending.pending(), &[5]);
    assert!(matches!(sending.step(Ok(1)), SendStep::Done(Ok(_))));
}

#[test]
fn send_of_a_zero_sized_value_writes_a_zero() {
    let (mut tx, _) = ends::<()>();
    let sending = tx.send((), vec![]);
    assert_eq!(sending.pending(), &[0]);
    let sending = written(sending.step(Ok(0)));
    assert_eq!(sending.pending(), &[0]);
    assert!(matches!(sending.step(Ok(1)), SendStep::Done(Ok(_))));
}

#[test]
fn send_is_over_when_more_is_written_than_was_pending() {
    let (mut tx, _) = ends::<u8>();
    assert!(matches!(tx.send(9, vec![9]).step(Ok(2)), SendStep::Done(Ok(_))));
    let step = tx.send(9, vec![9]).step(Ok(usize::MAX));
    match step {
        SendStep::Done(Ok(kept)) => assert_eq!(*kept, 9),
        _ => panic!("the send is not over"),
    }
}

#[test]
fn send_errs_only_on_broken_pipe() {
    let (mut tx, _) = ends::<u16>();
    let sending = tx.send(0x0101, vec![1, 1]);
    let sending = written(sending.step(Ok(1)));
    match sending.step(Err(Sys(EPIPE))) {
        SendStep::Done(result) => assert_eq!(result.map(|_| ()), Err(SendError(0x0101))),
        _ => panic!("the send is not over"),
    }
    for error in [Sys(EINTR), Sys(EAGAIN), InvalidPath] {
        match tx.send(7, vec![7, 7]).step(Err(error)) {
            SendStep::Fail { error: e, value } => {
                assert_eq!(e, error);
                assert_eq!(value, 7);
            }
            _ => panic!("the send did not fail"),
        }
    }
}

#[test]
fn recv_goes_on_until_the_frame_is_read() {
    let (_, mut rx) = ends::<[u8; 5]>();
    let receiving = rx.recv();
    assert_eq!(receiving.as_raw_fd(), 10);
    assert_eq!(receiving.wanted(), 5);
    let receiving = read(receiving.step(Ok(2), &[1, 2, 99, 99, 99]));
    assert_eq!(receiving.as_raw_fd(), 10);
    assert_eq!(receiving.wanted(), 3);
    let receiving = read(receiving.step(Ok(1), &[3, 99, 99]));
    assert_eq!(receiving.wanted(), 2);
    match receiving.step(Ok(2), &[4, 5]) {
        RecvStep::Done(result) => assert_eq!(result, Ok(vec![1, 2, 3, 4, 5])),
        _ => panic!("the receive is not over"),
    }
}

#[test]
fn recv_of_a_zero_sized_value_reads_one_byte() {
    let (_, mut rx) = ends::<()>();
    for byte in [0, 255] {
        let receiving = rx.recv();
        assert_eq!(receiving.wanted(), 1);
        match receiving.step(Ok(1), &[byte]) {
            RecvStep::Done(result) => assert_eq!(result, Ok(vec![])),
            _ => panic!("the receive is not over"),
        }
    }
}

#[test]
fn recv_errs_at_the_end_of_the_stream() {
    let (_, mut rx) = ends::<u16>();
    match rx.recv().step(Ok(0), &[1, 2]) {
        RecvStep::Done(result) => assert_eq!(result, Err(RecvError)),
        _ => panic!("the receive is not over"),
    }
    let receiving = read(rx.recv().step(Ok(1), &[1, 2]));
    match receiving.step(Ok(0), &[2]) {
        RecvStep::Done(result) => assert_eq!(result, Err(RecvError)),
        _ => panic!("the receive is not over"),
    }
}

#[test]
fn recv_fails_on_any_other_error() {
    let (_, mut rx) = ends::<u16>();
    for error in [Sys(EINTR), Sys(EPIPE), InvalidPath] {
        match rx.recv().step(Err(error), &[0, 0]) {
            RecvStep::Fail(e) => assert_eq!(e, error),
            _ => panic!("the receive did not fail"),
        }
    }
}

#[test]
fn iterators_end_on_an_error() {
    assert_eq!(item(Ok(vec![1, 2])), Some(vec![1, 2]));
    assert_eq!(item(Err(RecvError)), None);
    let (_, mut rx) = ends::<u32>();
    {
        let mut iter = rx.iter();
        assert_eq!(iter.next().as_raw_fd(), 10);
        assert_eq!(iter.next().wanted(), 4);
    }
    let mut iter = rx.into_iter();
    assert_eq!(iter.next().as_raw_fd(), 10);
    assert_eq!(iter.next().wanted(), 4);
}

/// Sends and receives over a queue of bytes, with writes of `put` bytes and reads of
/// `take` bytes at most.
fn relay(values: &[[u8; 3]], put: usize, take: usize) -> Vec<[u8; 3]> {
    let (mut tx, mut rx) = ends::<[u8; 3]>();
    let mut pipe: Vec<u8> = Vec::new();
    for value in values {
        let mut sending = tx.send(*value, value.to_vec());
        loop {
            let count = sending.pending().len().min(put);
            pipe.extend_from_slice(&sending.pending()[..count]);
            match sending.step(Ok(count)) {
                SendStep::Write(next) => sending = next,
                SendStep::Done(result) => {
                    assert_eq!(*result.unwrap(), *value);
                    break;
                }
                SendStep::Fail { .. } => panic!("the send failed"),
            }
        }
    }
    let mut received = Vec::new();
    let mut receiving = rx.recv();
    loop {
        let mut buf = vec![0u8; receiving.wanted()];
        let count = buf.len().min(take).min(pipe.len());
        for (i, byte) in pipe.drain(..count).enumerate() {
            buf[i] = byte;
        }
        match receiving.step(Ok(count), &buf) {
            RecvStep::Read(next) => receiving = next,
            RecvStep::Done(Ok(bytes)) => {
                received.push([bytes[0], bytes[1], bytes[2]]);
                receiving = rx.recv();
            }
            RecvStep::Done(Err(RecvError)) => return received,
            RecvStep::Fail(_) => panic!("the receive failed"),
        }
    }
}

#[test]
fn splits_do_not_matter() {
    let values = [[1, 2, 3], [4, 5, 6], [0, 0, 0], [7, 8, 9]];
    for put in 1..5 {
        for take in 1..5 {
            assert_eq!(relay(&values, put, take), values.to_vec());
        }
    }
    assert_eq!(relay(&[], 1, 1), Vec::<[u8; 3]>::new());
}
