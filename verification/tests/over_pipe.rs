//! The channel over a real pipe.
use std::cell::Cell;
use std::rc::Rc;
use std::sync::mpsc::{RecvError, SendError};

use pipe_channel::{
    channel, item, pipe_flags, IntoIter, Iter, Receiver, Receiving, RecvStep, SendStep, Sender,
};

fn open<T>() -> (Sender<T>, Receiver<T>) {
    let flags = nix::fcntl::OFlag::from_bits(pipe_flags()).unwrap();
    channel(nix::unistd::pipe2(flags).unwrap())
}

fn close_sender<T>(tx: Sender<T>) {
    nix::unistd::close(tx.as_raw_fd()).unwrap();
}

fn close_receiver<T>(rx: Receiver<T>) {
    nix::unistd::close(rx.as_raw_fd()).unwrap();
}

fn send<T>(tx: &mut Sender<T>, t: T, bytes: Vec<u8>) -> Result<(), SendError<T>> {
    let mut sending = tx.send(t, bytes);
    loop {
        let result = nix::unistd::write(sending.as_raw_fd(), sending.pending());
        match sending.step(result) {
            SendStep::Write(next) => sending = next,
            SendStep::Done(Ok(_kept)) => return Ok(()),
            SendStep::Done(Err(error)) => return Err(error),
            SendStep::Fail { error, .. } => panic!("{:?}", error),
        }
    }
}

fn run<T>(mut receiving: Receiving<T>) -> Result<Vec<u8>, RecvError> {
    loop {
        let mut buf = vec![0u8; receiving.wanted()];
        let result = nix::unistd::read(receiving.as_raw_fd(), &mut buf);
        match receiving.step(result, &buf) {
            RecvStep::Read(next) => receiving = next,
            RecvStep::Done(result) => return result,
            RecvStep::Fail(error) => panic!("{:?}", error),
        }
    }
}

fn recv<T>(rx: &mut Receiver<T>) -> Result<Vec<u8>, RecvError> {
    run(rx.recv())
}

fn send_i32(tx: &mut Sender<i32>, value: i32) -> Result<(), SendError<i32>> {
    send(tx, value, value.to_ne_bytes().to_vec())
}

fn as_i32(bytes: Vec<u8>) -> i32 {
    assert_eq!(bytes.len(), 4);
    i32::from_ne_bytes([bytes[0], bytes[1], bytes[2], bytes[3]])
}

fn recv_i32(rx: &mut Receiver<i32>) -> Result<i32, RecvError> {
    recv(rx).map(as_i32)
}

fn next_borrowed(iter: &mut Iter<i32>) -> Option<i32> {
    item(run(iter.next())).map(as_i32)
}

fn next_owned(iter: &mut IntoIter<i32>) -> Option<i32> {
    item(run(iter.next())).map(as_i32)
}

fn as_unit(bytes: Vec<u8>) {
    assert_eq!(bytes.len(), 0);
}

#[test]
fn zero_sized_type() {
    let (mut tx, mut rx) = open();
    send(&mut tx, (), vec![]).unwrap();
    assert_eq!(as_unit(recv(&mut rx).unwrap()), ());
}

#[test]
fn zero_sized_type_drop() {
    let (tx, mut rx) = open::<()>();
    close_sender(tx);
    assert_eq!(recv(&mut rx), Err(RecvError));
}

#[test]
fn debug_print() {
    let (tx, _) = open::<i32>();
    let s1 = format!("Sender {{ fd: {:?} }}", tx.as_raw_fd());
    let s2 = tx.debug_string();
    assert_eq!(s1, s2);
}

struct Large([usize; 4096]);

impl Large {
    fn new() -> Large {
        let mut res = [0; 4096];
        for i in 0..(res.len()) {
            res[i] = i * i;
        }
        Large(res)
    }

    fn to_bytes(&self) -> Vec<u8> {
        let mut bytes = Vec::new();
        for i in 0..(self.0.len()) {
            bytes.extend_from_slice(&self.0[i].to_ne_bytes());
        }
        bytes
    }

    fn from_bytes(bytes: Vec<u8>) -> Large {
        let mut res = [0; 4096];
        for (i, word) in bytes.chunks(bytes.len() / 4096).enumerate() {
            let mut w = 0usize.to_ne_bytes();
            w.copy_from_slice(word);
            res[i] = usize::from_ne_bytes(w);
        }
        Large(res)
    }
}

#[test]
fn large_data() {
    let (mut tx, mut rx) = open();
    let large = Large::new();
    let bytes = large.to_bytes();
    send(&mut tx, large, bytes).map_err(|_| ()).unwrap();
    let res = Large::from_bytes(recv(&mut rx).unwrap());

    let expected = Large::new();
    for i in 0..(res.0.len()) {
        assert_eq!(res.0[i], expected.0[i]);
    }
}

#[test]
fn no_send_no_threading() {
    let rc = Rc::new(1024);
    let weak = Rc::downgrade(&rc);
    let address = Rc::as_ptr(&rc) as usize;
    let (mut tx, mut rx) = open();

    send(&mut tx, rc, address.to_ne_bytes().to_vec()).unwrap();
    let bytes = recv(&mut rx).unwrap();
    assert_eq!(bytes, address.to_ne_bytes().to_vec());
    let res = weak.upgrade().unwrap();
    assert_eq!(Rc::as_ptr(&res) as usize, address);
    assert_eq!(*res, 1024);
}

#[test]
fn values_arrive_in_order() {
    let (mut tx, mut rx) = open();
    send_i32(&mut tx, 35).unwrap();
    send_i32(&mut tx, 42).unwrap();
    assert_eq!(recv_i32(&mut rx).unwrap(), 35);
    assert_eq!(recv_i32(&mut rx).unwrap(), 42);
}

#[test]
fn send_without_receiver_returns_value() {
    let (mut tx, rx) = open();
    close_receiver(rx);
    assert_eq!(send_i32(&mut tx, 42), Err(SendError(42)));
    assert_eq!(send_i32(&mut tx, 43), Err(SendError(43)));
}

#[test]
fn recv_without_sender_is_an_error() {
    let (tx, mut rx) = open::<i32>();
    close_sender(tx);
    assert_eq!(recv_i32(&mut rx), Err(RecvError));
    assert_eq!(recv_i32(&mut rx), Err(RecvError));
}

#[test]
fn values_outlive_the_sender() {
    let (mut tx, mut rx) = open();
    send_i32(&mut tx, -1).unwrap();
    send_i32(&mut tx, i32::MIN).unwrap();
    close_sender(tx);
    assert_eq!(recv_i32(&mut rx), Ok(-1));
    assert_eq!(recv_i32(&mut rx), Ok(i32::MIN));
    assert_eq!(recv_i32(&mut rx), Err(RecvError));
}

#[test]
fn iterators_yield_the_rest() {
    let (mut tx, mut rx) = open();
    for i in 0..1024 {
        send_i32(&mut tx, i).unwrap();
    }
    close_sender(tx);

    let mut iter = rx.iter();
    for j in 0..10 {
        assert_eq!(next_borrowed(&mut iter), Some(j));
    }
    let mut iter = rx.into_iter();
    let mut v1 = Vec::new();
    while let Some(i) = next_owned(&mut iter) {
        v1.push(i);
    }
    let v2: Vec<i32> = (10..1024).collect();
    assert_eq!(v1, v2);
    assert_eq!(next_owned(&mut iter), None);
}

#[test]
fn zero_sized_values_are_counted() {
    let (mut tx, mut rx) = open::<()>();
    for _ in 0..3 {
        send(&mut tx, (), vec![]).unwrap();
    }
    close_sender(tx);
    for _ in 0..3 {
        assert_eq!(recv(&mut rx), Ok(vec![]));
    }
    assert_eq!(recv(&mut rx), Err(RecvError));
}

#[test]
fn pipe_is_closed_on_exec() {
    assert_eq!(pipe_flags(), libc::O_CLOEXEC);
    let (tx, rx) = open::<u8>();
    for fd in [tx.as_raw_fd(), rx.as_raw_fd()] {
        let flags = nix::fcntl::fcntl(fd, nix::fcntl::FcntlArg::F_GETFD).unwrap();
        assert_eq!(flags, libc::FD_CLOEXEC);
    }
}

#[test]
fn system_call_on_a_closed_end_fails() {
    let (mut tx, mut rx) = channel::<u8>((-1, -1));
    let sending = tx.send(1, vec![1]);
    let result = nix::unistd::write(sending.as_raw_fd(), sending.pending());
    assert!(matches!(
        sending.step(result),
        SendStep::Fail {
            error: nix::Error::Sys(nix::Errno::EBADF),
            value: 1
        }
    ));
    let receiving = rx.recv();
    let mut buf = vec![0u8; receiving.wanted()];
    let result = nix::unistd::read(receiving.as_raw_fd(), &mut buf);
    assert!(matches!(
        receiving.step(result, &buf),
        RecvStep::Fail(nix::Error::Sys(nix::Errno::EBADF))
    ));
}

struct Counted(Rc<Cell<i32>>);

impl Drop for Counted {
    fn drop(&mut self) {
        self.0.set(self.0.get() + 1);
    }
}

#[test]
fn value_is_in_one_place() {
    let drops = Rc::new(Cell::new(0));
    let bytes = vec![7u8; std::mem::size_of::<Counted>()];

    let (mut tx, mut rx) = open();
    send(&mut tx, Counted(drops.clone()), bytes.clone()).map_err(|_| ()).unwrap();
    assert_eq!(drops.get(), 0);
    assert_eq!(recv(&mut rx), Ok(bytes.clone()));
    assert_eq!(drops.get(), 0);

    close_receiver(rx);
    let back = send(&mut tx, Counted(drops.clone()), bytes.clone());
    assert_eq!(drops.get(), 0);
    drop(back);
    assert_eq!(drops.get(), 1);

    let (mut tx, _) = channel((-1, -1));
    let sending = tx.send(Counted(drops.clone()), bytes);
    let step = sending.step(Err(nix::Error::Sys(nix::Errno::EBADF)));
    assert_eq!(drops.get(), 1);
    assert!(matches!(&step, SendStep::Fail { .. }));
    drop(step);
    assert_eq!(drops.get(), 2);
}

#[test]
fn channels_are_independent() {
    let (mut tx1, mut rx1) = open::<i32>();
    let (mut tx2, mut rx2) = open::<()>();
    let mut fds = vec![
        tx1.as_raw_fd(),
        rx1.as_raw_fd(),
        tx2.as_raw_fd(),
        rx2.as_raw_fd(),
    ];
    fds.sort();
    fds.dedup();
    assert_eq!(fds.len(), 4);

    send_i32(&mut tx1, 1).unwrap();
    send(&mut tx2, (), vec![]).unwrap();
    send_i32(&mut tx1, 2).unwrap();
    close_sender(tx2);
    assert_eq!(recv(&mut rx2), Ok(vec![]));
    assert_eq!(recv(&mut rx2), Err(RecvError));
    close_receiver(rx2);
    assert_eq!(recv_i32(&mut rx1), Ok(1));
    send_i32(&mut tx1, 3).unwrap();
    assert_eq!(recv_i32(&mut rx1), Ok(2));
    assert_eq!(recv_i32(&mut rx1), Ok(3));
}
