//! What holds of a whole channel, however the pipe splits the writes and reads and
//! however the two ends take turns.
use vstd::multiset::Multiset;
use vstd::prelude::*;

use crate::model::{
    frame_len, frame_of, recv_next, send_next, value_of, RecvNext, SendNext,
};

verus! {

/// A channel for values of a type of `size` bytes, with all that has gone through
/// it. Each value is given by the bytes that it has in memory.
pub struct Channel {
    pub size: nat,
    /// The values whose send succeeded, the oldest first.
    pub sent: Seq<Seq<u8>>,
    /// The values that a send handed back, the oldest first.
    pub returned: Seq<Seq<u8>>,
    /// The values that were dropped when the write of a send failed, the oldest
    /// first.
    pub dropped: Seq<Seq<u8>>,
    /// The values that were received, the oldest first.
    pub received: Seq<Seq<u8>>,
    /// The value whose send is in progress, and how many bytes of its frame are
    /// written.
    pub sending: Option<(Seq<u8>, nat)>,
    /// What the last send wrote of its frame, if it gave up between two writes and
    /// the receiver has not come to the end of the stream.
    pub torn: Seq<u8>,
    /// The bytes in the pipe.
    pub pipe: Seq<u8>,
    /// The bytes that the receive in progress has read.
    pub got: Seq<u8>,
    /// Whether a receive gave up between two reads.
    pub misread: bool,
    /// Whether the sender has not been dropped.
    pub sender: bool,
    /// Whether the receiver has not been dropped.
    pub receiver: bool,
}

/// What can happen to a channel.
pub enum Event {
    /// A send of a value begins.
    Send { bytes: Seq<u8> },
    /// The send in progress writes what is pending, which returns `result`.
    Write { result: Result<usize, nix::Error> },
    /// The receiver reads what it wants, which returns `result`.
    Read { result: Result<usize, nix::Error> },
    /// The sender is dropped.
    DropSender,
    /// The receiver is dropped.
    DropReceiver,
}

impl Channel {
    /// A channel that was just created.
    pub open spec fn new(size: nat) -> Channel {
        Channel {
            size,
            sent: Seq::empty(),
            returned: Seq::empty(),
            dropped: Seq::empty(),
            received: Seq::empty(),
            sending: None,
            torn: Seq::empty(),
            pipe: Seq::empty(),
            got: Seq::empty(),
            misread: false,
            sender: true,
            receiver: true,
        }
    }

    /// Whether `event` can happen next.
    ///
    /// A write puts at most what was offered to it into the pipe, and is refused with
    /// `EPIPE` exactly when the receiver is gone. A read takes the first bytes of
    /// the pipe, at most as many as it asked for, and returns 0 only when the
    /// sender is gone and the pipe is empty. While there is a receiver, nothing is
    /// sent after a send that gave up within a frame; and nothing is received after
    /// a receive that gave up within a frame.
    pub open spec fn allows(self, event: Event) -> bool {
        match event {
            Event::Send { bytes } => {
                &&& self.sender
                &&& self.sending is None
                &&& bytes.len() == self.size
                &&& self.torn.len() == 0 || !self.receiver
            },
            Event::Write { result } => match (self.sending, result) {
                (None, _) => false,
                (Some((bytes, sent)), Ok(count)) => {
                    &&& self.receiver
                    &&& count <= frame_of(bytes).len() - sent
                },
                (Some(_), Err(error)) => error == nix::Error::Sys(nix::Errno::EPIPE)
                    ==> !self.receiver,
            },
            Event::Read { result } => {
                &&& self.receiver
                &&& !self.misread
                &&& match result {
                    Ok(count) => if count == 0 {
                        !self.sender && self.pipe.len() == 0
                    } else {
                        &&& count <= self.pipe.len()
                        &&& count <= frame_len(self.size) - self.got.len()
                    },
                    Err(_) => true,
                }
            },
            Event::DropSender => self.sender && self.sending is None,
            Event::DropReceiver => self.receiver,
        }
    }

    /// The channel after a write that returned `result` and put as many of the pending
    /// bytes behind what was in the pipe.
    pub open spec fn after_write(self, result: Result<usize, nix::Error>) -> Channel {
        let (bytes, sent) = self.sending->0;
        let frame = frame_of(bytes);
        let pipe = match result {
            Ok(count) => self.pipe + frame.skip(sent as int).take(count as int),
            Err(_) => self.pipe,
        };
        match send_next(frame.len(), sent, result) {
            SendNext::More { sent } => Channel { sending: Some((bytes, sent)), pipe, ..self },
            SendNext::Sent => Channel {
                sending: None,
                sent: self.sent.push(bytes),
                pipe,
                ..self
            },
            SendNext::Closed => Channel {
                sending: None,
                returned: self.returned.push(bytes),
                ..self
            },
            SendNext::Failed { .. } => Channel {
                sending: None,
                dropped: self.dropped.push(bytes),
                torn: frame.take(sent as int),
                ..self
            },
        }
    }

    /// The channel after a read that returned `result` and took as many bytes from the
    /// front of the pipe.
    pub open spec fn after_read(self, result: Result<usize, nix::Error>) -> Channel {
        let pipe = match result {
            Ok(count) => self.pipe.skip(count as int),
            Err(_) => self.pipe,
        };
        match recv_next(frame_len(self.size), self.got, result, self.pipe) {
            RecvNext::More { got } => Channel { got, pipe, ..self },
            RecvNext::Received { frame } => Channel {
                got: Seq::empty(),
                received: self.received.push(value_of(self.size, frame)),
                pipe,
                ..self
            },
            RecvNext::Closed => Channel { got: Seq::empty(), torn: Seq::empty(), ..self },
            RecvNext::Failed { .. } => Channel {
                got: Seq::empty(),
                misread: self.got.len() > 0,
                ..self
            },
        }
    }

    /// The channel after `event`.
    pub open spec fn after(self, event: Event) -> Channel {
        match event {
            Event::Send { bytes } => Channel { sending: Some((bytes, 0)), ..self },
            Event::Write { result } => self.after_write(result),
            Event::Read { result } => self.after_read(result),
            Event::DropSender => Channel { sender: false, ..self },
            Event::DropReceiver => Channel { receiver: false, ..self },
        }
    }

    /// The channel after `events`, one after the other.
    pub open spec fn after_all(self, events: Seq<Event>) -> Channel
        decreases events.len(),
    {
        if events.len() == 0 {
            self
        } else {
            self.after_all(events.drop_last()).after(events.last())
        }
    }

    /// Whether `events` can happen one after the other.
    pub open spec fn allows_all(self, events: Seq<Event>) -> bool
        decreases events.len(),
    {
        events.len() > 0 ==> {
            &&& self.allows_all(events.drop_last())
            &&& self.after_all(events.drop_last()).allows(events.last())
        }
    }

    /// What stands in the stream of bytes behind the frames that are whole.
    spec fn tail(self) -> Seq<u8> {
        match self.sending {
            Some((bytes, sent)) => frame_of(bytes).take(sent as int),
            None => self.torn,
        }
    }

    /// What holds of a channel at all times.
    spec fn inv(self) -> bool {
        let len = frame_len(self.size);
        &&& forall|i: int| 0 <= i < self.sent.len() ==> (#[trigger] self.sent[i]).len() == self.size
        &&& self.sending matches Some((bytes, sent)) ==> bytes.len() == self.size && sent < len && (
        self.receiver ==> self.torn.len() == 0)
        &&& !self.sender ==> self.sending is None
        &&& self.torn.len() < len
        &&& self.got.len() < len
        &&& self.received.len() <= self.sent.len()
        &&& self.received == self.sent.take(self.received.len() as int)
        &&& self.receiver && !self.misread ==> self.got + self.pipe == frames(
            self.sent.skip(self.received.len() as int),
        ) + self.tail()
    }
}

/// The frames of `values`, one behind the other.
spec fn frames(values: Seq<Seq<u8>>) -> Seq<u8>
    decreases values.len(),
{
    if values.len() == 0 {
        Seq::empty()
    } else {
        frame_of(values[0]) + frames(values.drop_first())
    }
}

proof fn lemma_frames_push(values: Seq<Seq<u8>>, value: Seq<u8>)
    ensures
        frames(values.push(value)) == frames(values) + frame_of(value),
    decreases values.len(),
{
    if values.len() == 0 {
        assert(values.push(value).drop_first() == values);
        assert(frames(values.push(value)) == frame_of(value) + frames(values));
    } else {
        assert(values.push(value).drop_first() == values.drop_first().push(value));
        lemma_frames_push(values.drop_first(), value);
    }
}

proof fn lemma_after_write(channel: Channel, result: Result<usize, nix::Error>)
    requires
        channel.inv(),
        channel.allows(Event::Write { result }),
    ensures
        channel.after_write(result).inv(),
{
    let (bytes, sent) = channel.sending->0;
    let frame = frame_of(bytes);
    let next = channel.after_write(result);
    let rest = channel.sent.skip(channel.received.len() as int);
    match result {
        Ok(count) => {
            let chunk = frame.skip(sent as int).take(count as int);
            assert(frame.take(sent as int) + chunk == frame.take(sent + count));
            assert(next.got + next.pipe == (channel.got + channel.pipe) + chunk);
            assert((frames(rest) + frame.take(sent as int)) + chunk == frames(rest) + frame.take(
                sent + count,
            ));
            if sent + count >= frame.len() {
                assert(frame.take(sent + count) == frame);
                assert(next.sent.skip(next.received.len() as int) == rest.push(bytes));
                lemma_frames_push(rest, bytes);
                assert(next.sent.take(next.received.len() as int) == channel.sent.take(
                    channel.received.len() as int,
                ));
                if next.receiver && !next.misread {
                    assert(frames(rest.push(bytes)) + next.tail() == frames(rest) + frame);
                }
            }
        },
        Err(error) => {},
    }
}

proof fn lemma_after_read(channel: Channel, result: Result<usize, nix::Error>)
    requires
        channel.inv(),
        channel.allows(Event::Read { result }),
    ensures
        channel.after_read(result).inv(),
{
    let len = frame_len(channel.size);
    let next = channel.after_read(result);
    let k = channel.received.len() as int;
    let rest = channel.sent.skip(k);
    match result {
        Ok(count) => {
            if count == 0 {
                lemma_empty_pipe(channel);
                assert(next.got + next.pipe == frames(rest) + next.tail());
            } else {
                let got = channel.got + channel.pipe.take(count as int);
                assert(got + channel.pipe.skip(count as int) == channel.got + channel.pipe);
                if channel.got.len() + count >= len {
                    if rest.len() == 0 {
                        assert(frames(rest) + channel.tail() == channel.tail());
                        assert(false);
                    }
                    let frame = frame_of(rest[0]);
                    let behind = frames(rest.drop_first()) + channel.tail();
                    assert(rest[0] == channel.sent[k]);
                    assert(frames(rest) + channel.tail() == frame + behind);
                    assert(got == (channel.got + channel.pipe).take(len as int));
                    assert(frame == (frame + behind).take(len as int));
                    assert(next.pipe == (channel.got + channel.pipe).skip(len as int));
                    assert(behind == (frame + behind).skip(len as int));
                    assert(value_of(channel.size, frame) == rest[0]);
                    assert(next.received == channel.sent.take(k + 1));
                    assert(next.sent.skip(k + 1) == rest.drop_first());
                    assert(next.got + next.pipe == next.pipe);
                }
            }
        },
        Err(_) => {
            assert(channel.got.len() == 0 ==> next.got == channel.got);
        },
    }
}

/// When the pipe is empty, every value that was sent has been received.
proof fn lemma_empty_pipe(channel: Channel)
    requires
        channel.inv(),
        channel.receiver,
        !channel.misread,
        channel.pipe.len() == 0,
    ensures
        channel.received == channel.sent,
        channel.got == channel.tail(),
{
    let k = channel.received.len() as int;
    let rest = channel.sent.skip(k);
    if rest.len() > 0 {
        assert(rest[0] == channel.sent[k]);
        assert(frames(rest).len() >= frame_of(rest[0]).len());
        assert(false);
    }
    assert(channel.sent.take(k) == channel.sent);
    assert(channel.got + channel.pipe == channel.got);
    assert(frames(rest) + channel.tail() == channel.tail());
}

proof fn lemma_after_all(size: nat, events: Seq<Event>)
    requires
        Channel::new(size).allows_all(events),
    ensures
        Channel::new(size).after_all(events).inv(),
        Channel::new(size).after_all(events).size == size,
    decreases events.len(),
{
    let start = Channel::new(size);
    if events.len() == 0 {
        assert(start.sent.take(0) == start.received);
        assert(start.got + start.pipe == frames(start.sent.skip(0)) + start.tail());
    } else {
        let before = events.drop_last();
        lemma_after_all(size, before);
        let channel = start.after_all(before);
        let next = channel.after(events.last());
        match events.last() {
            Event::Send { bytes } => {
                if channel.receiver {
                    assert(next.tail() == channel.tail());
                }
            },
            Event::Write { result } => lemma_after_write(channel, result),
            Event::Read { result } => lemma_after_read(channel, result),
            Event::DropSender => {},
            Event::DropReceiver => {},
        }
    }
}

/// A frame stands for the value that it was made of: it has the length that a
/// receiver of that type reads, at least one byte, and gives the value's bytes back.
pub proof fn law_frame_gives_value_back(bytes: Seq<u8>)
    ensures
        frame_of(bytes).len() == frame_len(bytes.len()),
        frame_of(bytes).len() > 0,
        value_of(bytes.len(), frame_of(bytes)) == bytes,
{
}

/// A value with bytes in memory stands in the pipe as these bytes, with nothing before,
/// between or behind them; a value without any stands there as a single zero.
pub proof fn law_frame_is_the_value(bytes: Seq<u8>)
    ensures
        bytes.len() > 0 ==> frame_of(bytes) == bytes,
        bytes.len() == 0 ==> frame_of(bytes) == seq![0u8],
{
}

/// A value takes as many bytes of the pipe as its type has, and one if its type has
/// none.
pub proof fn law_value_takes_its_size(size: nat)
    ensures
        size > 0 ==> frame_len(size) == size,
        size == 0 ==> frame_len(size) == 1,
{
}

/// The bytes of a received value are all that was read for it, unless its type has no
/// bytes: then what was read is left out, whatever it is.
pub proof fn law_value_is_what_was_read(size: nat, read: Seq<u8>)
    requires
        read.len() == size || size == 0,
    ensures
        value_of(size, read).len() == size,
        size > 0 ==> value_of(size, read) == read,
{
}

proof fn lemma_frames_len(size: nat, values: Seq<Seq<u8>>)
    requires
        forall|i: int| 0 <= i < values.len() ==> (#[trigger] values[i]).len() == size,
    ensures
        frames(values).len() == frame_len(size) * values.len(),
    decreases values.len(),
{
    let len = frame_len(size) as int;
    let count = values.len() as int;
    if values.len() > 0 {
        let rest = values.drop_first();
        assert forall|i: int| 0 <= i < rest.len() implies (#[trigger] rest[i]).len() == size by {
            assert(rest[i] == values[i + 1]);
        }
        lemma_frames_len(size, rest);
        assert(values[0].len() == size);
        assert(len * count == len + len * (count - 1)) by (nonlinear_arith);
    } else {
        assert(len * 0 == 0) by (nonlinear_arith);
    }
}

/// What stands between the ends is no more than the values need: for each value that
/// was sent and not yet received as many bytes as its type has (one if it has none),
/// less what the receive in progress has read, and what the send in progress, or one
/// that gave up, has written. So a pipe has room for as many values as their sizes
/// allow.
pub proof fn law_pipe_holds_the_values_alone(size: nat, events: Seq<Event>)
    requires
        Channel::new(size).allows_all(events),
        Channel::new(size).after_all(events).receiver,
        !Channel::new(size).after_all(events).misread,
    ensures
        ({
            let channel = Channel::new(size).after_all(events);
            let each: nat = if size > 0 {
                size
            } else {
                1
            };
            let written = match channel.sending {
                Some((_, sent)) => sent,
                None => channel.torn.len(),
            };
            channel.pipe.len() == each * (channel.sent.len() - channel.received.len()) + written
                - channel.got.len()
        }),
{
    lemma_after_all(size, events);
    let channel = Channel::new(size).after_all(events);
    let rest = channel.sent.skip(channel.received.len() as int);
    assert forall|i: int| 0 <= i < rest.len() implies (#[trigger] rest[i]).len() == size by {
        assert(rest[i] == channel.sent[i + channel.received.len()]);
    }
    lemma_frames_len(size, rest);
    assert((channel.got + channel.pipe).len() == frames(rest).len() + channel.tail().len());
}

/// Values are received whole, in the order in which they were sent, none twice and
/// none left out.
pub proof fn law_values_arrive_in_order(size: nat, events: Seq<Event>)
    requires
        Channel::new(size).allows_all(events),
    ensures
        ({
            let channel = Channel::new(size).after_all(events);
            &&& channel.received.len() <= channel.sent.len()
            &&& channel.received == channel.sent.take(channel.received.len() as int)
        }),
{
    lemma_after_all(size, events);
}

/// Whenever the pipe is empty, every value whose send succeeded has been received.
pub proof fn law_empty_pipe_holds_nothing_back(size: nat, events: Seq<Event>)
    requires
        Channel::new(size).allows_all(events),
        Channel::new(size).after_all(events).receiver,
        !Channel::new(size).after_all(events).misread,
        Channel::new(size).after_all(events).pipe.len() == 0,
    ensures
        Channel::new(size).after_all(events).received == Channel::new(size).after_all(events).sent,
{
    lemma_after_all(size, events);
    lemma_empty_pipe(Channel::new(size).after_all(events));
}

/// Once the sender is dropped, a read that does not fail finds the end of the stream,
/// on which a receive reports an error, when and only when every value whose send
/// succeeded has been received. (A send that gave up within a frame leaves bytes
/// that are read before the end; there too, the end comes after every value.)
pub proof fn law_receiver_ends_after_last_value(size: nat, events: Seq<Event>, count: usize)
    requires
        Channel::new(size).allows_all(events),
        Channel::new(size).after_all(events).allows(Event::Read { result: Ok(count) }),
        !Channel::new(size).after_all(events).sender,
    ensures
        ({
            let channel = Channel::new(size).after_all(events);
            let next = recv_next(frame_len(size), channel.got, Ok(count), channel.pipe);
            &&& next is Closed ==> channel.received == channel.sent
            &&& channel.torn.len() == 0 && channel.received == channel.sent ==> next is Closed
        }),
{
    lemma_after_all(size, events);
    let channel = Channel::new(size).after_all(events);
    if channel.pipe.len() == 0 {
        lemma_empty_pipe(channel);
    } else if channel.received == channel.sent {
        let rest = channel.sent.skip(channel.received.len() as int);
        assert(frames(rest) + channel.tail() == channel.torn);
    }
}

/// Once the receiver is dropped, a send that does not fail in another way hands its
/// value back, and no send succeeds.
pub proof fn law_send_without_receiver_returns_value(
    size: nat,
    events: Seq<Event>,
    result: Result<usize, nix::Error>,
)
    requires
        Channel::new(size).allows_all(events),
        !Channel::new(size).after_all(events).receiver,
        Channel::new(size).after_all(events).allows(Event::Write { result }),
    ensures
        ({
            let channel = Channel::new(size).after_all(events);
            let (bytes, sent) = channel.sending->0;
            let next = channel.after(Event::Write { result });
            &&& next.sent == channel.sent
            &&& next.sending is None
            &&& send_next(frame_len(size), sent, result) !is Failed ==> {
                &&& send_next(frame_len(size), sent, result) is Closed
                &&& next.returned == channel.returned.push(bytes)
            }
        }),
{
    lemma_after_all(size, events);
}

/// An iterator that is asked for items until the sender is gone yields the values
/// that had not been received before, in the order in which they were sent.
///
/// The items are what is received in `during`, up to the read that finds the end of
/// the stream.
pub proof fn law_iterator_yields_the_rest(size: nat, before: Seq<Event>, during: Seq<Event>)
    requires
        Channel::new(size).allows_all(before + during),
        Channel::new(size).after_all(before + during).allows(Event::Read { result: Ok(0) }),
    ensures
        ({
            let start = Channel::new(size).after_all(before);
            let end = Channel::new(size).after_all(before + during);
            let items = end.received.skip(start.received.len() as int);
            &&& start.received.is_prefix_of(end.received)
            &&& start.sent.is_prefix_of(end.sent)
            &&& items == end.sent.skip(start.received.len() as int)
        }),
{
    lemma_grows(size, before, during);
    law_empty_pipe_holds_nothing_back(size, before + during);
}

proof fn lemma_grows(size: nat, before: Seq<Event>, during: Seq<Event>)
    requires
        Channel::new(size).allows_all(before + during),
    ensures
        Channel::new(size).after_all(before).received.is_prefix_of(
            Channel::new(size).after_all(before + during).received,
        ),
        Channel::new(size).after_all(before).sent.is_prefix_of(
            Channel::new(size).after_all(before + during).sent,
        ),
    decreases during.len(),
{
    if during.len() == 0 {
        assert(before + during == before);
    } else {
        assert((before + during).drop_last() == before + during.drop_last());
        lemma_grows(size, before, during.drop_last());
    }
}

/// The values that were given to a send in `events`, the oldest first.
pub open spec fn offered(events: Seq<Event>) -> Seq<Seq<u8>>
    decreases events.len(),
{
    if events.len() == 0 {
        Seq::empty()
    } else {
        match events.last() {
            Event::Send { bytes } => offered(events.drop_last()).push(bytes),
            _ => offered(events.drop_last()),
        }
    }
}

/// A value that was given to a send is in one place: it went to the receiver, came
/// back, was dropped, or is still on its way.
pub proof fn law_value_is_in_one_place(size: nat, events: Seq<Event>)
    requires
        Channel::new(size).allows_all(events),
    ensures
        ({
            let channel = Channel::new(size).after_all(events);
            let sending = match channel.sending {
                Some((bytes, _)) => Multiset::singleton(bytes),
                None => Multiset::empty(),
            };
            offered(events).to_multiset() == channel.sent.to_multiset().add(
                channel.returned.to_multiset(),
            ).add(channel.dropped.to_multiset()).add(sending)
        }),
    decreases events.len(),
{
    broadcast use vstd::seq_lib::group_to_multiset_ensures;

    if events.len() > 0 {
        law_value_is_in_one_place(size, events.drop_last());
    }
}

/// The sum of the counts in `results`.
pub open spec fn total(results: Seq<Result<usize, nix::Error>>) -> nat
    decreases results.len(),
{
    if results.len() == 0 {
        0
    } else {
        let count = match results[0] {
            Ok(count) => count as nat,
            Err(_) => 0,
        };
        count + total(results.drop_first())
    }
}

/// What a send of a frame of `len` bytes, of which `sent` are in the pipe, comes to
/// when its writes return `results`, one after the other.
pub open spec fn send_run(
    len: nat,
    sent: nat,
    results: Seq<Result<usize, nix::Error>>,
) -> SendNext
    decreases results.len(),
{
    if results.len() == 0 {
        SendNext::More { sent }
    } else {
        match send_next(len, sent, results[0]) {
            SendNext::More { sent } => send_run(len, sent, results.drop_first()),
            next => next,
        }
    }
}

/// Whether a send of a frame of `len` bytes, of which `sent` are in the pipe, comes to
/// write number `k`: there is one, the writes before it succeeded, and they left
/// something to write.
pub open spec fn send_reaches(
    len: nat,
    sent: nat,
    results: Seq<Result<usize, nix::Error>>,
    k: int,
) -> bool {
    &&& 0 <= k < results.len()
    &&& forall|j: int| 0 <= j < k ==> (#[trigger] results[j]) is Ok
    &&& sent + total(results.take(k)) < len
}

proof fn lemma_send_reaches_next(
    len: nat,
    sent: nat,
    results: Seq<Result<usize, nix::Error>>,
    k: int,
)
    requires
        sent < len,
        0 < k,
        results.len() > 0,
        results[0] is Ok,
    ensures
        k <= results.len() ==> total(results.take(k)) == results[0]->Ok_0 + total(
            results.drop_first().take(k - 1),
        ),
        send_reaches(len, sent, results, k) <==> sent + results[0]->Ok_0 < len && send_reaches(
            len,
            (sent + results[0]->Ok_0) as nat,
            results.drop_first(),
            k - 1,
        ),
{
    let rest = results.drop_first();
    if k <= results.len() {
        assert(results.take(k).drop_first() == rest.take(k - 1));
    }
    if 0 <= k - 1 < rest.len() {
        if forall|j: int| 0 <= j < k - 1 ==> (#[trigger] rest[j]) is Ok {
            assert forall|j: int| 0 <= j < k implies (#[trigger] results[j]) is Ok by {
                if j > 0 {
                    assert(results[j] == rest[j - 1]);
                }
            }
        }
        if forall|j: int| 0 <= j < k ==> (#[trigger] results[j]) is Ok {
            assert forall|j: int| 0 <= j < k - 1 implies (#[trigger] rest[j]) is Ok by {
                assert(rest[j] == results[j + 1]);
            }
        }
    }
}

/// A send ends in `end` if and only if it comes to a write whose result leads there.
pub proof fn law_send_is_ended_by_one_write(
    len: nat,
    sent: nat,
    results: Seq<Result<usize, nix::Error>>,
    end: SendNext,
)
    requires
        sent < len,
        end !is More,
    ensures
        send_run(len, sent, results) == end <==> exists|k: int| #[trigger]
            send_reaches(len, sent, results, k) && send_next(
                len,
                sent + total(results.take(k)),
                results[k],
            ) == end,
    decreases results.len(),
{
    if results.len() > 0 {
        assert(results.take(0) == Seq::<Result<usize, nix::Error>>::empty());
        assert(send_reaches(len, sent, results, 0));
        let first = send_next(len, sent, results[0]);
        let rest = results.drop_first();
        if first is More {
            let next = first->More_sent;
            law_send_is_ended_by_one_write(len, next, rest, end);
            if send_run(len, sent, results) == end {
                let k = choose|k: int| #[trigger]
                    send_reaches(len, next, rest, k) && send_next(
                        len,
                        next + total(rest.take(k)),
                        rest[k],
                    ) == end;
                lemma_send_reaches_next(len, sent, results, k + 1);
                assert(send_reaches(len, sent, results, k + 1));
            }
            assert forall|k: int| #[trigger]
                send_reaches(len, sent, results, k) && send_next(
                    len,
                    sent + total(results.take(k)),
                    results[k],
                ) == end implies send_run(len, sent, results) == end by {
                if k > 0 {
                    lemma_send_reaches_next(len, sent, results, k);
                    assert(send_reaches(len, next, rest, k - 1));
                    assert(rest[k - 1] == results[k]);
                }
            }
        } else {
            assert forall|k: int| #[trigger] send_reaches(len, sent, results, k) implies k == 0 by {
                if k > 0 {
                    assert(results[0] is Ok);
                    lemma_send_reaches_next(len, sent, results, k);
                }
            }
        }
    }
}

/// A send ends with an error if and only if it comes to a write that returns `EPIPE`.
pub proof fn law_send_errs_only_on_broken_pipe(
    len: nat,
    sent: nat,
    results: Seq<Result<usize, nix::Error>>,
)
    requires
        sent < len,
    ensures
        send_run(len, sent, results) is Closed <==> exists|k: int|
            {
                &&& 0 <= k < results.len()
                &&& #[trigger] results[k] == Err::<usize, nix::Error>(
                    nix::Error::Sys(nix::Errno::EPIPE),
                )
                &&& forall|j: int| 0 <= j < k ==> (#[trigger] results[j]) is Ok
                &&& sent + total(results.take(k)) < len
            },
{
    law_send_is_ended_by_one_write(len, sent, results, SendNext::Closed);
    if send_run(len, sent, results) is Closed {
        let k = choose|k: int| #[trigger]
            send_reaches(len, sent, results, k) && send_next(
                len,
                sent + total(results.take(k)),
                results[k],
            ) == SendNext::Closed;
        assert(results[k] == Err::<usize, nix::Error>(nix::Error::Sys(nix::Errno::EPIPE)));
    }
    assert forall|k: int|
        {
            &&& 0 <= k < results.len()
            &&& #[trigger] results[k] == Err::<usize, nix::Error>(
                nix::Error::Sys(nix::Errno::EPIPE),
            )
            &&& forall|j: int| 0 <= j < k ==> (#[trigger] results[j]) is Ok
            &&& sent + total(results.take(k)) < len
        } implies send_run(len, sent, results) is Closed by {
        assert(send_reaches(len, sent, results, k));
    }
}

/// A send whose writes all succeed goes on until the counts that they returned add
/// up to the length of the frame, and then ends without an error.
pub proof fn law_send_succeeds_when_frame_is_written(
    len: nat,
    sent: nat,
    results: Seq<Result<usize, nix::Error>>,
)
    requires
        sent < len,
        forall|i: int| 0 <= i < results.len() ==> (#[trigger] results[i]) is Ok,
    ensures
        send_run(len, sent, results) == (if sent + total(results) < len {
            SendNext::More { sent: sent + total(results) }
        } else {
            SendNext::Sent
        }),
    decreases results.len(),
{
    if results.len() > 0 {
        let rest = results.drop_first();
        assert forall|i: int| 0 <= i < rest.len() implies (#[trigger] rest[i]) is Ok by {
            assert(rest[i] == results[i + 1]);
        }
        assert(results[0] is Ok);
        if send_next(len, sent, results[0]) is More {
            law_send_succeeds_when_frame_is_written(
                len,
                send_next(len, sent, results[0])->More_sent,
                rest,
            );
        }
    }
}

/// The bytes that reads brought that returned `results` and left `bufs` in their
/// buffers.
pub open spec fn joined(
    results: Seq<Result<usize, nix::Error>>,
    bufs: Seq<Seq<u8>>,
) -> Seq<u8>
    decreases results.len(),
{
    if results.len() == 0 {
        Seq::empty()
    } else {
        let bytes = match results[0] {
            Ok(count) => bufs[0].take(count as int),
            Err(_) => Seq::empty(),
        };
        bytes + joined(results.drop_first(), bufs.drop_first())
    }
}

/// Whether there is one buffer for each of `results`, and each count fits its buffer.
pub open spec fn fit(results: Seq<Result<usize, nix::Error>>, bufs: Seq<Seq<u8>>) -> bool {
    &&& results.len() == bufs.len()
    &&& forall|j: int|
        0 <= j < results.len() ==> (#[trigger] results[j] matches Ok(count) ==> count
            <= bufs[j].len())
}

/// What a receive of a frame of `len` bytes, of which `got` have come, comes to when its
/// reads return `results`, one after the other, and leave `bufs` in their buffers.
pub open spec fn recv_run(
    len: nat,
    got: Seq<u8>,
    results: Seq<Result<usize, nix::Error>>,
    bufs: Seq<Seq<u8>>,
) -> RecvNext
    decreases results.len(),
{
    if results.len() == 0 {
        RecvNext::More { got }
    } else {
        match recv_next(len, got, results[0], bufs[0]) {
            RecvNext::More { got } => recv_run(len, got, results.drop_first(), bufs.drop_first()),
            next => next,
        }
    }
}

/// Whether a receive of a frame of `len` bytes, of which `got` have come, comes to read
/// number `k`: there is one, each read before it brought something, and they left
/// something to read.
pub open spec fn recv_reaches(
    len: nat,
    got: Seq<u8>,
    results: Seq<Result<usize, nix::Error>>,
    k: int,
) -> bool {
    &&& 0 <= k < results.len()
    &&& forall|j: int| 0 <= j < k ==> (#[trigger] results[j] matches Ok(count) && count > 0)
    &&& got.len() + total(results.take(k)) < len
}

proof fn lemma_fit_rest(results: Seq<Result<usize, nix::Error>>, bufs: Seq<Seq<u8>>)
    requires
        fit(results, bufs),
        results.len() > 0,
    ensures
        fit(results.drop_first(), bufs.drop_first()),
{
    let rest = results.drop_first();
    assert forall|j: int| 0 <= j < rest.len() implies (#[trigger] rest[j] matches Ok(count)
        ==> count <= bufs.drop_first()[j].len()) by {
        assert(rest[j] == results[j + 1]);
    }
}

proof fn lemma_recv_reaches_next(
    len: nat,
    got: Seq<u8>,
    results: Seq<Result<usize, nix::Error>>,
    bufs: Seq<Seq<u8>>,
    k: int,
)
    requires
        got.len() < len,
        0 < k,
        results.len() > 0,
        fit(results, bufs),
        results[0] matches Ok(count) && count > 0,
    ensures
        k <= results.len() ==> {
            &&& total(results.take(k)) == results[0]->Ok_0 + total(
                results.drop_first().take(k - 1),
            )
            &&& got + joined(results.take(k), bufs.take(k)) == (got + bufs[0].take(
                results[0]->Ok_0 as int,
            )) + joined(results.drop_first().take(k - 1), bufs.drop_first().take(k - 1))
        },
        recv_reaches(len, got, results, k) <==> got.len() + results[0]->Ok_0 < len && recv_reaches(
            len,
            got + bufs[0].take(results[0]->Ok_0 as int),
            results.drop_first(),
            k - 1,
        ),
{
    let rest = results.drop_first();
    if k <= results.len() {
        assert(results.take(k).drop_first() == rest.take(k - 1));
        assert(bufs.take(k).drop_first() == bufs.drop_first().take(k - 1));
        assert(got + joined(results.take(k), bufs.take(k)) == (got + bufs[0].take(
            results[0]->Ok_0 as int,
        )) + joined(rest.take(k - 1), bufs.drop_first().take(k - 1)));
    }
    if 0 <= k - 1 < rest.len() {
        if forall|j: int| 0 <= j < k - 1 ==> (#[trigger] rest[j] matches Ok(count) && count > 0) {
            assert forall|j: int| 0 <= j < k implies (#[trigger] results[j] matches Ok(count)
                && count > 0) by {
                if j > 0 {
                    assert(results[j] == rest[j - 1]);
                }
            }
        }
        if forall|j: int| 0 <= j < k ==> (#[trigger] results[j] matches Ok(count) && count > 0) {
            assert forall|j: int| 0 <= j < k - 1 implies (#[trigger] rest[j] matches Ok(count)
                && count > 0) by {
                assert(rest[j] == results[j + 1]);
            }
        }
    }
}

/// A receive ends in `end` if and only if it comes to a read whose result, with the
/// bytes of the reads before it, leads there.
pub proof fn law_recv_is_ended_by_one_read(
    len: nat,
    got: Seq<u8>,
    results: Seq<Result<usize, nix::Error>>,
    bufs: Seq<Seq<u8>>,
    end: RecvNext,
)
    requires
        got.len() < len,
        fit(results, bufs),
        end !is More,
    ensures
        recv_run(len, got, results, bufs) == end <==> exists|k: int| #[trigger]
            recv_reaches(len, got, results, k) && recv_next(
                len,
                got + joined(results.take(k), bufs.take(k)),
                results[k],
                bufs[k],
            ) == end,
    decreases results.len(),
{
    if results.len() > 0 {
        assert(results.take(0) == Seq::<Result<usize, nix::Error>>::empty());
        assert(got + joined(results.take(0), bufs.take(0)) == got);
        assert(recv_reaches(len, got, results, 0));
        let first = recv_next(len, got, results[0], bufs[0]);
        let rest = results.drop_first();
        let rest_bufs = bufs.drop_first();
        lemma_fit_rest(results, bufs);
        assert(results[0] matches Ok(count) ==> count <= bufs[0].len());
        if first is More {
            let next = first->More_got;
            law_recv_is_ended_by_one_read(len, next, rest, rest_bufs, end);
            if recv_run(len, got, results, bufs) == end {
                let k = choose|k: int| #[trigger]
                    recv_reaches(len, next, rest, k) && recv_next(
                        len,
                        next + joined(rest.take(k), rest_bufs.take(k)),
                        rest[k],
                        rest_bufs[k],
                    ) == end;
                lemma_recv_reaches_next(len, got, results, bufs, k + 1);
                assert(recv_reaches(len, got, results, k + 1));
                assert(results[k + 1] == rest[k] && bufs[k + 1] == rest_bufs[k]);
            }
            assert forall|k: int| #[trigger]
                recv_reaches(len, got, results, k) && recv_next(
                    len,
                    got + joined(results.take(k), bufs.take(k)),
                    results[k],
                    bufs[k],
                ) == end implies recv_run(len, got, results, bufs) == end by {
                if k > 0 {
                    lemma_recv_reaches_next(len, got, results, bufs, k);
                    assert(recv_reaches(len, next, rest, k - 1));
                    assert(rest[k - 1] == results[k] && rest_bufs[k - 1] == bufs[k]);
                }
            }
        } else {
            assert forall|k: int| #[trigger] recv_reaches(len, got, results, k) implies k == 0 by {
                if k > 0 {
                    assert(results[0] matches Ok(count) && count > 0);
                    lemma_recv_reaches_next(len, got, results, bufs, k);
                }
            }
        }
    }
}

/// A receive ends with an error if and only if it comes to a read that returns 0.
pub proof fn law_recv_errs_only_at_the_end(
    len: nat,
    got: Seq<u8>,
    results: Seq<Result<usize, nix::Error>>,
    bufs: Seq<Seq<u8>>,
)
    requires
        got.len() < len,
        fit(results, bufs),
    ensures
        recv_run(len, got, results, bufs) is Closed <==> exists|k: int|
            {
                &&& 0 <= k < results.len()
                &&& #[trigger] results[k] == Ok::<usize, nix::Error>(0)
                &&& forall|j: int|
                    0 <= j < k ==> (#[trigger] results[j] matches Ok(count) && count > 0)
                &&& got.len() + total(results.take(k)) < len
            },
{
    law_recv_is_ended_by_one_read(len, got, results, bufs, RecvNext::Closed);
    if recv_run(len, got, results, bufs) is Closed {
        let k = choose|k: int| #[trigger]
            recv_reaches(len, got, results, k) && recv_next(
                len,
                got + joined(results.take(k), bufs.take(k)),
                results[k],
                bufs[k],
            ) == RecvNext::Closed;
        assert(results[k] == Ok::<usize, nix::Error>(0));
    }
    assert forall|k: int|
        {
            &&& 0 <= k < results.len()
            &&& #[trigger] results[k] == Ok::<usize, nix::Error>(0)
            &&& forall|j: int|
                0 <= j < k ==> (#[trigger] results[j] matches Ok(count) && count > 0)
            &&& got.len() + total(results.take(k)) < len
        } implies recv_run(len, got, results, bufs) is Closed by {
        assert(recv_reaches(len, got, results, k));
    }
}

/// A receive whose reads all bring something goes on until the counts that they
/// returned add up to the length of the frame, and then has the bytes that they
/// brought, in that order. No read asks for more than is missing.
pub proof fn law_recv_joins_what_is_read(
    len: nat,
    got: Seq<u8>,
    results: Seq<Result<usize, nix::Error>>,
    bufs: Seq<Seq<u8>>,
)
    requires
        got.len() < len,
        fit(results, bufs),
        forall|i: int|
            0 <= i < results.len() ==> (#[trigger] results[i] matches Ok(count) && count > 0),
        got.len() + total(results) <= len,
    ensures
        recv_run(len, got, results, bufs) == (if got.len() + total(results) < len {
            RecvNext::More { got: got + joined(results, bufs) }
        } else {
            RecvNext::Received { frame: got + joined(results, bufs) }
        }),
    decreases results.len(),
{
    if results.len() == 0 {
        assert(got + joined(results, bufs) == got);
    } else {
        let rest = results.drop_first();
        let rest_bufs = bufs.drop_first();
        assert(results[0] matches Ok(count) && count > 0);
        let next = got + bufs[0].take(results[0]->Ok_0 as int);
        lemma_fit_rest(results, bufs);
        assert forall|i: int| 0 <= i < rest.len() implies (#[trigger] rest[i] matches Ok(count)
            && count > 0) by {
            assert(rest[i] == results[i + 1]);
        }
        assert(got + joined(results, bufs) == next + joined(rest, rest_bufs));
        if next.len() < len {
            law_recv_joins_what_is_read(len, next, rest, rest_bufs);
        } else {
            if rest.len() > 0 {
                assert(rest[0] matches Ok(count) && count > 0);
            }
            assert(next + joined(rest, rest_bufs) == next);
        }
    }
}

/// The counts of writes or reads that follow each other add up; a call that failed
/// counts for nothing.
pub proof fn law_counts_add_up(
    first: Seq<Result<usize, nix::Error>>,
    then: Seq<Result<usize, nix::Error>>,
    count: usize,
    error: nix::Error,
)
    ensures
        total(first + then) == total(first) + total(then),
        total(seq![Ok::<usize, nix::Error>(count)]) == count,
        total(seq![Err::<usize, nix::Error>(error)]) == 0,
    decreases first.len(),
{
    reveal_with_fuel(total, 2);
    assert(seq![Ok::<usize, nix::Error>(count)].drop_first().len() == 0);
    assert(seq![Err::<usize, nix::Error>(error)].drop_first().len() == 0);
    if first.len() == 0 {
        assert(first + then == then);
    } else {
        assert((first + then).drop_first() == first.drop_first() + then);
        law_counts_add_up(first.drop_first(), then, count, error);
    }
}

/// The bytes of reads that follow each other stand behind each other; of a buffer only
/// as many count as were read.
pub proof fn law_reads_join(
    first: Seq<Result<usize, nix::Error>>,
    first_bufs: Seq<Seq<u8>>,
    count: usize,
    buf: Seq<u8>,
)
    requires
        first.len() == first_bufs.len(),
        count <= buf.len(),
    ensures
        joined(first.push(Ok(count)), first_bufs.push(buf)) == joined(first, first_bufs)
            + buf.take(count as int),
    decreases first.len(),
{
    reveal_with_fuel(joined, 2);
    let results = first.push(Ok(count));
    let bufs = first_bufs.push(buf);
    if first.len() == 0 {
        assert(results.drop_first().len() == 0);
        assert(joined(results, bufs) == joined(first, first_bufs) + buf.take(count as int));
    } else {
        assert(results.drop_first() == first.drop_first().push(Ok(count)));
        assert(bufs.drop_first() == first_bufs.drop_first().push(buf));
        law_reads_join(first.drop_first(), first_bufs.drop_first(), count, buf);
        assert(joined(results, bufs) == joined(first, first_bufs) + buf.take(count as int));
    }
}

/// It does not matter whether bytes are written by two writes or by one, and a write of
/// nothing changes nothing.
pub proof fn law_two_writes_are_one(len: nat, sent: nat, first: usize, then: usize)
    requires
        sent + first < len,
        first + then <= usize::MAX,
    ensures
        send_run(len, sent, seq![Ok(first), Ok(then)]) == send_run(
            len,
            sent,
            seq![Ok((first + then) as usize)],
        ),
        send_run(len, sent, seq![Ok(0)]) == (SendNext::More { sent }),
{
    reveal_with_fuel(send_run, 3);
    let two = seq![Ok::<usize, nix::Error>(first), Ok::<usize, nix::Error>(then)];
    assert(two.drop_first() == seq![Ok::<usize, nix::Error>(then)]);
    assert(two.drop_first().drop_first().len() == 0);
}

/// A send succeeds if and only if a number of writes succeed, before any fails, whose
/// counts add up to what was missing of the frame.
pub proof fn law_send_succeeds_only_when_frame_is_written(
    len: nat,
    sent: nat,
    results: Seq<Result<usize, nix::Error>>,
)
    requires
        sent < len,
    ensures
        send_run(len, sent, results) is Sent <==> exists|k: int|
            {
                &&& 0 <= k < results.len()
                &&& (#[trigger] results[k]) is Ok
                &&& forall|j: int| 0 <= j < k ==> (#[trigger] results[j]) is Ok
                &&& sent + total(results.take(k)) < len
                &&& sent + total(results.take(k)) + results[k]->Ok_0 >= len
            },
{
    law_send_is_ended_by_one_write(len, sent, results, SendNext::Sent);
    if send_run(len, sent, results) is Sent {
        let k = choose|k: int| #[trigger]
            send_reaches(len, sent, results, k) && send_next(
                len,
                sent + total(results.take(k)),
                results[k],
            ) == SendNext::Sent;
        assert(results[k] is Ok);
    }
    assert forall|k: int|
        {
            &&& 0 <= k < results.len()
            &&& (#[trigger] results[k]) is Ok
            &&& forall|j: int| 0 <= j < k ==> (#[trigger] results[j]) is Ok
            &&& sent + total(results.take(k)) < len
            &&& sent + total(results.take(k)) + results[k]->Ok_0 >= len
        } implies send_run(len, sent, results) is Sent by {
        assert(send_reaches(len, sent, results, k));
    }
}

/// A send fails with `error` if and only if it comes to a write that returns this error,
/// and it is not `EPIPE`.
pub proof fn law_send_fails_with_the_error_of_a_write(
    len: nat,
    sent: nat,
    results: Seq<Result<usize, nix::Error>>,
    error: nix::Error,
)
    requires
        sent < len,
    ensures
        send_run(len, sent, results) == (SendNext::Failed { error }) <==> error != nix::Error::Sys(
            nix::Errno::EPIPE,
        ) && exists|k: int|
            {
                &&& 0 <= k < results.len()
                &&& #[trigger] results[k] == Err::<usize, nix::Error>(error)
                &&& forall|j: int| 0 <= j < k ==> (#[trigger] results[j]) is Ok
                &&& sent + total(results.take(k)) < len
            },
{
    let end = SendNext::Failed { error };
    law_send_is_ended_by_one_write(len, sent, results, end);
    if send_run(len, sent, results) == end {
        let k = choose|k: int| #[trigger]
            send_reaches(len, sent, results, k) && send_next(
                len,
                sent + total(results.take(k)),
                results[k],
            ) == end;
        assert(results[k] == Err::<usize, nix::Error>(error));
    }
    if error != nix::Error::Sys(nix::Errno::EPIPE) {
        assert forall|k: int|
            {
                &&& 0 <= k < results.len()
                &&& #[trigger] results[k] == Err::<usize, nix::Error>(error)
                &&& forall|j: int| 0 <= j < k ==> (#[trigger] results[j]) is Ok
                &&& sent + total(results.take(k)) < len
            } implies send_run(len, sent, results) == end by {
            assert(send_reaches(len, sent, results, k));
        }
    }
}

/// A receive fails with `error` if and only if it comes to a read that returns this
/// error, whichever it is.
pub proof fn law_recv_fails_with_the_error_of_a_read(
    len: nat,
    got: Seq<u8>,
    results: Seq<Result<usize, nix::Error>>,
    bufs: Seq<Seq<u8>>,
    error: nix::Error,
)
    requires
        got.len() < len,
        fit(results, bufs),
    ensures
        recv_run(len, got, results, bufs) == (RecvNext::Failed { error }) <==> exists|k: int|
            {
                &&& 0 <= k < results.len()
                &&& #[trigger] results[k] == Err::<usize, nix::Error>(error)
                &&& forall|j: int|
                    0 <= j < k ==> (#[trigger] results[j] matches Ok(count) && count > 0)
                &&& got.len() + total(results.take(k)) < len
            },
{
    let end = RecvNext::Failed { error };
    law_recv_is_ended_by_one_read(len, got, results, bufs, end);
    if recv_run(len, got, results, bufs) == end {
        let k = choose|k: int| #[trigger]
            recv_reaches(len, got, results, k) && recv_next(
                len,
                got + joined(results.take(k), bufs.take(k)),
                results[k],
                bufs[k],
            ) == end;
        assert(results[k] == Err::<usize, nix::Error>(error));
    }
    assert forall|k: int|
        {
            &&& 0 <= k < results.len()
            &&& #[trigger] results[k] == Err::<usize, nix::Error>(error)
            &&& forall|j: int|
                0 <= j < k ==> (#[trigger] results[j] matches Ok(count) && count > 0)
            &&& got.len() + total(results.take(k)) < len
        } implies recv_run(len, got, results, bufs) == end by {
        assert(recv_reaches(len, got, results, k));
    }
}

} // verus!
