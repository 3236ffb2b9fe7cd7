//! What holds of several channels in one process: system calls reach a channel by
//! file descriptor, and no channel is touched by what happens to another.
use vstd::prelude::*;

use crate::laws::{law_values_arrive_in_order, Channel, Event};

verus! {

/// A channel, with the file descriptors of its ends.
pub struct Link {
    pub reader: i32,
    pub writer: i32,
    pub channel: Channel,
}

impl Link {
    /// Whether `event` on the file descriptor `fd` reaches this channel: the descriptor
    /// is that of the end that the event is about, and the end is not dropped.
    pub open spec fn is_reached(self, fd: i32, event: Event) -> bool {
        match event {
            Event::Send { .. } | Event::Write { .. } | Event::DropSender => self.channel.sender
                && self.writer == fd,
            Event::Read { .. } | Event::DropReceiver => self.channel.receiver && self.reader == fd,
        }
    }

    /// Whether `fd` is the file descriptor of an end that is not dropped.
    pub open spec fn holds(self, fd: i32) -> bool {
        ||| self.channel.sender && self.writer == fd
        ||| self.channel.receiver && self.reader == fd
    }
}

/// All channels that were ever created, the oldest first.
pub struct System {
    pub links: Seq<Link>,
}

/// What can happen in a process.
pub enum SystemEvent {
    /// A channel for values of a type of `size` bytes is created over the pipe whose ends
    /// are `fds`, the end to read from first.
    Create { size: nat, fds: (i32, i32) },
    /// `event` happens on the file descriptor `fd`.
    On { fd: i32, event: Event },
}

impl System {
    /// A process that has created no channel.
    pub open spec fn new() -> System {
        System { links: Seq::empty() }
    }

    /// Whether `event` can happen next.
    ///
    /// A new pipe has two file descriptors that nothing else holds. Anything else
    /// happens on an end of a channel that allows it.
    pub open spec fn allows(self, event: SystemEvent) -> bool {
        match event {
            SystemEvent::Create { size, fds } => {
                &&& fds.0 != fds.1
                &&& forall|i: int|
                    0 <= i < self.links.len() ==> !(#[trigger] self.links[i]).holds(fds.0)
                        && !self.links[i].holds(fds.1)
            },
            SystemEvent::On { fd, event } => exists|i: int|
                0 <= i < self.links.len() && (#[trigger] self.links[i]).is_reached(fd, event)
                    && self.links[i].channel.allows(event),
        }
    }

    /// The process after `event`: it happens to every channel that it reaches.
    pub open spec fn after(self, event: SystemEvent) -> System {
        match event {
            SystemEvent::Create { size, fds } => System {
                links: self.links.push(
                    Link { reader: fds.0, writer: fds.1, channel: Channel::new(size) },
                ),
            },
            SystemEvent::On { fd, event } => System {
                links: Seq::new(
                    self.links.len(),
                    |i: int|
                        if self.links[i].is_reached(fd, event) {
                            Link { channel: self.links[i].channel.after(event), ..self.links[i] }
                        } else {
                            self.links[i]
                        },
                ),
            },
        }
    }

    /// The process after `events`, one after the other.
    pub open spec fn after_all(events: Seq<SystemEvent>) -> System
        decreases events.len(),
    {
        if events.len() == 0 {
            System::new()
        } else {
            System::after_all(events.drop_last()).after(events.last())
        }
    }

    /// Whether `events` can happen one after the other in a new process.
    pub open spec fn allows_all(events: Seq<SystemEvent>) -> bool
        decreases events.len(),
    {
        events.len() > 0 ==> {
            &&& System::allows_all(events.drop_last())
            &&& System::after_all(events.drop_last()).allows(events.last())
        }
    }

    /// Whether no file descriptor is held twice.
    pub open spec fn descriptors_differ(self) -> bool {
        &&& forall|i: int|
            0 <= i < self.links.len() && (#[trigger] self.links[i]).channel.sender
                && self.links[i].channel.receiver ==> self.links[i].reader != self.links[i].writer
        &&& forall|i: int, j: int, fd: i32|
            0 <= i < self.links.len() && 0 <= j < self.links.len() && i != j
                && #[trigger] self.links[i].holds(fd) ==> !#[trigger] self.links[j].holds(fd)
    }
}

/// What happened to channel `i` in `events`.
pub open spec fn history(events: Seq<SystemEvent>, i: int) -> Seq<Event>
    decreases events.len(),
{
    if events.len() == 0 {
        Seq::empty()
    } else {
        let before = events.drop_last();
        let system = System::after_all(before);
        match events.last() {
            SystemEvent::On { fd, event } if 0 <= i < system.links.len()
                && system.links[i].is_reached(fd, event) => history(before, i).push(event),
            _ => history(before, i),
        }
    }
}

proof fn lemma_link_after(channel: Channel, event: Event)
    ensures
        channel.after(event).size == channel.size,
        channel.after(event).sender ==> channel.sender,
        channel.after(event).receiver ==> channel.receiver,
{
}

/// The file descriptors of the ends that are not dropped are pairwise distinct.
pub proof fn law_descriptors_differ(events: Seq<SystemEvent>)
    requires
        System::allows_all(events),
    ensures
        System::after_all(events).descriptors_differ(),
    decreases events.len(),
{
    if events.len() > 0 {
        law_descriptors_differ(events.drop_last());
        let system = System::after_all(events.drop_last());
        let next = System::after_all(events);
        if let SystemEvent::On { fd, event } = events.last() {
            assert forall|i: int| 0 <= i < system.links.len() implies {
                &&& (#[trigger] next.links[i]).reader == system.links[i].reader
                &&& next.links[i].writer == system.links[i].writer
                &&& next.links[i].channel.sender ==> system.links[i].channel.sender
                &&& next.links[i].channel.receiver ==> system.links[i].channel.receiver
            } by {
                lemma_link_after(system.links[i].channel, event);
            }
            assert forall|i: int, j: int, fd: i32|
                0 <= i < next.links.len() && 0 <= j < next.links.len() && i != j
                    && #[trigger] next.links[i].holds(fd) implies !#[trigger] next.links[j].holds(
                fd,
            ) by {
                assert(system.links[i].holds(fd));
                if next.links[j].holds(fd) {
                    assert(system.links[j].holds(fd));
                }
            }
        }
    }
}

/// What happens on an end of one channel happens to that channel alone: what is sent,
/// in the pipe and received on every other one stays, and so do its ends.
pub proof fn law_channels_are_independent(
    events: Seq<SystemEvent>,
    fd: i32,
    event: Event,
    i: int,
)
    requires
        System::allows_all(events),
        System::after_all(events).allows(SystemEvent::On { fd, event }),
        0 <= i < System::after_all(events).links.len(),
        System::after_all(events).links[i].is_reached(fd, event),
    ensures
        ({
            let system = System::after_all(events);
            let next = system.after(SystemEvent::On { fd, event });
            &&& next.links.len() == system.links.len()
            &&& system.links[i].channel.allows(event)
            &&& next.links[i].channel == system.links[i].channel.after(event)
            &&& forall|j: int|
                0 <= j < system.links.len() && j != i ==> #[trigger] next.links[j]
                    == system.links[j]
        }),
{
    law_descriptors_differ(events);
    let system = System::after_all(events);
    assert(system.links[i].holds(fd));
    assert forall|j: int| 0 <= j < system.links.len() && j != i implies !(
    #[trigger] system.links[j]).is_reached(fd, event) by {
        assert(!system.links[j].holds(fd));
    }
}

/// A new channel holds no value and has both ends, and the channels before it stay as
/// they were.
pub proof fn law_new_channel_is_empty(events: Seq<SystemEvent>, size: nat, fds: (i32, i32))
    requires
        System::allows_all(events),
        System::after_all(events).allows(SystemEvent::Create { size, fds }),
    ensures
        ({
            let system = System::after_all(events);
            let next = system.after(SystemEvent::Create { size, fds });
            let new = next.links.last();
            &&& next.links.drop_last() == system.links
            &&& next.descriptors_differ()
            &&& new.reader == fds.0 && new.writer == fds.1
            &&& new.channel.size == size && new.channel.sender && new.channel.receiver
            &&& new.channel.pipe.len() == 0 && new.channel.sending is None
            &&& new.channel.sent.len() == 0 && new.channel.received.len() == 0
        }),
{
    let all = events.push(SystemEvent::Create { size, fds });
    assert(all.drop_last() == events);
    law_descriptors_differ(all);
}

/// Each of several channels is as if it were alone: its state comes from its own
/// history, which a single channel allows. So what is received on it was sent on it,
/// in that order.
pub proof fn law_channel_depends_on_its_own_history(events: Seq<SystemEvent>, i: int)
    requires
        System::allows_all(events),
        0 <= i < System::after_all(events).links.len(),
    ensures
        ({
            let channel = System::after_all(events).links[i].channel;
            &&& Channel::new(channel.size).allows_all(history(events, i))
            &&& channel == Channel::new(channel.size).after_all(history(events, i))
            &&& channel.received.len() <= channel.sent.len()
            &&& channel.received == channel.sent.take(channel.received.len() as int)
        }),
{
    lemma_history(events, i);
    let channel = System::after_all(events).links[i].channel;
    law_values_arrive_in_order(channel.size, history(events, i));
}

proof fn lemma_no_history(events: Seq<SystemEvent>, i: int)
    requires
        i >= System::after_all(events).links.len(),
    ensures
        history(events, i) == Seq::<Event>::empty(),
    decreases events.len(),
{
    if events.len() > 0 {
        lemma_no_history(events.drop_last(), i);
    }
}

proof fn lemma_history(events: Seq<SystemEvent>, i: int)
    requires
        System::allows_all(events),
        0 <= i < System::after_all(events).links.len(),
    ensures
        ({
            let channel = System::after_all(events).links[i].channel;
            &&& Channel::new(channel.size).allows_all(history(events, i))
            &&& channel == Channel::new(channel.size).after_all(history(events, i))
        }),
    decreases events.len(),
{
    let before = events.drop_last();
    let system = System::after_all(before);
    match events.last() {
        SystemEvent::Create { size, fds } => {
            if i < system.links.len() {
                lemma_history(before, i);
            } else {
                lemma_no_history(before, i);
            }
        },
        SystemEvent::On { fd, event } => {
            lemma_history(before, i);
            if system.links[i].is_reached(fd, event) {
                law_channels_are_independent(before, fd, event, i);
                lemma_link_after(system.links[i].channel, event);
                assert(history(events, i).drop_last() == history(before, i));
            }
        },
    }
}

} // verus!
