//! The decisions of the event loop: tokens, buffers, answers still to be sent.
use vstd::prelude::*;
use vstd::slice::slice_subrange;

use crate::http::{answer, buffered_message, http_response, route, route_of, whole_message, Route};

verus! {

/// Room for unread bytes of a connection.
pub const KEEP_ALIVE_READ_BUFFER_BYTES: usize = 1_024;

/// The token of the listening socket.
pub const EPOLL_LISTENER_TOKEN: u64 = 0xffff_ffff_ffff_ffff;

/// The bit that marks the token of a control socket.
pub const EPOLL_CONTROL_TOKEN_BIT: u64 = 0x8000_0000_0000_0000;

/// The largest generation.
pub const EPOLL_GENERATION_MASK: u32 = 0x7fff_ffff;

/// Whom an event concerns.
#[derive(Clone, Copy, Debug, PartialEq, Eq, Structural)]
pub enum Owner {
    Listener,
    Control { fd: i32, generation: u32 },
    Client { fd: i32, generation: u32 },
}

/// A descriptor as the low half of a token.
pub open spec fn low_half(fd: i32) -> int {
    if fd < 0 { fd + 0x1_0000_0000 } else { fd as int }
}

/// The token of a client: its generation above its descriptor.
pub open spec fn client_token(fd: i32, generation: u32) -> int {
    generation * 0x1_0000_0000 + low_half(fd)
}

/// The token of a control socket: that of a client with the top bit set.
pub open spec fn control_token(fd: i32, generation: u32) -> int {
    0x8000_0000_0000_0000 + client_token(fd, generation) % 0x8000_0000_0000_0000
}

/// The generation after a generation: one more, and one again after the largest.
pub open spec fn generation_after(current: u32) -> u32 {
    let next = (current + 1) % 0x8000_0000;
    (if next == 0 { 1 } else { next }) as u32
}

/// Whom a token belongs to.
pub open spec fn owner_of(token: u64) -> Owner {
    if token == EPOLL_LISTENER_TOKEN {
        Owner::Listener
    } else if token >= EPOLL_CONTROL_TOKEN_BIT {
        let rest = token - EPOLL_CONTROL_TOKEN_BIT;
        Owner::Control {
            fd: as_descriptor(rest % 0x1_0000_0000),
            generation: (rest / 0x1_0000_0000) as u32,
        }
    } else {
        Owner::Client {
            fd: as_descriptor(token as int % 0x1_0000_0000),
            generation: (token as int / 0x1_0000_0000) as u32,
        }
    }
}

/// The low half of a token as a descriptor.
pub open spec fn as_descriptor(half: int) -> i32 {
    (if half < 0x8000_0000 { half } else { half - 0x1_0000_0000 }) as i32
}

/// The token of a client.
pub fn epoll_client_token(fd: i32, generation: u32) -> (token: u64)
    ensures
        token == client_token(fd, generation),
{
    let half: u64 = if fd < 0 {
        (fd as i64 + 0x1_0000_0000) as u64
    } else {
        fd as u64
    };
    generation as u64 * 0x1_0000_0000 + half
}

/// The token of a control socket.
pub fn epoll_control_token(fd: i32, generation: u32) -> (token: u64)
    ensures
        token == control_token(fd, generation),
{
    EPOLL_CONTROL_TOKEN_BIT + epoll_client_token(fd, generation) % EPOLL_CONTROL_TOKEN_BIT
}

/// The generation after a generation.
pub fn next_epoll_generation(current: u32) -> (next: u32)
    ensures
        next == generation_after(current),
        1 <= next <= EPOLL_GENERATION_MASK,
{
    let next: u32 = current.wrapping_add(1) % 0x8000_0000;
    if next == 0 {
        1
    } else {
        next
    }
}

/// The generation of a new occupant of a slot.
pub fn slot_generation(previous: Option<u32>) -> (generation: u32)
    ensures
        generation == match previous {
            Some(current) => generation_after(current),
            None => 1,
        },
        1 <= generation <= EPOLL_GENERATION_MASK,
{
    match previous {
        Some(current) => next_epoll_generation(current),
        None => 1,
    }
}

fn descriptor(half: u64) -> (fd: i32)
    requires
        half < 0x1_0000_0000,
    ensures
        fd == as_descriptor(half as int),
{
    if half < 0x8000_0000 {
        half as i32
    } else {
        (half as i64 - 0x1_0000_0000) as i32
    }
}

/// Whom a token belongs to.
pub fn token_owner(token: u64) -> (owner: Owner)
    ensures
        owner == owner_of(token),
{
    if token == EPOLL_LISTENER_TOKEN {
        Owner::Listener
    } else if token >= EPOLL_CONTROL_TOKEN_BIT {
        let rest: u64 = token - EPOLL_CONTROL_TOKEN_BIT;
        Owner::Control {
            fd: descriptor(rest % 0x1_0000_0000),
            generation: (rest / 0x1_0000_0000) as u32,
        }
    } else {
        Owner::Client {
            fd: descriptor(token % 0x1_0000_0000),
            generation: (token / 0x1_0000_0000) as u32,
        }
    }
}

/// The token of a client leads back to it, and so does that of a control socket, except the one
/// that is the listener's own.
pub proof fn lemma_tokens_lead_back(fd: i32, generation: u32)
    requires
        generation <= EPOLL_GENERATION_MASK,
    ensures
        owner_of(client_token(fd, generation) as u64) == (Owner::Client { fd, generation }),
        fd != -1 || generation != EPOLL_GENERATION_MASK ==> owner_of(
            control_token(fd, generation) as u64,
        ) == (Owner::Control { fd, generation }),
{
}

/// Two sockets share a token only if both are clients or both are not, and their descriptors and
/// generations agree.
pub proof fn lemma_tokens_differ(fd: i32, generation: u32, other: i32, later: u32)
    requires
        generation <= EPOLL_GENERATION_MASK,
        later <= EPOLL_GENERATION_MASK,
    ensures
        client_token(fd, generation) == client_token(other, later) ==> fd == other && generation
            == later,
        client_token(fd, generation) != control_token(other, later),
{
}

/// A new occupant of a slot has another generation than the one before it, which had one of those
/// that occupants get.
pub proof fn lemma_generation_changes(current: u32)
    requires
        current <= EPOLL_GENERATION_MASK,
    ensures
        generation_after(current) != current,
        1 <= generation_after(current) <= EPOLL_GENERATION_MASK,
{
}

/// How a connection is served.
#[derive(Clone, Copy, Debug, PartialEq, Eq, Structural)]
pub enum Service {
    /// By an event loop, one burst of messages per event.
    EventLoop,
    /// By a worker that stays with it.
    Worker,
    /// For one message only.
    OneShot,
}

/// Whether a connection is closed once an answer is out.
pub open spec fn closes_after(service: Service, route: Route) -> bool {
    match service {
        Service::EventLoop => route == Route::NotFound,
        Service::Worker => false,
        Service::OneShot => true,
    }
}

/// How an attempt to send or receive ended.
#[derive(Clone, Copy, Debug, PartialEq, Eq, Structural)]
pub enum Outcome {
    /// So many bytes went through.
    Moved(usize),
    /// Nothing can be done before the next event.
    WouldBlock,
    /// A signal came; the attempt may be repeated.
    Interrupted,
    /// The socket is broken.
    Failed,
}

/// What to do next with a connection that is being read.
#[derive(Clone, Copy)]
pub enum ReadStep {
    /// Wait for the next event.
    Keep,
    /// Close the connection.
    Close,
    /// Send an answer; close the connection afterwards if so said.
    Send { response: &'static [u8], close_after: bool },
    /// Receive into the free part of the buffer.
    Receive,
}

/// What to do after an attempt to send an answer.
#[derive(Clone, Copy, Debug, PartialEq, Eq, Structural)]
pub enum SendStep {
    /// Try again.
    Again,
    /// Ask to be told when the socket can be written; on failure close the connection.
    WatchWrite,
    /// The answer is out.
    Done,
    /// Close the connection.
    Close,
}

/// What to do next with an answer that is partly sent.
#[derive(Clone, Copy, Debug, PartialEq, Eq, Structural)]
pub enum FlushStep {
    /// Send the rest.
    Send,
    /// Wait until the socket can be written.
    Wait,
    /// Stop asking when the socket can be written; on failure close the connection.
    WatchRead,
    /// Close the connection.
    Close,
}

/// A client connection.
pub struct Conn {
    pub fd: i32,
    pub generation: u32,
    pub active: bool,
    pub buffer: Vec<u8>,
    pub used: usize,
    pub pending: &'static [u8],
    pub pending_offset: usize,
    pub close_after_pending: bool,
}

impl Conn {
    /// The used part lies within the buffer, and the sent part within the answer.
    pub open spec fn wf(&self) -> bool {
        &&& self.buffer@.len() == KEEP_ALIVE_READ_BUFFER_BYTES
        &&& self.used <= self.buffer@.len()
        &&& self.pending_offset <= self.pending@.len()
    }

    /// The bytes that were received and not yet consumed.
    pub open spec fn input(&self) -> Seq<u8> {
        self.buffer@.take(self.used as int)
    }

    /// The bytes that are still to be sent.
    pub open spec fn output(&self) -> Seq<u8> {
        self.pending@.skip(self.pending_offset as int)
    }

    /// The connection has nothing received, nothing to send and nothing to do afterwards.
    pub open spec fn idle(&self) -> bool {
        self.used == 0 && self.pending@.len() == 0 && self.pending_offset == 0
            && !self.close_after_pending
    }

    /// A connection that is in use.
    pub fn new(fd: i32, generation: u32) -> (conn: Conn)
        ensures
            conn.wf(),
            conn.idle(),
            conn.active,
            conn.fd == fd,
            conn.generation == generation,
    {
        let empty: &'static [u8] = "".as_bytes();
        proof {
            lemma_no_bytes();
        }
        Conn {
            fd,
            generation,
            active: true,
            buffer: vec![0u8; KEEP_ALIVE_READ_BUFFER_BYTES],
            used: 0,
            pending: empty,
            pending_offset: 0,
            close_after_pending: false,
        }
    }

    /// A connection that is not in use.
    pub fn inactive() -> (conn: Conn)
        ensures
            conn.wf(),
            conn.idle(),
            !conn.active,
            conn.fd == -1,
            conn.generation == 0,
    {
        let mut conn: Conn = Conn::new(-1, 0);
        conn.active = false;
        conn
    }

    /// Puts a connection to use again.
    pub fn reset(&mut self, fd: i32, generation: u32)
        requires
            old(self).wf(),
        ensures
            final(self).wf(),
            final(self).idle(),
            final(self).active,
            final(self).fd == fd,
            final(self).generation == generation,
    {
        proof {
            lemma_no_bytes();
        }
        self.fd = fd;
        self.generation = generation;
        self.active = true;
        self.used = 0;
        self.pending = "".as_bytes();
        self.pending_offset = 0;
        self.close_after_pending = false;
    }

    /// Takes a connection out of use; its generation stays.
    pub fn deactivate(&mut self)
        requires
            old(self).wf(),
        ensures
            final(self).wf(),
            final(self).idle(),
            !final(self).active,
            final(self).fd == -1,
            final(self).generation == old(self).generation,
    {
        proof {
            lemma_no_bytes();
        }
        self.active = false;
        self.fd = -1;
        self.used = 0;
        self.pending = "".as_bytes();
        self.pending_offset = 0;
        self.close_after_pending = false;
    }

    /// Whether an event concerns the present occupant of the slot.
    pub fn is_current(&self, fd: i32, generation: u32) -> (current: bool)
        ensures
            current == (self.active && self.fd == fd && self.generation == generation),
    {
        self.active && self.fd == fd && self.generation == generation
    }

    /// Drops the first `count` received bytes.
    pub fn consume(&mut self, count: usize)
        requires
            old(self).wf(),
        ensures
            final(self).wf(),
            final(self).input() == if count >= old(self).used {
                Seq::<u8>::empty()
            } else {
                old(self).input().skip(count as int)
            },
            final(self).used == if count >= old(self).used { 0 } else { old(self).used - count },
            same_but_buffer(*old(self), *final(self)),
    {
        if count >= self.used {
            self.used = 0;
            assert(self.input() =~= Seq::<u8>::empty());
            return;
        }
        let ghost before = self.buffer@;
        let rest: usize = self.used - count;
        let mut i: usize = 0;
        while i < rest
            invariant
                i <= rest,
                rest == self.used - count,
                count < self.used <= before.len(),
                self.buffer@.len() == before.len(),
                forall|k: int| 0 <= k < i ==> #[trigger] self.buffer@[k] == before[count + k],
                forall|k: int| i <= k < before.len() ==> #[trigger] self.buffer@[k] == before[k],
                same_but_buffer(*old(self), *self),
                self.used == old(self).used,
            decreases rest - i,
        {
            let byte: u8 = self.buffer[count + i];
            self.buffer[i] = byte;
            i = i + 1;
        }
        self.used = rest;
        assert(self.input() =~= before.take(old(self).used as int).skip(count as int));
    }

    /// The next step of a connection that can be read: answer the first message that is wholly
    /// there, else wait when an answer is under way or, in an event loop, one was given, else receive
    /// more, unless the buffer is full. `score` scores a body.
    pub fn next_read<F: Fn(&[u8]) -> u8>(
        &mut self,
        service: Service,
        responded: bool,
        score: F,
    ) -> (step: ReadStep)
        requires
            old(self).wf(),
            forall|body: &[u8]| #[trigger] score.requires((body,)),
        ensures
            final(self).wf(),
            same_but_buffer(*old(self), *final(self)),
            match whole_message(old(self).input()) {
                Some(message) if old(self).pending@.len() == 0 => {
                    let route = route_of(old(self).input());
                    &&& final(self).input() == old(self).input().skip(message.message_end as int)
                    &&& step matches ReadStep::Send { response, close_after } && close_after == closes_after(
                        service,
                        route,
                    ) && if route == Route::Score {
                        exists|body: &[u8], value: u8| #[trigger]
                            score.ensures((body,), value) && body@ == old(self).input().subrange(
                                message.body_start as int,
                                message.message_end as int,
                            ) && response@ == answer(route, value)
                    } else {
                        response@ == answer(route, 0)
                    }
                },
                _ => {
                    &&& final(self).input() == old(self).input()
                    &&& if old(self).pending@.len() > 0 || (service == Service::EventLoop && responded) {
                        step is Keep
                    } else if old(self).used >= KEEP_ALIVE_READ_BUFFER_BYTES {
                        step is Close
                    } else {
                        step is Receive
                    }
                },
            },
    {
        if self.pending.len() == 0 {
            let input: &[u8] = slice_subrange(self.buffer.as_slice(), 0, self.used);
            assert(input@ =~= self.input());
            if let Some(message) = buffered_message(input) {
                let target: Route = route(input);
                let value: u8 = match target {
                    Route::Score => score(
                        slice_subrange(input, message.body_start, message.message_end),
                    ),
                    _ => 0,
                };
                let response: &'static [u8] = http_response(target, value);
                let close_after: bool = match service {
                    Service::EventLoop => target == Route::NotFound,
                    Service::Worker => false,
                    Service::OneShot => true,
                };
                self.consume(message.message_end);
                assert(self.input() =~= old(self).input().skip(message.message_end as int));
                return ReadStep::Send { response, close_after };
            }
        }
        if self.pending.len() > 0 || (service == Service::EventLoop && responded) {
            ReadStep::Keep
        } else if self.used >= self.buffer.len() {
            ReadStep::Close
        } else {
            ReadStep::Receive
        }
    }

    /// Takes note of an attempt to receive into the free part of the buffer, which the caller has
    /// filled; says whether to go on reading, and if not, whether to keep the connection.
    pub fn received(&mut self, service: Service, outcome: Outcome) -> (step: ReceiveStep)
        requires
            old(self).wf(),
            outcome matches Outcome::Moved(count) ==> count <= old(self).buffer@.len() - old(self).used,
        ensures
            final(self).wf(),
            same_but_buffer(*old(self), *final(self)),
            final(self).buffer@ == old(self).buffer@,
            match outcome {
                Outcome::Moved(count) => if count == 0 {
                    step == ReceiveStep::Close && final(self).used == old(self).used
                } else {
                    step == ReceiveStep::GoOn && final(self).used == old(self).used + count
                },
                Outcome::Interrupted => step == ReceiveStep::GoOn && final(self).used == old(self).used,
                Outcome::WouldBlock => final(self).used == old(self).used && step == if service
                    == Service::EventLoop {
                    ReceiveStep::Keep
                } else {
                    ReceiveStep::Close
                },
                Outcome::Failed => step == ReceiveStep::Close && final(self).used == old(self).used,
            },
    {
        match outcome {
            Outcome::Moved(count) => if count == 0 {
                ReceiveStep::Close
            } else {
                self.used = self.used + count;
                ReceiveStep::GoOn
            },
            Outcome::Interrupted => ReceiveStep::GoOn,
            Outcome::WouldBlock => if service == Service::EventLoop {
                ReceiveStep::Keep
            } else {
                ReceiveStep::Close
            },
            Outcome::Failed => ReceiveStep::Close,
        }
    }

    /// Takes note of an attempt to send a whole answer: what did not go out becomes pending.
    pub fn sent(&mut self, response: &'static [u8], close_after: bool, outcome: Outcome) -> (step: SendStep)
        requires
            old(self).wf(),
            outcome matches Outcome::Moved(count) ==> count <= response@.len(),
        ensures
            final(self).wf(),
            final(self).fd == old(self).fd,
            final(self).generation == old(self).generation,
            final(self).active == old(self).active,
            final(self).buffer@ == old(self).buffer@,
            final(self).used == old(self).used,
            ({
                let kept = match outcome {
                    Outcome::Moved(count) => if 0 < count < response@.len() {
                        Some(count)
                    } else {
                        None
                    },
                    Outcome::WouldBlock => Some(0usize),
                    _ => None,
                };
                &&& match kept {
                    Some(offset) => {
                        &&& step == SendStep::WatchWrite
                        &&& final(self).pending@ == response@
                        &&& final(self).pending_offset == offset
                        &&& final(self).close_after_pending == close_after
                        &&& final(self).output() == response@.skip(offset as int)
                    },
                    None => {
                        &&& final(self).pending@ == old(self).pending@
                        &&& final(self).pending_offset == old(self).pending_offset
                        &&& final(self).close_after_pending == old(self).close_after_pending
                        &&& step == match outcome {
                            Outcome::Moved(count) => if count == response@.len() && !close_after {
                                SendStep::Done
                            } else {
                                SendStep::Close
                            },
                            Outcome::Interrupted => SendStep::Again,
                            _ => SendStep::Close,
                        }
                    },
                }
            }),
    {
        match outcome {
            Outcome::Moved(count) => {
                if count == response.len() {
                    return if close_after {
                        SendStep::Close
                    } else {
                        SendStep::Done
                    };
                }
                if count == 0 {
                    return SendStep::Close;
                }
                self.pending = response;
                self.pending_offset = count;
                self.close_after_pending = close_after;
                SendStep::WatchWrite
            },
            Outcome::WouldBlock => {
                self.pending = response;
                self.pending_offset = 0;
                self.close_after_pending = close_after;
                SendStep::WatchWrite
            },
            Outcome::Interrupted => SendStep::Again,
            Outcome::Failed => SendStep::Close,
        }
    }

    /// The first step of a connection that can be written: send the rest of the answer, or, when
    /// nothing is left, be done with it.
    pub fn next_flush(&mut self) -> (step: FlushStep)
        requires
            old(self).wf(),
        ensures
            final(self).wf(),
            flush_step(*old(self), *final(self), step),
    {
        if self.pending_offset < self.pending.len() {
            return FlushStep::Send;
        }
        proof {
            lemma_no_bytes();
        }
        let close: bool = self.close_after_pending;
        self.pending = "".as_bytes();
        self.pending_offset = 0;
        self.close_after_pending = false;
        if close {
            FlushStep::Close
        } else {
            FlushStep::WatchRead
        }
    }

    /// Takes note of an attempt to send the rest of an answer, and says what to do next.
    pub fn flushed(&mut self, outcome: Outcome) -> (step: FlushStep)
        requires
            old(self).wf(),
            old(self).pending_offset < old(self).pending@.len(),
            outcome matches Outcome::Moved(count) ==> count <= old(self).output().len(),
        ensures
            final(self).wf(),
            outcome matches Outcome::Moved(count) ==> final(self).output() == old(self).output().skip(
                count as int,
            ),
            match outcome {
                Outcome::Moved(count) => if count == 0 {
                    step == FlushStep::Close && unchanged(*old(self), *final(self))
                } else {
                    exists|middle: Conn| #[trigger]
                        flush_step(middle, *final(self), step) && unchanged_but_offset(
                            *old(self),
                            middle,
                        ) && middle.pending_offset == old(self).pending_offset + count
                },
                Outcome::Interrupted => step == FlushStep::Send && unchanged(*old(self), *final(self)),
                Outcome::WouldBlock => step == FlushStep::Wait && unchanged(*old(self), *final(self)),
                Outcome::Failed => step == FlushStep::Close && unchanged(*old(self), *final(self)),
            },
    {
        match outcome {
            Outcome::Moved(count) => {
                let ghost rest = self.output().skip(count as int);
                if count == 0 {
                    assert(self.output() =~= rest);
                    return FlushStep::Close;
                }
                assert(self.pending_offset + count <= self.pending.len());
                self.pending_offset = self.pending_offset + count;
                assert(self.output() =~= rest);
                let step: FlushStep = self.next_flush();
                assert(self.output() =~= rest);
                step
            },
            Outcome::Interrupted => FlushStep::Send,
            Outcome::WouldBlock => FlushStep::Wait,
            Outcome::Failed => FlushStep::Close,
        }
    }
}

/// What to do after an attempt to receive.
#[derive(Clone, Copy, Debug, PartialEq, Eq, Structural)]
pub enum ReceiveStep {
    /// Go on reading.
    GoOn,
    /// Wait for the next event.
    Keep,
    /// Close the connection.
    Close,
}

/// Everything but the received bytes is the same.
pub open spec fn same_but_buffer(before: Conn, after: Conn) -> bool {
    &&& after.fd == before.fd
    &&& after.generation == before.generation
    &&& after.active == before.active
    &&& after.pending@ == before.pending@
    &&& after.pending_offset == before.pending_offset
    &&& after.close_after_pending == before.close_after_pending
}

/// Everything but how much of the answer was sent is the same.
pub open spec fn unchanged_but_offset(before: Conn, after: Conn) -> bool {
    &&& after.fd == before.fd
    &&& after.generation == before.generation
    &&& after.active == before.active
    &&& after.buffer@ == before.buffer@
    &&& after.used == before.used
    &&& after.pending@ == before.pending@
    &&& after.close_after_pending == before.close_after_pending
}

/// Everything is the same.
pub open spec fn unchanged(before: Conn, after: Conn) -> bool {
    unchanged_but_offset(before, after) && after.pending_offset == before.pending_offset
}

/// The next step of a connection that can be written.
pub open spec fn flush_step(before: Conn, after: Conn, step: FlushStep) -> bool {
    if before.pending_offset < before.pending@.len() {
        step == FlushStep::Send && unchanged(before, after)
    } else {
        &&& step == if before.close_after_pending { FlushStep::Close } else { FlushStep::WatchRead }
        &&& after.fd == before.fd
        &&& after.generation == before.generation
        &&& after.active == before.active
        &&& after.buffer@ == before.buffer@
        &&& after.used == before.used
        &&& after.pending@.len() == 0
        &&& after.pending_offset == 0
        &&& !after.close_after_pending
    }
}

/// The empty text has no bytes.
proof fn lemma_no_bytes()
    ensures
        crate::scanning::word(""@).len() == 0,
{
    reveal_strlit("");
    vstd::utf8::is_ascii_chars_encode_utf8(""@);
}

/// What an event says of a connection.
#[derive(Clone, Copy, Debug, PartialEq, Eq, Structural)]
pub struct EventFlags {
    pub broken: bool,
    pub writable: bool,
    pub readable: bool,
    pub peer_closed: bool,
}

/// How far the handling of an event has come.
#[derive(Clone, Copy, Debug, PartialEq, Eq, Structural)]
pub enum EventStage {
    Start,
    Flushed,
    ReadThrough,
}

/// What to do next for an event.
#[derive(Clone, Copy, Debug, PartialEq, Eq, Structural)]
pub enum EventStep {
    Flush,
    Read,
    Close,
    Done,
}

/// What to do next for an event: flush if the socket can be written, then read if it can be read,
/// then close if the peer did; close at once when the socket is broken or a step went wrong.
pub open spec fn event_step(flags: EventFlags, stage: EventStage, fine: bool) -> EventStep {
    if !fine || flags.broken {
        EventStep::Close
    } else if stage == EventStage::Start && flags.writable {
        EventStep::Flush
    } else if stage != EventStage::ReadThrough && flags.readable {
        EventStep::Read
    } else if flags.peer_closed {
        EventStep::Close
    } else {
        EventStep::Done
    }
}

/// What to do next for an event.
pub fn next_event_step(flags: EventFlags, stage: EventStage, fine: bool) -> (step: EventStep)
    ensures
        step == event_step(flags, stage, fine),
{
    if !fine || flags.broken {
        EventStep::Close
    } else if stage == EventStage::Start && flags.writable {
        EventStep::Flush
    } else if stage != EventStage::ReadThrough && flags.readable {
        EventStep::Read
    } else if flags.peer_closed {
        EventStep::Close
    } else {
        EventStep::Done
    }
}

/// What to do next when a whole answer has to go out before anything else.
#[derive(Clone, Copy, Debug, PartialEq, Eq, Structural)]
pub enum SendAllStep {
    /// Send from this offset on.
    From(usize),
    /// Everything is out.
    Done,
    /// The peer takes no more.
    Closed,
    /// The socket is broken.
    Failed,
}

/// What to do after an attempt to send the part of an answer from `offset` on.
pub fn send_all_step(len: usize, offset: usize, outcome: Outcome) -> (step: SendAllStep)
    requires
        offset <= len,
        outcome matches Outcome::Moved(count) ==> count <= len - offset,
    ensures
        step == match outcome {
            Outcome::Moved(count) => if offset + count == len {
                SendAllStep::Done
            } else if count == 0 {
                SendAllStep::Closed
            } else {
                SendAllStep::From((offset + count) as usize)
            },
            Outcome::Interrupted => SendAllStep::From(offset),
            _ => SendAllStep::Failed,
        },
{
    match outcome {
        Outcome::Moved(count) => if offset + count == len {
            SendAllStep::Done
        } else if count == 0 {
            SendAllStep::Closed
        } else {
            SendAllStep::From(offset + count)
        },
        Outcome::Interrupted => SendAllStep::From(offset),
        _ => SendAllStep::Failed,
    }
}

/// Generations count up from one and begin again behind the largest.
pub proof fn lemma_generations(current: u32)
    ensures
        current < 0x7fff_ffff ==> generation_after(current) == current + 1,
        current == 0x7fff_ffff ==> generation_after(current) == 1,
{
}

/// An event loop closes a connection after an answer only if nothing was found, a worker never, and a
/// service for one message always.
pub proof fn lemma_closing(route: Route)
    ensures
        closes_after(Service::EventLoop, route) <==> route == Route::NotFound,
        !closes_after(Service::Worker, route),
        closes_after(Service::OneShot, route),
{
}

/// An event on a broken socket closes it. Else what can be written is flushed first, what can be read
/// is read next, and then the connection is closed if the peer has closed it. Nothing is done twice.
pub proof fn lemma_events(flags: EventFlags, stage: EventStage)
    ensures
        event_step(flags, stage, false) == EventStep::Close,
        flags.broken ==> event_step(flags, stage, true) == EventStep::Close,
        !flags.broken && flags.writable ==> event_step(flags, EventStage::Start, true) == EventStep::Flush,
        !flags.broken && !flags.writable ==> event_step(flags, EventStage::Start, true) == event_step(
            flags,
            EventStage::Flushed,
            true,
        ),
        !flags.broken && flags.readable ==> event_step(flags, EventStage::Flushed, true) == EventStep::Read,
        !flags.broken && !flags.readable ==> event_step(flags, EventStage::Flushed, true) == event_step(
            flags,
            EventStage::ReadThrough,
            true,
        ),
        !flags.broken ==> event_step(flags, EventStage::ReadThrough, true) == if flags.peer_closed {
            EventStep::Close
        } else {
            EventStep::Done
        },
{
}

/// The token of a client is its generation and its descriptor side by side, and the token of a control
/// socket has the top bit on top.
pub proof fn lemma_token_halves(fd: i32, generation: u32)
    requires
        generation <= 0x7fff_ffff,
    ensures
        client_token(fd, generation) / 0x1_0000_0000 == generation,
        client_token(fd, generation) % 0x1_0000_0000 == if fd >= 0 { fd as int } else { fd + 0x1_0000_0000 },
        control_token(fd, generation) == client_token(fd, generation) + 0x8000_0000_0000_0000,
{
}

/// A connection whose answer is not all out goes on sending; else it has nothing left to send, and is
/// closed if that was wanted.
pub proof fn lemma_flushing(before: Conn, after: Conn, step: FlushStep)
    requires
        before.wf(),
        flush_step(before, after, step),
    ensures
        step == FlushStep::Send <==> before.output().len() > 0,
        after.output() == before.output(),
        after.input() == before.input(),
        after.fd == before.fd && after.generation == before.generation && after.active == before.active,
        before.output().len() == 0 ==> after.pending@.len() == 0 && !after.close_after_pending && step == if before.close_after_pending {
            FlushStep::Close
        } else {
            FlushStep::WatchRead
        },
{
    assert(after.output() =~= before.output());
    assert(after.input() =~= before.input());
}

} // verus!
