//! Reading from a module.
//!
//! A read is a sequence of requests, each of which is answered by one or more datagrams. Between the
//! steps of a read the network is at work: `Communicator::read_step` takes what happened there and
//! tells what to do next.
use vstd::prelude::*;
use vstd::slice::slice_subrange;

use crate::communicator::{extend_reversed, wrapping_add, CommState, Communicator};
use crate::decode::{burst_after, decodable, decode, NocPacket, Packet};
use crate::packet::{
    encode_packet, le_bytes, packet, to_le_bytes, FPGAModule, Mode, NOC_PACKET_LEN,
};
use crate::transmit::{filled, unfilled, SendStep, Transmission, TransmissionState};

verus! {

/// Number of bytes that one request asks for at most. Longer requests overrun the host.
pub const MAX_READ_REQ_LEN: usize = 24576;

/// Number of failed requests for the same address after which a read gives up.
pub const MAX_READ_RETRIES: usize = 3;

/// Number of seconds to wait for a datagram.
pub const READ_TIMEOUT_SECS: u64 = 1;

/// Number of milliseconds to wait for each datagram that is dropped after a failed request.
pub const DRAIN_TIMEOUT_MILLIS: u64 = 100;

/// How the packets of a datagram went into a response.
#[derive(Debug, Clone, Copy, PartialEq, Eq, Structural)]
pub enum ResponseEnd {
    /// All of them were used or ignored.
    Consumed,
    /// One of them was a posted write, so that the datagram was kept for later.
    Kept,
    /// One of them has an unknown mode or answers another request.
    Invalid,
    /// One of them has no meaning, or there are bytes behind the last one.
    Broken,
}

/// What a datagram contributes to the response to a request.
pub struct Response {
    /// The burst after the datagram.
    pub burst: Option<(u8, bool)>,
    /// The id that the next packet of the response has.
    pub next_id: u32,
    /// The bytes that were read.
    pub data: Seq<u8>,
    pub end: ResponseEnd,
}

impl Response {
    /// The same with `bytes` in front of what was read.
    pub open spec fn prepend(self, bytes: Seq<u8>) -> Response {
        Response { data: bytes + self.data, ..self }
    }
}

/// Whether packets of this mode answer read requests.
pub open spec fn is_response(mode: Mode) -> bool {
    mode == Mode::ReadResp || mode == Mode::ARQReadResp
}

/// What the packet at the start of `bytes` contributes to a response whose next packet has the id
/// `id`.
///
/// Packets that are no responses are ignored, and so is the start of a burst, but for its id.
#[verifier::opaque]
pub open spec fn packet_response(burst: Option<(u8, bool)>, id: u32, bytes: Seq<u8>) -> Response {
    let after = burst_after(burst, bytes);
    let ignored = Response {
        burst: after,
        next_id: id,
        data: Seq::empty(),
        end: ResponseEnd::Consumed,
    };
    if !decodable(burst, bytes) {
        Response { burst, end: ResponseEnd::Broken, ..ignored }
    } else {
        match decode(burst, bytes) {
            None => Response { end: ResponseEnd::Invalid, ..ignored },
            Some(Packet::Normal(_, mode, addr, data)) => if mode == Mode::WritePosted {
                Response { burst, end: ResponseEnd::Kept, ..ignored }
            } else if !is_response(mode) {
                ignored
            } else if addr != id {
                Response { end: ResponseEnd::Invalid, ..ignored }
            } else if after is Some {
                ignored
            } else {
                used(after, id, data)
            },
            Some(Packet::Burst(data)) => used(after, id, data),
        }
    }
}

/// The contribution of a packet whose data is used.
pub open spec fn used(after: Option<(u8, bool)>, id: u32, data: Seq<u8>) -> Response {
    Response {
        burst: after,
        next_id: wrapping_add(id, data.len() as int),
        data: data.reverse(),
        end: ResponseEnd::Consumed,
    }
}

/// What the packets in `bytes` contribute to a response whose next packet has the id `id`.
pub open spec fn response(burst: Option<(u8, bool)>, id: u32, bytes: Seq<u8>) -> Response
    decreases bytes.len(),
{
    if bytes.len() < 18 {
        Response {
            burst,
            next_id: id,
            data: Seq::empty(),
            end: if bytes.len() == 0 {
                ResponseEnd::Consumed
            } else {
                ResponseEnd::Broken
            },
        }
    } else {
        let first = packet_response(burst, id, bytes);
        if first.end == ResponseEnd::Consumed {
            response(first.burst, first.next_id, bytes.skip(18)).prepend(first.data)
        } else {
            first
        }
    }
}

/// Why a request failed.
#[derive(Debug, Clone, Copy, PartialEq, Eq, Structural)]
pub enum ReadFailure {
    /// A datagram could not be sent or received.
    Io,
    /// The response is not one to the request.
    InvalidData,
}

/// How far a read has got.
#[derive(Debug, Clone, Copy, PartialEq, Eq, Structural)]
pub enum Phase {
    /// It has not begun.
    Ready,
    /// A datagram is being sent.
    Sending,
    /// A datagram is being received.
    Receiving,
    /// A request has failed, and all datagrams that still arrive are being dropped.
    Draining(ReadFailure),
    /// It is over.
    Closed,
}

/// What happened on the network.
#[derive(Debug)]
pub enum ReadEvent<'a> {
    /// Nothing yet: the read begins.
    Start,
    /// The datagram was sent.
    Sent,
    /// The datagram could not be sent.
    SendFailed,
    /// A datagram was received.
    Datagram(&'a [u8]),
    /// No datagram could be received.
    ReceiveFailed,
    /// All datagrams that still arrived were dropped.
    Drained,
}

/// The mathematical value of a `ReadEvent`.
pub enum ReadEventState {
    Start,
    Sent,
    SendFailed,
    Datagram(Seq<u8>),
    ReceiveFailed,
    Drained,
}

impl<'a> View for ReadEvent<'a> {
    type V = ReadEventState;

    open spec fn view(&self) -> ReadEventState {
        match self {
            ReadEvent::Start => ReadEventState::Start,
            ReadEvent::Sent => ReadEventState::Sent,
            ReadEvent::SendFailed => ReadEventState::SendFailed,
            ReadEvent::Datagram(bytes) => ReadEventState::Datagram(bytes@),
            ReadEvent::ReceiveFailed => ReadEventState::ReceiveFailed,
            ReadEvent::Drained => ReadEventState::Drained,
        }
    }
}

/// What a read needs next.
#[derive(Debug)]
pub enum ReadStep {
    /// Send this datagram.
    Send(Vec<u8>),
    /// Receive a datagram.
    Receive,
    /// The request has failed: receive and drop datagrams until there are no more.
    Drain(ReadFailure),
    /// The read is over, and this was read.
    Done(Vec<u8>),
    /// The read is over: too many requests have failed, the last one for this reason.
    Failed(ReadFailure),
    /// The read is over: the device sent what no sound device sends.
    Broken,
}

/// The mathematical value of a `ReadStep`.
pub enum ReadStepState {
    Send(Seq<u8>),
    Receive,
    Drain(ReadFailure),
    Done(Seq<u8>),
    Failed(ReadFailure),
    Broken,
}

impl View for ReadStep {
    type V = ReadStepState;

    open spec fn view(&self) -> ReadStepState {
        match self {
            ReadStep::Send(datagram) => ReadStepState::Send(datagram@),
            ReadStep::Receive => ReadStepState::Receive,
            ReadStep::Drain(failure) => ReadStepState::Drain(*failure),
            ReadStep::Done(bytes) => ReadStepState::Done(bytes@),
            ReadStep::Failed(failure) => ReadStepState::Failed(*failure),
            ReadStep::Broken => ReadStepState::Broken,
        }
    }
}

/// The mathematical value of a `Read`.
#[verifier::ext_equal]
pub struct ReadState {
    pub target: FPGAModule,
    pub mode: Mode,
    /// Where to read next.
    pub addr: u32,
    /// Number of bytes that are still to be read.
    pub len: int,
    /// What was read so far. What a failed request had brought already stays in it.
    pub res: Seq<u8>,
    /// Number of failed requests for `last_addr` that count.
    pub retries: int,
    /// The address at which a request failed last; at first, the start address.
    pub last_addr: u32,
    pub phase: Phase,
    /// The packets of the request that are still to be sent.
    pub request: TransmissionState,
    /// The id that the next packet of the response has.
    pub req_id: u32,
    /// Number of bytes that the request asks for.
    pub want: int,
    /// Length of `res` when the request was made.
    pub start: int,
}

/// A read that is going on.
pub struct Read {
    target: FPGAModule,
    mode: Mode,
    addr: u32,
    len: usize,
    res: Vec<u8>,
    retries: usize,
    last_addr: u32,
    phase: Phase,
    request: Transmission,
    req_id: u32,
    want: usize,
    start: usize,
}

impl View for Read {
    type V = ReadState;

    closed spec fn view(&self) -> ReadState {
        ReadState {
            target: self.target,
            mode: self.mode,
            addr: self.addr,
            len: self.len as int,
            res: self.res@,
            retries: self.retries as int,
            last_addr: self.last_addr,
            phase: self.phase,
            request: self.request@,
            req_id: self.req_id,
            want: self.want as int,
            start: self.start as int,
        }
    }
}

/// The mode of a read request, which depends on whether the NoC is to acknowledge it.
pub open spec fn read_mode(nocarq: bool) -> Mode {
    if nocarq {
        Mode::ARQReadReq
    } else {
        Mode::ReadReq
    }
}

/// Number of bytes that the next request asks for.
pub open spec fn request_len(len: int) -> int {
    if len < MAX_READ_REQ_LEN {
        len
    } else {
        MAX_READ_REQ_LEN as int
    }
}

/// The packet that requests `want` bytes at `addr` under the id `id`.
pub open spec fn request_packet(target: FPGAModule, mode: Mode, addr: u32, want: int, id: u32) -> Seq<
    u8,
> {
    packet(target, false, 0xFF, addr, le_bytes((want * 0x1_0000_0000 + id) as u64), mode)
}

impl ReadState {
    /// A read of `len` bytes at `addr` that has not begun.
    pub open spec fn initial(target: FPGAModule, addr: u32, len: int, nocarq: bool) -> ReadState {
        ReadState {
            target,
            mode: read_mode(nocarq),
            addr,
            len,
            res: Seq::empty(),
            retries: 0,
            last_addr: addr,
            phase: Phase::Ready,
            request: TransmissionState { packets: Seq::empty(), amount: 0 },
            req_id: 0,
            want: 0,
            start: 0,
        }
    }

    /// The bytes that are still to be read have addresses, there are retries left, no request has
    /// failed at an address that is still to come, and a request that is going on asks for bytes that
    /// are still to be read and has not brought all of them.
    pub open spec fn wf(self) -> bool {
        &&& 0 <= self.len
        &&& self.addr + self.len <= u32::MAX
        &&& 0 <= self.retries < MAX_READ_RETRIES
        &&& self.last_addr <= self.addr
        &&& self.phase is Draining ==> self.len > 0
        &&& self.phase is Sending || self.phase is Receiving ==> {
            &&& self.len > 0
            &&& self.want == request_len(self.len)
            &&& 0 <= self.start <= self.res.len() < self.start + self.want
        }
    }

    /// Whether `event` can happen in this phase.
    pub open spec fn expects(self, event: ReadEventState) -> bool {
        match event {
            ReadEventState::Start => self.phase is Ready,
            ReadEventState::Sent => self.phase is Sending,
            ReadEventState::SendFailed => self.phase is Sending,
            ReadEventState::Datagram(_) => self.phase is Receiving,
            ReadEventState::ReceiveFailed => self.phase is Receiving,
            ReadEventState::Drained => self.phase is Draining,
        }
    }
}

/// The state after a step, and what is needed next.
#[verifier::ext_equal]
pub struct ReadNext {
    pub comm: CommState,
    pub read: ReadState,
    pub step: ReadStepState,
}

/// Goes on with sending the request; once it is sent, its response is to be received.
pub open spec fn pump(comm: CommState, read: ReadState) -> ReadNext {
    let buf = filled(comm.send_buf, read.request.packets);
    let request = TransmissionState {
        packets: unfilled(comm.send_buf, read.request.packets),
        ..read.request
    };
    ReadNext {
        comm: CommState { send_buf: buf, ..comm },
        read: ReadState {
            request,
            phase: if buf.len() == 0 {
                Phase::Receiving
            } else {
                Phase::Sending
            },
            ..read
        },
        step: if buf.len() == 0 {
            ReadStepState::Receive
        } else {
            ReadStepState::Send(buf)
        },
    }
}

/// Makes the next request.
pub open spec fn begin(comm: CommState, read: ReadState) -> ReadNext {
    let id = comm.next_req_id;
    let want = request_len(read.len);
    let request = request_packet(read.target, read.mode, read.addr, want, id);
    pump(
        CommState { next_req_id: wrapping_add(id, 1), ..comm },
        ReadState {
            request: TransmissionState { packets: seq![request], amount: 0 },
            req_id: id,
            want,
            start: read.res.len() as int,
            ..read
        },
    )
}

/// Ends the read if everything was read, and makes the next request otherwise.
pub open spec fn proceed(comm: CommState, read: ReadState) -> ReadNext {
    if read.len == 0 {
        ReadNext {
            comm,
            read: ReadState { res: Seq::empty(), phase: Phase::Closed, ..read },
            step: ReadStepState::Done(read.res),
        }
    } else {
        begin(comm, read)
    }
}

/// Gives the request up.
pub open spec fn fail(comm: CommState, read: ReadState, failure: ReadFailure) -> ReadNext {
    ReadNext {
        comm,
        read: ReadState { phase: Phase::Draining(failure), ..read },
        step: ReadStepState::Drain(failure),
    }
}

/// Gives the read up because of what the device sent.
pub open spec fn break_off(comm: CommState, read: ReadState) -> ReadNext {
    ReadNext {
        comm,
        read: ReadState { phase: Phase::Closed, ..read },
        step: ReadStepState::Broken,
    }
}

/// Uses a datagram for the response.
pub open spec fn absorb(comm: CommState, read: ReadState, bytes: Seq<u8>) -> ReadNext {
    let got = response(comm.burst, read.req_id, bytes);
    let comm = CommState {
        burst: got.burst,
        received: if got.end == ResponseEnd::Kept {
            comm.received.push(bytes)
        } else {
            comm.received
        },
        ..comm
    };
    let read = ReadState { res: read.res + got.data, req_id: got.next_id, ..read };
    let count = read.res.len() - read.start;
    if got.end == ResponseEnd::Broken {
        break_off(comm, read)
    } else if got.end == ResponseEnd::Invalid {
        fail(comm, read, ReadFailure::InvalidData)
    } else if count < read.want {
        ReadNext { comm, read, step: ReadStepState::Receive }
    } else if count > read.want {
        break_off(comm, read)
    } else {
        proceed(
            comm,
            ReadState {
                addr: (read.addr + read.want) as u32,
                len: read.len - read.want,
                ..read
            },
        )
    }
}

/// Makes a failed request anew, unless requests for its address have failed too often.
pub open spec fn retry(comm: CommState, read: ReadState, failure: ReadFailure) -> ReadNext {
    if read.last_addr != read.addr {
        begin(comm, ReadState { retries: 0, last_addr: read.addr, ..read })
    } else if read.retries + 1 < MAX_READ_RETRIES {
        begin(comm, ReadState { retries: read.retries + 1, ..read })
    } else {
        ReadNext {
            comm,
            read: ReadState { phase: Phase::Closed, ..read },
            step: ReadStepState::Failed(failure),
        }
    }
}

/// What a read does when `event` happens.
pub open spec fn read_next(comm: CommState, read: ReadState, event: ReadEventState) -> ReadNext {
    match event {
        ReadEventState::Start => proceed(comm, read),
        ReadEventState::Sent => pump(CommState { send_buf: Seq::empty(), ..comm }, read),
        ReadEventState::SendFailed => fail(comm, read, ReadFailure::Io),
        ReadEventState::Datagram(bytes) => absorb(comm, read, bytes),
        ReadEventState::ReceiveFailed => fail(comm, read, ReadFailure::Io),
        ReadEventState::Drained => retry(comm, read, read.phase->Draining_0),
    }
}

impl Communicator {
    /// Begins to read `len` bytes at address `addr` of `target`.
    ///
    /// The first step of the read is made with `ReadEvent::Start`.
    pub fn read(&self, target: FPGAModule, addr: u32, len: usize, nocarq: bool) -> (read: Read)
        requires
            addr + len <= u32::MAX,
        ensures
            read@ == ReadState::initial(target, addr, len as int, nocarq),
            read@.wf(),
    {
        let read = Read {
            target,
            mode: if nocarq {
                Mode::ARQReadReq
            } else {
                Mode::ReadReq
            },
            addr,
            len,
            res: Vec::with_capacity(len),
            retries: 0,
            last_addr: addr,
            phase: Phase::Ready,
            request: Transmission::new(),
            req_id: 0,
            want: 0,
            start: 0,
        };
        assert(read@ =~= ReadState::initial(target, addr, len as int, nocarq));
        read
    }

    /// Uses the packet at the start of `bytes` for the response whose next packet has the id `id`,
    /// and appends what was read to `res`. Returns the next id as well.
    fn read_packet(&mut self, id: u32, res: &mut Vec<u8>, bytes: &[u8]) -> (out: (u32, ResponseEnd))
        requires
            old(self).wf(),
            bytes@.len() >= 18,
        ensures
            final(self).wf(),
            ({
                let got = packet_response(old(self)@.burst, id, bytes@);
                &&& out.0 == got.next_id
                &&& out.1 == got.end
                &&& final(res)@ == old(res)@ + got.data
                &&& final(self)@ == (CommState { burst: got.burst, ..old(self)@ })
            }),
    {
        reveal(packet_response);
        let old_burst = self.burst();
        assert(res@ + Seq::<u8>::empty() =~= res@);
        if !self.is_decodable(bytes) {
            return (id, ResponseEnd::Broken);
        }
        match self.decode_packet(bytes) {
            Err(_) => (id, ResponseEnd::Invalid),
            Ok(NocPacket::Normal((_, mode, addr, data))) => {
                if mode == Mode::WritePosted {
                    // keep the packet for later
                    self.restore_burst(old_burst);
                    (id, ResponseEnd::Kept)
                } else if mode != Mode::ReadResp && mode != Mode::ARQReadResp {
                    // ignore other packets
                    (id, ResponseEnd::Consumed)
                } else if addr != id {
                    // sometimes there is a delayed response for an earlier request; stop here
                    (id, ResponseEnd::Invalid)
                } else if self.burst().is_some() {
                    (id, ResponseEnd::Consumed)
                } else {
                    extend_reversed(res, data);
                    (id.wrapping_add(data.len() as u32), ResponseEnd::Consumed)
                }
            },
            Ok(NocPacket::Burst(data)) => {
                extend_reversed(res, data);
                (id.wrapping_add(data.len() as u32), ResponseEnd::Consumed)
            },
        }
    }

    /// Uses the packets of `datagram` for the response whose next packet has the id `id`, and
    /// appends what was read to `res`. Returns the next id as well.
    pub fn read_packets(&mut self, id: u32, res: &mut Vec<u8>, datagram: &[u8]) -> (out: (
        u32,
        ResponseEnd,
    ))
        requires
            old(self).wf(),
        ensures
            final(self).wf(),
            ({
                let got = response(old(self)@.burst, id, datagram@);
                &&& out.0 == got.next_id
                &&& out.1 == got.end
                &&& final(res)@ == old(res)@ + got.data
                &&& final(self)@ == (CommState {
                    burst: got.burst,
                    received: if got.end == ResponseEnd::Kept {
                        old(self)@.received.push(datagram@)
                    } else {
                        old(self)@.received
                    },
                    ..old(self)@
                })
            }),
    {
        let size: usize = datagram.len();
        let mut pos: usize = 0;
        let mut next_id: u32 = id;
        let ghost all = response(self@.burst, id, datagram@);
        let ghost mut data: Seq<u8> = Seq::empty();
        proof {
            assert(datagram@.skip(0) =~= datagram@);
            assert(data + all.data =~= all.data);
            assert(res@ =~= old(res)@ + data);
        }
        while size - pos >= NOC_PACKET_LEN
            invariant
                self.wf(),
                size == datagram@.len(),
                pos <= size,
                self@ == (CommState { burst: self@.burst, ..old(self)@ }),
                res@ == old(res)@ + data,
                all == response(old(self)@.burst, id, datagram@),
                all == response(self@.burst, next_id, datagram@.skip(pos as int)).prepend(data),
            decreases size - pos,
        {
            let rest = slice_subrange(datagram, pos, size);
            let ghost first = packet_response(self@.burst, next_id, rest@);
            let ghost more = response(first.burst, first.next_id, rest@.skip(18));
            proof {
                assert(rest@ =~= datagram@.skip(pos as int));
                assert(rest@.skip(18) =~= datagram@.skip(pos + 18));
                lemma_grow(old(res)@, data, first.data, more.data);
            }
            let (after_id, end) = self.read_packet(next_id, res, rest);
            proof {
                data = data + first.data;
            }
            next_id = after_id;
            match end {
                ResponseEnd::Consumed => {},
                ResponseEnd::Kept => {
                    // go to the next datagram
                    self.keep_datagram(datagram);
                    return (next_id, end);
                },
                _ => {
                    return (next_id, end);
                },
            }
            pos = pos + NOC_PACKET_LEN;
        }
        proof {
            assert(data + Seq::<u8>::empty() =~= data);
        }
        if pos == size {
            (next_id, ResponseEnd::Consumed)
        } else {
            (next_id, ResponseEnd::Broken)
        }
    }

    /// Goes on with sending the request.
    fn read_pump(&mut self, read: &mut Read) -> (step: ReadStep)
        requires
            old(self).wf(),
        ensures
            final(self).wf(),
            (ReadNext { comm: final(self)@, read: final(read)@, step: step@ }) == pump(
                old(self)@,
                old(read)@,
            ),
    {
        match self.transmit(&mut read.request) {
            SendStep::Send(datagram) => {
                read.phase = Phase::Sending;
                ReadStep::Send(datagram)
            },
            SendStep::Done(_) => {
                read.phase = Phase::Receiving;
                ReadStep::Receive
            },
        }
    }

    /// Makes the next request.
    fn read_begin(&mut self, read: &mut Read) -> (step: ReadStep)
        requires
            old(self).wf(),
            old(read)@.len > 0,
        ensures
            final(self).wf(),
            (ReadNext { comm: final(self)@, read: final(read)@, step: step@ }) == begin(
                old(self)@,
                old(read)@,
            ),
    {
        let id: u32 = self.take_req_id();
        let want: usize = if read.len < MAX_READ_REQ_LEN {
            read.len
        } else {
            MAX_READ_REQ_LEN
        };
        let word: u64 = want as u64 * 0x1_0000_0000 + id as u64;
        let word_bytes: [u8; 8] = to_le_bytes(word);
        let mut request = Transmission::new();
        request.push(
            encode_packet(
                read.target,
                false,
                0xFF,
                read.addr,
                word_bytes.as_slice(),
                read.mode,
            ),
        );
        assert(request@.packets =~= seq![
            request_packet(read.target, read.mode, read.addr, want as int, id),
        ]);
        read.request = request;
        read.req_id = id;
        read.want = want;
        read.start = read.res.len();
        self.read_pump(read)
    }

    /// Ends the read if everything was read, and makes the next request otherwise.
    fn read_proceed(&mut self, read: &mut Read) -> (step: ReadStep)
        requires
            old(self).wf(),
            old(read)@.len >= 0,
        ensures
            final(self).wf(),
            (ReadNext { comm: final(self)@, read: final(read)@, step: step@ }) == proceed(
                old(self)@,
                old(read)@,
            ),
    {
        if read.len == 0 {
            let mut res: Vec<u8> = Vec::new();
            std::mem::swap(&mut res, &mut read.res);
            read.phase = Phase::Closed;
            ReadStep::Done(res)
        } else {
            self.read_begin(read)
        }
    }

    /// Uses a datagram for the response.
    fn read_absorb(&mut self, read: &mut Read, datagram: &[u8]) -> (step: ReadStep)
        requires
            old(self).wf(),
            old(read)@.wf(),
            old(read)@.phase is Receiving,
        ensures
            final(self).wf(),
            (ReadNext { comm: final(self)@, read: final(read)@, step: step@ }) == absorb(
                old(self)@,
                old(read)@,
                datagram@,
            ),
    {
        let (req_id, end) = self.read_packets(read.req_id, &mut read.res, datagram);
        read.req_id = req_id;
        match end {
            ResponseEnd::Broken => {
                read.phase = Phase::Closed;
                ReadStep::Broken
            },
            ResponseEnd::Invalid => {
                read.phase = Phase::Draining(ReadFailure::InvalidData);
                ReadStep::Drain(ReadFailure::InvalidData)
            },
            _ => {
                let count: usize = read.res.len() - read.start;
                if count < read.want {
                    ReadStep::Receive
                } else if count > read.want {
                    read.phase = Phase::Closed;
                    ReadStep::Broken
                } else {
                    read.addr = read.addr + read.want as u32;
                    read.len = read.len - read.want;
                    self.read_proceed(read)
                }
            },
        }
    }

    /// Makes a failed request anew, or gives up.
    fn read_retry(&mut self, read: &mut Read, failure: ReadFailure) -> (step: ReadStep)
        requires
            old(self).wf(),
            old(read)@.wf(),
            old(read)@.len > 0,
        ensures
            final(self).wf(),
            (ReadNext { comm: final(self)@, read: final(read)@, step: step@ }) == retry(
                old(self)@,
                old(read)@,
                failure,
            ),
    {
        if read.last_addr != read.addr {
            read.retries = 0;
            read.last_addr = read.addr;
            self.read_begin(read)
        } else if read.retries + 1 < MAX_READ_RETRIES {
            read.retries = read.retries + 1;
            self.read_begin(read)
        } else {
            // give up if the error persists for the same address
            read.phase = Phase::Closed;
            ReadStep::Failed(failure)
        }
    }

    /// Makes one step of a read: takes what happened on the network and tells what to do next.
    pub fn read_step(&mut self, read: &mut Read, event: ReadEvent) -> (step: ReadStep)
        requires
            old(self).wf(),
            old(read)@.wf(),
            old(read)@.expects(event@),
        ensures
            final(self).wf(),
            final(read)@.wf(),
            (ReadNext { comm: final(self)@, read: final(read)@, step: step@ }) == read_next(
                old(self)@,
                old(read)@,
                event@,
            ),
    {
        match event {
            ReadEvent::Start => self.read_proceed(read),
            ReadEvent::Sent => {
                self.packets_sent();
                self.read_pump(read)
            },
            ReadEvent::SendFailed => {
                read.phase = Phase::Draining(ReadFailure::Io);
                ReadStep::Drain(ReadFailure::Io)
            },
            ReadEvent::Datagram(datagram) => self.read_absorb(read, datagram),
            ReadEvent::ReceiveFailed => {
                read.phase = Phase::Draining(ReadFailure::Io);
                ReadStep::Drain(ReadFailure::Io)
            },
            ReadEvent::Drained => {
                let failure: ReadFailure = match read.phase {
                    Phase::Draining(failure) => failure,
                    _ => ReadFailure::Io,
                };
                self.read_retry(read, failure)
            },
        }
    }
}

/// Bytes can be moved from those to come to those that are done.
proof fn lemma_grow(before: Seq<u8>, done: Seq<u8>, next: Seq<u8>, more: Seq<u8>)
    ensures
        done + (next + more) == done + next + more,
        before + (done + next) == before + done + next,
{
    assert(done + (next + more) =~= done + next + more);
    assert(before + (done + next) =~= before + done + next);
}

} // verus!
