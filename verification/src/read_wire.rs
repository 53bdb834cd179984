//! What a read sends and reads, told from the bytes of the packets, and what it does at each event.
use vstd::prelude::*;

use crate::communicator::CommState;
use crate::decode::{decode, Packet};
use crate::laws::law_le_bytes;
use crate::packet::{le_bytes, FPGAModule, Mode};
use crate::read::{
    begin, packet_response, read_next, request_packet, response, Phase, ReadEvent, ReadEventState,
    ReadFailure, ReadState, ReadStep, ReadStepState, ResponseEnd,
};
use crate::read_laws::requests_needed;
use crate::read_requests::{first_requests, nth_request};
use crate::receive_wire::lemma_join_flits;
use crate::wire::{
    address, data_word, from_host, law_flit_wire, law_mode_numbers, law_normal_wire,
    law_packet_wire,
};

verus! {

/// A request leads to the target and the address, and its data tells the number of bytes in the upper
/// half and the id in the lower one.
pub proof fn law_request_wire(target: FPGAModule, mode: Mode, addr: u32, want: int, id: u32)
    requires
        0 <= want <= 0xFFFF_FFFF,
    ensures
        ({
            let p = request_packet(target, mode, addr, want, id);
            &&& from_host(p, target, mode.number() as int)
            &&& p[0] == 0
            &&& p[1] == 0xFF
            &&& address(p) == addr
            &&& data_word(p) == want * 0x1_0000_0000 + id
        }),
{
    let value = (want * 0x1_0000_0000 + id) as u64;
    let word = le_bytes(value);
    let p = request_packet(target, mode, addr, want, id);
    law_packet_wire(target, false, 0xFF, addr, word, mode);
    law_le_bytes(value);
    assert(word[0] == p[17] && word[1] == p[16] && word[2] == p[15] && word[3] == p[14]);
    assert(word[4] == p[13] && word[5] == p[12] && word[6] == p[11] && word[7] == p[10]);
}

/// The requests of a read lead to the target, each to an address that is 24576 behind that of the one
/// before it, with ids that count up. Each asks for 24576 bytes, the last one for those that are left,
/// and their mode tells whether they ask for an acknowledgement.
pub proof fn law_requests_wire(
    comm: CommState,
    target: FPGAModule,
    addr: u32,
    len: int,
    nocarq: bool,
    i: int,
)
    requires
        0 <= i,
        24576 * i < len,
        addr + len <= 0xFFFF_FFFF,
    ensures
        ({
            let n = requests_needed(len);
            let p = first_requests(comm, target, addr, len, nocarq, n)[i];
            let left = len - 24576 * i;
            &&& n == (len + 24575) / 24576
            &&& first_requests(comm, target, addr, len, nocarq, n).len() == n
            &&& i < n
            &&& from_host(
                p,
                target,
                if nocarq {
                    10
                } else {
                    0
                },
            )
            &&& p[0] == 0
            &&& p[1] == 0xFF
            &&& address(p) == addr + 24576 * i
            &&& data_word(p) == (if left < 24576 {
                left
            } else {
                24576
            }) * 0x1_0000_0000 + (comm.next_req_id + i) % 0x1_0000_0000
        }),
{
    reveal(requests_needed);
    let left = len - 24576 * i;
    law_mode_numbers(0);
    let want = if left < 24576 {
        left
    } else {
        24576
    };
    let mode = if nocarq {
        Mode::ARQReadReq
    } else {
        Mode::ReadReq
    };
    let id = ((comm.next_req_id + i) % 0x1_0000_0000) as u32;
    assert(nth_request(comm, target, addr, len, nocarq, i) == request_packet(
        target,
        mode,
        (addr + 24576 * i) as u32,
        want,
        id,
    ));
    law_request_wire(target, mode, (addr + 24576 * i) as u32, want, id);
}

/// A response ends with the last byte of a packet; otherwise, the device is not sound.
pub proof fn law_response_rest(burst: Option<(u8, bool)>, id: u32, p: Seq<u8>)
    requires
        p.len() < 18,
    ensures
        ({
            let got = response(burst, id, p);
            &&& got.burst == burst
            &&& got.next_id == id
            &&& got.data.len() == 0
            &&& got.end == if p.len() == 0 {
                ResponseEnd::Consumed
            } else {
                ResponseEnd::Broken
            }
        }),
{
}

/// What a packet outside a burst is for a response whose next packet has the id `id`.
///
/// A packet without a known mode makes the response invalid, and one that selects no byte shows that
/// the device is not sound. A datagram with a posted write is kept, and leaves the burst as it was.
/// A packet with the number 1 or 11 as its mode answers a request: it has to have the id as its
/// address, and if it starts no burst, its bytes stand in front of those behind it, from the highest
/// to the lowest selected one, in reverse; the next id is greater by their number. All other packets
/// bring nothing.
pub proof fn law_response_normal(id: u32, p: Seq<u8>)
    requires
        p.len() >= 18,
    ensures
        ({
            let got = response(None, id, p);
            let number = p[5] % 16;
            let after = if p[0] == 2 || p[0] == 3 {
                Some((p[1], true))
            } else {
                None
            };
            let own = p.subrange(10 + p[1].leading_zeros(), 18 - p[1].trailing_zeros()).reverse();
            if number > 12 || p[1] == 0 || number == 2 {
                &&& got.burst == if number > 12 {
                    after
                } else {
                    None
                }
                &&& got.next_id == id
                &&& got.data.len() == 0
                &&& got.end == if number > 12 {
                    ResponseEnd::Invalid
                } else if p[1] == 0 {
                    ResponseEnd::Broken
                } else {
                    ResponseEnd::Kept
                }
            } else if number != 1 && number != 11 {
                got == response(after, id, p.skip(18))
            } else if address(p) != id {
                &&& got.burst == after
                &&& got.next_id == id
                &&& got.data.len() == 0
                &&& got.end == ResponseEnd::Invalid
            } else if after is Some {
                got == response(after, id, p.skip(18))
            } else {
                let next = ((id + own.len()) % 0x1_0000_0000) as u32;
                let more = response(None, next, p.skip(18));
                &&& own.len() == 8 - p[1].leading_zeros() - p[1].trailing_zeros()
                &&& got.burst == more.burst
                &&& got.next_id == more.next_id
                &&& got.data == own + more.data
                &&& got.end == more.end
            }
        }),
{
    reveal(packet_response);
    law_normal_wire(p);
    law_mode_numbers((p[5] % 16) as u8);
    let more = response(None, id, p.skip(18));
    let other = response(Some((p[1], true)), id, p.skip(18));
    assert(Seq::<u8>::empty() + more.data =~= more.data);
    assert(Seq::<u8>::empty() + other.data =~= other.data);
    if p[1] != 0 && p[5] % 16 <= 12 {
        if let Some(Packet::Normal(_, _, _, data)) = decode(None, p) {
            assert(data =~= p.subrange(10 + p[1].leading_zeros(), 18 - p[1].trailing_zeros()));
            assert(data.len() == data.reverse().len());
        }
    }
}

/// What a packet of a burst with the byte selects `bsel` is for a response: its bytes in reverse stand
/// in front of those behind it, but for `15 - bsel / 16` at the upper end of the last packet, which
/// has no burst bit, and `15 - bsel % 16` at the lower end of the first one. The next id is greater
/// by their number. If it leaves out more bytes than it has, the device is not sound.
pub proof fn law_response_flit(bsel: u8, first: bool, id: u32, p: Seq<u8>)
    requires
        p.len() >= 18,
    ensures
        ({
            let got = response(Some((bsel, first)), id, p);
            let upper = if p[0] < 2 {
                15 - bsel / 16
            } else {
                0
            };
            let lower = if first {
                15 - bsel % 16
            } else {
                0
            };
            let more = response(
                if p[0] < 2 {
                    None
                } else {
                    Some((bsel, false))
                },
                ((id + 16 - upper - lower) % 0x1_0000_0000) as u32,
                p.skip(18),
            );
            if upper + lower > 16 {
                &&& got.burst == Some((bsel, first))
                &&& got.next_id == id
                &&& got.data.len() == 0
                &&& got.end == ResponseEnd::Broken
            } else {
                &&& got.burst == more.burst
                &&& got.next_id == more.next_id
                &&& got.data == p.subrange(2 + upper, 18 - lower).reverse() + more.data
                &&& got.end == more.end
            }
        }),
{
    reveal(packet_response);
    let upper = if p[0] < 2 {
        15 - bsel / 16
    } else {
        0
    };
    let lower = if first {
        15 - bsel % 16
    } else {
        0
    };
    law_flit_wire(bsel, first, p);
    if upper + lower <= 16 {
        if let Some(Packet::Burst(data)) = decode(Some((bsel, first)), p) {
            assert(data =~= p.subrange(2 + upper, 18 - lower));
        }
    }
}

/// What the packets of a burst that end it bring.
proof fn lemma_response_burst(bsel: u8, first: bool, id: u32, p: Seq<u8>, k: int)
    requires
        k > 0,
        p.len() == 18 * k,
        forall|f: int| 0 <= f < k ==> ((#[trigger] p[18 * f]) < 2 <==> f == k - 1),
        !first || k > 1 || 30 - bsel / 16 - bsel % 16 <= 16,
    ensures
        ({
            let lower = if first {
                15 - bsel % 16
            } else {
                0
            };
            let got = response(Some((bsel, first)), id, p);
            &&& got.burst is None
            &&& got.end == ResponseEnd::Consumed
            &&& got.data == Seq::new(
                (16 * k - lower - (15 - bsel / 16)) as nat,
                |t: int| p[18 * ((t + lower) / 16) + 17 - (t + lower) % 16],
            )
        }),
    decreases k,
{
    let lower = if first {
        15 - bsel % 16
    } else {
        0
    };
    let upper = 15 - bsel / 16;
    let all = Seq::new(
        (16 * k - lower - upper) as nat,
        |t: int| p[18 * ((t + lower) / 16) + 17 - (t + lower) % 16],
    );
    law_response_flit(bsel, first, id, p);
    assert(p[18 * 0int] < 2 <==> k == 1);
    if k == 1 {
        let next = ((id + 16 - upper - lower) % 0x1_0000_0000) as u32;
        law_response_rest(None, next, p.skip(18));
        assert(p.subrange(2 + upper, 18 - lower).reverse() + Seq::<u8>::empty() =~= all);
    } else {
        let rest = p.skip(18);
        let next = ((id + 16 - lower) % 0x1_0000_0000) as u32;
        assert forall|f: int| 0 <= f < k - 1 implies ((#[trigger] rest[18 * f]) < 2 <==> f == k - 2) by {
            assert(rest[18 * f] == p[18 * (f + 1)]);
        }
        lemma_response_burst(bsel, false, next, rest, k - 1);
        let more = response(Some((bsel, false)), next, rest).data;
        lemma_join_flits(p, more, lower, upper, k);
    }
    assert(response(Some((bsel, first)), id, p).data =~= all);
}

/// What a whole burst that answers the request `id` brings, whoever sent it: `k` packets behind the
/// one that starts it bring `16 * k` bytes in ascending order, without the first `15 - bsel % 16` and
/// without the last `15 - bsel / 16` of them, where `bsel` are the byte selects of the packet that
/// starts the burst.
pub proof fn law_response_burst(id: u32, p: Seq<u8>, k: int)
    requires
        k > 0,
        p.len() == 18 * (k + 1),
        p[0] == 2 || p[0] == 3,
        p[1] != 0,
        p[5] % 16 == 1 || p[5] % 16 == 11,
        address(p) == id,
        forall|f: int| 1 <= f <= k ==> ((#[trigger] p[18 * f]) < 2 <==> f == k),
        k > 1 || 30 - p[1] / 16 - p[1] % 16 <= 16,
    ensures
        ({
            let lower = 15 - p[1] % 16;
            let upper = 15 - p[1] / 16;
            let got = response(None, id, p);
            &&& got.burst is None
            &&& got.end == ResponseEnd::Consumed
            &&& got.data == Seq::new(
                (16 * k - lower - upper) as nat,
                |t: int| p[18 * (1 + (t + lower) / 16) + 17 - (t + lower) % 16],
            )
        }),
{
    let lower = 15 - p[1] % 16;
    let upper = 15 - p[1] / 16;
    let rest = p.skip(18);
    assert forall|f: int| 0 <= f < k implies ((#[trigger] rest[18 * f]) < 2 <==> f == k - 1) by {
        assert(rest[18 * f] == p[18 * (f + 1)]);
    }
    law_response_normal(id, p);
    lemma_response_burst(p[1], true, id, rest, k);
    let all = Seq::new(
        (16 * k - lower - upper) as nat,
        |t: int| p[18 * (1 + (t + lower) / 16) + 17 - (t + lower) % 16],
    );
    let more = response(Some((p[1], true)), id, rest).data;
    assert forall|t: int| 0 <= t < all.len() implies #[trigger] all[t] == more[t] by {
        let i = 18 * ((t + lower) / 16) + 17 - (t + lower) % 16;
        assert(0 <= i < 18 * k);
        assert(more[t] == rest[i]);
    }
    assert(more =~= all);
}

/// How a read is before it begins.
pub proof fn law_read_initial(target: FPGAModule, addr: u32, len: int, nocarq: bool)
    ensures
        ({
            let read = ReadState::initial(target, addr, len, nocarq);
            &&& read.target == target
            &&& read.mode.number() == if nocarq {
                10u8
            } else {
                0u8
            }
            &&& read.addr == addr
            &&& read.len == len
            &&& read.res.len() == 0
            &&& read.retries == 0
            &&& read.last_addr == addr
            &&& read.phase == Phase::Ready
        }),
{
    law_mode_numbers(0);
}

/// Which events can happen in which phase.
pub proof fn law_read_expects(read: ReadState)
    ensures
        read.expects(ReadEventState::Start) <==> read.phase == Phase::Ready,
        read.expects(ReadEventState::Sent) <==> read.phase == Phase::Sending,
        read.expects(ReadEventState::SendFailed) <==> read.phase == Phase::Sending,
        forall|bytes: Seq<u8>| #[trigger] read.expects(ReadEventState::Datagram(bytes))
            <==> read.phase == Phase::Receiving,
        read.expects(ReadEventState::ReceiveFailed) <==> read.phase == Phase::Receiving,
        read.expects(ReadEventState::Drained) <==> read.phase is Draining,
{
}

/// Making a request: it takes the next id and asks for 24576 bytes, or for those that are left. It
/// goes out behind the packets that wait already, in the same datagram if there is room.
pub proof fn law_read_begin(comm: CommState, read: ReadState)
    requires
        comm.send_buf.len() <= 1472,
        0 < read.len <= 0xFFFF_FFFF,
    ensures
        ({
            let next = begin(comm, read);
            let want = if read.len < 24576 {
                read.len
            } else {
                24576
            };
            let id = comm.next_req_id;
            let p = request_packet(read.target, read.mode, read.addr, want, id);
            let fits = comm.send_buf.len() + 18 <= 1472;
            &&& next.step == ReadStepState::Send(
                if fits {
                    comm.send_buf + p
                } else {
                    comm.send_buf
                },
            )
            &&& next.comm == (CommState {
                next_req_id: ((id + 1) % 0x1_0000_0000) as u32,
                send_buf: if fits {
                    comm.send_buf + p
                } else {
                    comm.send_buf
                },
                ..comm
            })
            &&& next.read == (ReadState {
                phase: Phase::Sending,
                request: next.read.request,
                req_id: id,
                want,
                start: read.res.len() as int,
                ..read
            })
            &&& next.read.request.packets == if fits {
                Seq::empty()
            } else {
                seq![p]
            }
        }),
{
    let want = if read.len < 24576 {
        read.len
    } else {
        24576
    };
    let p = request_packet(read.target, read.mode, read.addr, want, comm.next_req_id);
    let packets = seq![p];
    assert(p.len() == 18);
    packets.lemma_flatten_one_element();
    assert(packets.take(1) =~= packets);
    assert(packets.skip(1) =~= Seq::empty());
    assert(packets.take(0).flatten() =~= Seq::empty());
    assert(packets.skip(0) =~= packets);
    assert(comm.send_buf + Seq::<u8>::empty() =~= comm.send_buf);
}

/// A read begins with a request, unless there is nothing to read: then it is over at once.
pub proof fn law_read_start(comm: CommState, read: ReadState)
    requires
        read.phase == Phase::Ready,
        0 <= read.len,
    ensures
        ({
            let next = read_next(comm, read, ReadEventState::Start);
            &&& read.len > 0 ==> next == begin(comm, read)
            &&& read.len == 0 ==> {
                &&& next.step == ReadStepState::Done(read.res)
                &&& next.comm == comm
                &&& next.read.phase == Phase::Closed
            }
        }),
{
}

/// Once a datagram was sent, the send buffer is empty. If the request did not fit into the datagram,
/// it is sent on its own; otherwise, the response is to be received.
pub proof fn law_read_sent(comm: CommState, read: ReadState)
    requires
        read.request.packets.len() <= 1,
        read.request.packets.len() == 1 ==> read.request.packets[0].len() == 18,
    ensures
        ({
            let next = read_next(comm, read, ReadEventState::Sent);
            let waits = read.request.packets.len() == 1;
            let buf = if waits {
                read.request.packets[0]
            } else {
                Seq::empty()
            };
            &&& next.step == if waits {
                ReadStepState::Send(buf)
            } else {
                ReadStepState::Receive
            }
            &&& next.comm == (CommState { send_buf: buf, ..comm })
            &&& next.read == (ReadState {
                phase: if waits {
                    Phase::Sending
                } else {
                    Phase::Receiving
                },
                request: next.read.request,
                ..read
            })
            &&& next.read.request.packets.len() == 0
        }),
{
    let packets = read.request.packets;
    let none = Seq::<u8>::empty();
    if packets.len() == 1 {
        packets.lemma_flatten_one_element();
        assert(packets.take(1) =~= packets);
        assert(none + packets.flatten() =~= packets[0]);
    } else {
        assert(packets.take(0) =~= packets);
        assert(none + packets.flatten() =~= none);
    }
}

/// If a datagram cannot be sent or received, the request has failed, and nothing else changes.
pub proof fn law_read_io(comm: CommState, read: ReadState)
    ensures
        ({
            let failed = ReadState { phase: Phase::Draining(ReadFailure::Io), ..read };
            let unsent = read_next(comm, read, ReadEventState::SendFailed);
            let silent = read_next(comm, read, ReadEventState::ReceiveFailed);
            &&& unsent.step == ReadStepState::Drain(ReadFailure::Io)
            &&& unsent.comm == comm
            &&& unsent.read == failed
            &&& silent.step == ReadStepState::Drain(ReadFailure::Io)
            &&& silent.comm == comm
            &&& silent.read == failed
        }),
{
}

/// A datagram brings what its packets bring. If these are not sound, or bring more than was asked for,
/// the read breaks off; if they are no answer to the request, the request has failed. As long as
/// bytes are missing, more datagrams are to be received. Once all have arrived, the next request is
/// made for what lies behind them, or the read is over, with everything that was read.
pub proof fn law_read_datagram(comm: CommState, read: ReadState, bytes: Seq<u8>)
    requires
        read.phase == Phase::Receiving,
        0 <= read.want <= read.len,
        read.addr + read.len <= 0xFFFF_FFFF,
    ensures
        ({
            let got = response(comm.burst, read.req_id, bytes);
            let next = read_next(comm, read, ReadEventState::Datagram(bytes));
            let res = read.res + got.data;
            let count = res.len() - read.start;
            let after = CommState {
                burst: got.burst,
                received: if got.end == ResponseEnd::Kept {
                    comm.received.push(bytes)
                } else {
                    comm.received
                },
                ..comm
            };
            let held = ReadState { res, req_id: got.next_id, ..read };
            if got.end == ResponseEnd::Broken || got.end != ResponseEnd::Invalid && count
                > read.want {
                &&& next.step == ReadStepState::Broken
                &&& next.comm == after
                &&& next.read.phase == Phase::Closed
            } else if got.end == ResponseEnd::Invalid {
                &&& next.step == ReadStepState::Drain(ReadFailure::InvalidData)
                &&& next.comm == after
                &&& next.read == (ReadState {
                    phase: Phase::Draining(ReadFailure::InvalidData),
                    ..held
                })
            } else if count < read.want {
                &&& next.step == ReadStepState::Receive
                &&& next.comm == after
                &&& next.read == held
            } else if read.want < read.len {
                next == begin(
                    after,
                    ReadState {
                        addr: (read.addr + read.want) as u32,
                        len: read.len - read.want,
                        ..held
                    },
                )
            } else {
                &&& next.step == ReadStepState::Done(res)
                &&& next.comm == after
                &&& next.read.phase == Phase::Closed
            }
        }),
{
}

/// If the last request of a read is answered by a whole burst that brings as many bytes as are missing,
/// whoever sent it, the read is over, and these bytes stand behind those that were read before: `16 *
/// k` bytes of `k` packets in ascending order, without the first `15 - bsel % 16` and without the last
/// `15 - bsel / 16` of them, where `bsel` are the byte selects of the packet that starts the burst.
pub proof fn law_read_last_burst(comm: CommState, read: ReadState, p: Seq<u8>, k: int)
    requires
        read.phase == Phase::Receiving,
        0 <= read.want == read.len,
        read.addr + read.len <= 0xFFFF_FFFF,
        comm.burst is None,
        k > 0,
        p.len() == 18 * (k + 1),
        p[0] == 2 || p[0] == 3,
        p[1] != 0,
        p[5] % 16 == 1 || p[5] % 16 == 11,
        address(p) == read.req_id,
        forall|f: int| 1 <= f <= k ==> ((#[trigger] p[18 * f]) < 2 <==> f == k),
        k > 1 || 30 - p[1] / 16 - p[1] % 16 <= 16,
        16 * k - (15 - p[1] % 16) - (15 - p[1] / 16) == read.start + read.want - read.res.len(),
    ensures
        ({
            let lower = 15 - p[1] % 16;
            let upper = 15 - p[1] / 16;
            let next = read_next(comm, read, ReadEventState::Datagram(p));
            &&& next.step == ReadStepState::Done(
                read.res + Seq::new(
                    (16 * k - lower - upper) as nat,
                    |t: int| p[18 * (1 + (t + lower) / 16) + 17 - (t + lower) % 16],
                ),
            )
            &&& next.comm == comm
        }),
{
    law_response_burst(read.req_id, p, k);
    law_read_datagram(comm, read, p);
}

/// A failed request is made anew at the same address and for what is left. At an address where none
/// had failed before, failures are counted from zero on; otherwise, the third failure that counts
/// ends the read, with the reason of that failure.
pub proof fn law_read_drained(comm: CommState, read: ReadState, failure: ReadFailure)
    requires
        read.phase == Phase::Draining(failure),
    ensures
        ({
            let next = read_next(comm, read, ReadEventState::Drained);
            let fresh = read.addr != read.last_addr;
            if fresh || read.retries < 2 {
                next == begin(
                    comm,
                    ReadState {
                        last_addr: read.addr,
                        retries: if fresh {
                            0
                        } else {
                            read.retries + 1
                        },
                        ..read
                    },
                )
            } else {
                &&& next.step == ReadStepState::Failed(failure)
                &&& next.comm == comm
                &&& next.read.phase == Phase::Closed
            }
        }),
{
}

/// Events and steps are seen as what they are.
pub proof fn law_read_views(event: ReadEvent, step: ReadStep)
    ensures
        match event {
            ReadEvent::Start => event@ is Start,
            ReadEvent::Sent => event@ is Sent,
            ReadEvent::SendFailed => event@ is SendFailed,
            ReadEvent::Datagram(bytes) => event@ matches ReadEventState::Datagram(b) && b == bytes@,
            ReadEvent::ReceiveFailed => event@ is ReceiveFailed,
            ReadEvent::Drained => event@ is Drained,
        },
        match step {
            ReadStep::Send(bytes) => step@ matches ReadStepState::Send(b) && b == bytes@,
            ReadStep::Receive => step@ is Receive,
            ReadStep::Drain(failure) => step@ matches ReadStepState::Drain(f) && f == failure,
            ReadStep::Done(bytes) => step@ matches ReadStepState::Done(b) && b == bytes@,
            ReadStep::Failed(failure) => step@ matches ReadStepState::Failed(f) && f == failure,
            ReadStep::Broken => step@ is Broken,
        },
{
}

} // verus!
