//! What holds of reads and of the self test as a whole.
use vstd::prelude::*;

use crate::communicator::{wrapping_add, CommState};
use crate::decode::{burst_after, burst_begin, burst_end, decodable, decode, Packet};
use crate::laws::{
    law_decode_burst_packet, law_decode_packet, law_le_bytes, lemma_first_packet, lemma_flits_split,
};
use crate::packet::{burst_packet, host_mod, le_bytes, packet, FPGAModule, Mode};
use crate::read::{
    absorb, is_response, packet_response, read_mode, read_next, request_len, request_packet,
    response, Phase, ReadEventState, ReadNext, ReadState, ReadStepState, Response, ResponseEnd,
    MAX_READ_REQ_LEN, MAX_READ_RETRIES,
};
use crate::self_test::{self_test_next, test_data, SelfTestStep, MAX_SELF_TEST_RETRIES, TEST_ADDR};
use crate::transmit::filled;
use crate::write::{flits, noburst_packets};

verus! {

/// Responding with packets of which the first one is taken apart.
proof fn lemma_response_first(
    burst: Option<(u8, bool)>,
    id: u32,
    wire: Seq<u8>,
    more: Seq<u8>,
)
    requires
        wire.len() == 18,
    ensures
        packet_response(burst, id, wire + more) == packet_response(burst, id, wire),
        ({
            let first = packet_response(burst, id, wire);
            response(burst, id, wire + more) == if first.end == ResponseEnd::Consumed {
                response(first.burst, first.next_id, more).prepend(first.data)
            } else {
                first
            }
        }),
{
    assert(packet_response(burst, id, wire + more) == packet_response(burst, id, wire)) by {
        reveal(packet_response);
        lemma_first_packet(burst, wire, more);
    }
    assert((wire + more).skip(18) =~= more);
}

/// A response may arrive in one datagram or in two: as long as the first part is used up, the result
/// is the same.
pub proof fn law_response_split(
    burst: Option<(u8, bool)>,
    id: u32,
    first: Seq<u8>,
    second: Seq<u8>,
)
    requires
        response(burst, id, first).end == ResponseEnd::Consumed,
    ensures
        ({
            let got = response(burst, id, first);
            response(burst, id, first + second) == response(
                got.burst,
                got.next_id,
                second,
            ).prepend(got.data)
        }),
    decreases first.len(),
{
    let all = first + second;
    if first.len() < 18 {
        assert(all =~= second);
        let got = response(burst, id, second);
        assert(Seq::<u8>::empty() + got.data =~= got.data);
    } else {
        let wire = first.take(18);
        let rest = first.skip(18);
        assert(first =~= wire + rest);
        assert(all =~= wire + (rest + second));
        lemma_response_first(burst, id, wire, rest);
        lemma_response_first(burst, id, wire, rest + second);
        let own = packet_response(burst, id, wire);
        law_response_split(own.burst, own.next_id, rest, second);
        let part = response(own.burst, own.next_id, rest);
        let more = response(part.burst, part.next_id, second);
        assert(own.data + (part.data + more.data) =~= own.data + part.data + more.data);
    }
}

/// The packet in front of others comes first.
proof fn lemma_flatten_cons(wire: Seq<u8>, rest: Seq<Seq<u8>>)
    ensures
        (seq![wire] + rest).flatten() == wire + rest.flatten(),
{
    assert((seq![wire] + rest).drop_first() =~= rest);
}

/// A burst packet contributes its bytes to a response, but for those that are left out.
proof fn lemma_response_flit(bsel: u8, first: bool, not_last: bool, id: u32, bytes: Seq<u8>)
    requires
        bytes.len() >= 16,
        not_last || burst_end(bsel, first) + burst_begin(bsel, true) <= 16,
    ensures
        ({
            let begin = burst_end(bsel, first);
            let end = if not_last {
                16
            } else {
                16 - burst_begin(bsel, true)
            };
            packet_response(Some((bsel, first)), id, burst_packet(not_last, bytes)) == (Response {
                burst: if not_last {
                    Some((bsel, false))
                } else {
                    None
                },
                next_id: wrapping_add(id, end - begin),
                data: bytes.subrange(begin, end),
                end: ResponseEnd::Consumed,
            })
        }),
{
    reveal(packet_response);
    let wire = burst_packet(not_last, bytes);
    law_decode_burst_packet(bsel, first, not_last, bytes, Seq::empty());
    assert(wire + Seq::<u8>::empty() =~= wire);
    if let Some(Packet::Burst(data)) = decode(Some((bsel, first)), wire) {
        assert(data.len() == data.reverse().len());
    }
}

/// Whether a burst with `bytes` and these byte selects is sound: there are whole burst packets, and
/// what a single one leaves out at its two ends does not overlap.
///
/// As data travels in descending order, what is unused behind it on the wire comes first in `bytes`.
pub open spec fn sound_burst(bsel: u8, first: bool, bytes: Seq<u8>) -> bool {
    &&& bytes.len() > 0
    &&& bytes.len() % 16 == 0
    &&& bytes.len() > 16 || burst_end(bsel, first) + burst_begin(bsel, true) <= 16
}

/// Adding one number after the other is adding their sum.
pub(crate) proof fn lemma_wrapping_add(id: u32, x: int, y: int)
    ensures
        wrapping_add(wrapping_add(id, x), y) == wrapping_add(id, x + y),
{
    let m = 0x1_0000_0000;
    vstd::arithmetic::div_mod::lemma_add_mod_noop(id + x, y, m);
    vstd::arithmetic::div_mod::lemma_add_mod_noop((id + x) % m, y, m);
}

/// Burst packets contribute their bytes to a response, but for those that are left out.
proof fn lemma_response_flits(bsel: u8, first: bool, id: u32, bytes: Seq<u8>)
    requires
        sound_burst(bsel, first, bytes),
    ensures
        ({
            let begin = burst_end(bsel, first);
            let end = bytes.len() - burst_begin(bsel, true);
            response(Some((bsel, first)), id, flits(bytes).flatten()) == (Response {
                burst: None,
                next_id: wrapping_add(id, end - begin),
                data: bytes.subrange(begin, end),
                end: ResponseEnd::Consumed,
            })
        }),
    decreases bytes.len(),
{
    let begin = burst_end(bsel, first);
    let end = bytes.len() - burst_begin(bsel, true);
    let not_last = 16 < bytes.len();
    let wire = burst_packet(not_last, bytes);
    let rest = bytes.skip(16);
    let more = flits(rest).flatten();
    lemma_flits_split(bytes);
    lemma_flatten_cons(wire, flits(rest));
    lemma_response_flit(bsel, first, not_last, id, bytes);
    lemma_response_first(Some((bsel, first)), id, wire, more);
    if not_last {
        let next = wrapping_add(id, 16 - begin);
        lemma_response_flits(bsel, false, next, rest);
        lemma_wrapping_add(id, 16 - begin, end - 16);
        assert(bytes.subrange(begin, 16) + rest.subrange(0, end - 16) =~= bytes.subrange(
            begin,
            end,
        ));
    } else {
        assert(flits(rest) =~= Seq::empty());
        assert(bytes.subrange(begin, end) + Seq::<u8>::empty() =~= bytes.subrange(begin, end));
    }
}

/// Whether `wire` starts a burst with the given byte selects that answers the request `id`.
pub open spec fn starts_response(wire: Seq<u8>, id: u32, bsel: u8) -> bool {
    &&& wire.len() == 18
    &&& decodable(None, wire)
    &&& burst_after(None, wire) == Some((bsel, true))
    &&& decode(None, wire) matches Some(Packet::Normal(_, mode, addr, _)) && is_response(mode)
        && addr == id
}

/// If a device answers a request with a burst under the id of the request, the host reads the bytes
/// of the burst in ascending order, but for those that are left out at its ends.
pub proof fn law_burst_response(wire: Seq<u8>, id: u32, bsel: u8, bytes: Seq<u8>)
    requires
        starts_response(wire, id, bsel),
        sound_burst(bsel, true, bytes),
    ensures
        ({
            let begin = burst_end(bsel, true);
            let end = bytes.len() - burst_begin(bsel, true);
            response(None, id, wire + flits(bytes).flatten()) == (Response {
                burst: None,
                next_id: wrapping_add(id, end - begin),
                data: bytes.subrange(begin, end),
                end: ResponseEnd::Consumed,
            })
        }),
{
    reveal(packet_response);
    let begin = burst_end(bsel, true);
    let end = bytes.len() - burst_begin(bsel, true);
    lemma_response_first(None, id, wire, flits(bytes).flatten());
    lemma_response_flits(bsel, true, id, bytes);
    assert(Seq::<u8>::empty() + bytes.subrange(begin, end) =~= bytes.subrange(begin, end));
}

/// If a device answers with a normal packet under the expected id, the host reads its bytes and
/// expects the next packet under an id that is greater by their number.
pub proof fn law_word_response(wire: Seq<u8>, id: u32)
    requires
        wire.len() == 18,
        decodable(None, wire),
        burst_after(None, wire) is None,
        decode(None, wire) matches Some(Packet::Normal(_, mode, addr, _)) && is_response(mode)
            && addr == id,
    ensures
        decode(None, wire) matches Some(Packet::Normal(_, _, _, data)) && response(None, id, wire)
            == (Response {
            burst: None,
            next_id: wrapping_add(id, data.len() as int),
            data: data.reverse(),
            end: ResponseEnd::Consumed,
        }),
{
    reveal(packet_response);
    let none = Seq::<u8>::empty();
    assert(wire + none =~= wire);
    lemma_response_first(None, id, wire, none);
    if let Some(Packet::Normal(_, _, _, data)) = decode(None, wire) {
        assert(data.reverse() + none =~= data.reverse());
    }
}

/// It does not matter how a response is cut into datagrams, unless the second one is kept for later.
pub proof fn law_absorb_split(comm: CommState, read: ReadState, first: Seq<u8>, second: Seq<u8>)
    requires
        read.wf(),
        read.phase is Receiving,
        ({
            let got = response(comm.burst, read.req_id, first);
            &&& got.end == ResponseEnd::Consumed
            &&& read.res.len() + got.data.len() < read.start + read.want
            &&& response(got.burst, got.next_id, second).end != ResponseEnd::Kept
        }),
    ensures
        ({
            let next = absorb(comm, read, first);
            &&& next.step is Receive
            &&& absorb(next.comm, next.read, second) == absorb(comm, read, first + second)
        }),
{
    let got = response(comm.burst, read.req_id, first);
    let more = response(got.burst, got.next_id, second);
    law_response_split(comm.burst, read.req_id, first, second);
    assert(read.res + got.data + more.data =~= read.res + (got.data + more.data));
}

/// If packets are used up, so is the first part of them.
pub(crate) proof fn lemma_response_prefix(burst: Option<(u8, bool)>, id: u32, first: Seq<u8>, second: Seq<u8>)
    requires
        first.len() % 18 == 0,
        response(burst, id, first + second).end == ResponseEnd::Consumed,
    ensures
        response(burst, id, first).end == ResponseEnd::Consumed,
    decreases first.len(),
{
    if first.len() > 0 {
        let wire = first.take(18);
        let rest = first.skip(18);
        assert(first =~= wire + rest);
        assert(first + second =~= wire + (rest + second));
        lemma_response_first(burst, id, wire, rest);
        lemma_response_first(burst, id, wire, rest + second);
        let own = packet_response(burst, id, wire);
        lemma_response_prefix(own.burst, own.next_id, rest, second);
    }
}

/// What a read does when it receives the datagrams one by one.
pub open spec fn absorb_all(comm: CommState, read: ReadState, datagrams: Seq<Seq<u8>>) -> ReadNext
    decreases datagrams.len(),
{
    if datagrams.len() <= 1 {
        absorb(comm, read, datagrams[0])
    } else {
        let next = absorb(comm, read, datagrams[0]);
        absorb_all(next.comm, next.read, datagrams.drop_first())
    }
}

/// A response that is complete with the last of several datagrams is read as if it had arrived in a
/// single one.
pub proof fn law_read_datagrams(comm: CommState, read: ReadState, datagrams: Seq<Seq<u8>>)
    requires
        read.wf(),
        read.phase is Receiving,
        datagrams.len() > 0,
        forall|i: int| 0 <= i < datagrams.len() ==> #[trigger] datagrams[i].len() % 18 == 0,
        response(comm.burst, read.req_id, datagrams.flatten()).end == ResponseEnd::Consumed,
        read.res.len() + response(
            comm.burst,
            read.req_id,
            datagrams.drop_last().flatten(),
        ).data.len() < read.start + read.want,
    ensures
        absorb_all(comm, read, datagrams) == absorb(comm, read, datagrams.flatten()),
    decreases datagrams.len(),
{
    if datagrams.len() == 1 {
        datagrams.lemma_flatten_one_element();
    } else {
        let first = datagrams[0];
        let rest = datagrams.drop_first();
        let got = response(comm.burst, read.req_id, first);
        let early = datagrams.drop_last();
        assert(datagrams.flatten() =~= first + rest.flatten());
        assert(early.drop_first() =~= rest.drop_last());
        assert(early.flatten() =~= first + rest.drop_last().flatten());
        lemma_response_prefix(comm.burst, read.req_id, first, rest.flatten());
        law_response_split(comm.burst, read.req_id, first, rest.flatten());
        law_response_split(comm.burst, read.req_id, first, rest.drop_last().flatten());
        law_absorb_split(comm, read, first, rest.flatten());
        let next = absorb(comm, read, first);
        assert forall|i: int| 0 <= i < rest.len() implies #[trigger] rest[i].len() % 18 == 0 by {
            assert(rest[i] == datagrams[i + 1]);
        }
        law_read_datagrams(next.comm, next.read, rest);
    }
}

/// A request tells the device who asks, where to read, how many bytes, and under which id.
pub proof fn law_request(target: FPGAModule, mode: Mode, addr: u32, want: int, id: u32)
    requires
        0 <= want <= u32::MAX,
    ensures
        ({
            let wire = request_packet(target, mode, addr, want, id);
            &&& wire.len() == 18
            &&& decodable(None, wire)
            &&& burst_after(None, wire) is None
            &&& decode(None, wire) matches Some(Packet::Normal(src, m, a, data)) && {
                let b = data.reverse();
                &&& src == host_mod()
                &&& m == mode
                &&& a == addr
                &&& b.len() == 8
                &&& id == b[0] + b[1] * 0x100 + b[2] * 0x1_0000 + b[3] * 0x100_0000
                &&& want == b[4] + b[5] * 0x100 + b[6] * 0x1_0000 + b[7] * 0x100_0000
            }
        }),
{
    let word = (want * 0x1_0000_0000 + id) as u64;
    let wire = request_packet(target, mode, addr, want, id);
    law_decode_packet(target, false, 0xFF, addr, le_bytes(word), mode, Seq::empty());
    assert(wire + Seq::<u8>::empty() =~= wire);
    if let Some(Packet::Normal(_, _, _, data)) = decode(None, wire) {
        assert(le_bytes(word).subrange(0, 8) =~= le_bytes(word));
        lemma_request_bytes(data.reverse(), want, id);
    }
}

/// Id and number of bytes can be told from the data of a request.
proof fn lemma_request_bytes(b: Seq<u8>, want: int, id: u32)
    requires
        0 <= want <= u32::MAX,
        b == le_bytes((want * 0x1_0000_0000 + id) as u64),
    ensures
        b.len() == 8,
        id == b[0] + b[1] * 0x100 + b[2] * 0x1_0000 + b[3] * 0x100_0000,
        want == b[4] + b[5] * 0x100 + b[6] * 0x1_0000 + b[7] * 0x100_0000,
{
    let word = (want * 0x1_0000_0000 + id) as u64;
    law_le_bytes(word);
    lemma_halves(want, id as int);
}

/// The two halves of a word can be told from it.
proof fn lemma_halves(high: int, low: int)
    requires
        0 <= low < 0x1_0000_0000,
    ensures
        (high * 0x1_0000_0000 + low) % 0x1_0000_0000 == low,
        (high * 0x1_0000_0000 + low) / 0x1_0000_0000 == high,
{
}

/// A read that needs one request sends it, and if the response to it arrives in one datagram, the
/// read is over and has read what the response brought.
pub proof fn law_read_once(
    comm: CommState,
    target: FPGAModule,
    addr: u32,
    nocarq: bool,
    bytes: Seq<u8>,
    datagram: Seq<u8>,
)
    requires
        comm.send_buf.len() == 0,
        0 < bytes.len() <= MAX_READ_REQ_LEN,
        addr + bytes.len() <= u32::MAX,
        ({
            let got = response(comm.burst, comm.next_req_id, datagram);
            got.end == ResponseEnd::Consumed && got.data == bytes
        }),
    ensures
        ({
            let read = ReadState::initial(target, addr, bytes.len() as int, nocarq);
            let id = comm.next_req_id;
            let begun = read_next(comm, read, ReadEventState::Start);
            let sent = read_next(begun.comm, begun.read, ReadEventState::Sent);
            let over = read_next(sent.comm, sent.read, ReadEventState::Datagram(datagram));
            &&& begun.step == ReadStepState::Send(
                request_packet(target, read_mode(nocarq), addr, bytes.len() as int, id),
            )
            &&& sent.step is Receive
            &&& over.step == ReadStepState::Done(bytes)
            &&& over.comm.next_req_id == wrapping_add(id, 1)
        }),
{
    let read = ReadState::initial(target, addr, bytes.len() as int, nocarq);
    let request = request_packet(
        target,
        read_mode(nocarq),
        addr,
        bytes.len() as int,
        comm.next_req_id,
    );
    let begun = read_next(comm, read, ReadEventState::Start);
    let packets = seq![request];
    assert(request.len() == 18);
    assert(packets.take(1) =~= packets);
    packets.lemma_flatten_one_element();
    assert(comm.send_buf + packets.flatten() =~= request);
    assert(packets.skip(1) =~= Seq::empty());
    assert(begun.step == ReadStepState::Send(request));

    let none = Seq::<Seq<u8>>::empty();
    let sent = read_next(begun.comm, begun.read, ReadEventState::Sent);
    assert(none.take(0) =~= none);
    assert(none.skip(0) =~= none);
    assert(filled(Seq::empty(), none) =~= Seq::empty());
    assert(sent.step is Receive);
    assert(sent.read.res + bytes =~= bytes);
}

/// If a device answers the last request of a read with a burst that brings all bytes which are
/// missing, the read is over and has read them.
pub proof fn law_read_burst(
    comm: CommState,
    read: ReadState,
    wire: Seq<u8>,
    bsel: u8,
    bytes: Seq<u8>,
)
    requires
        read.wf(),
        read.phase is Receiving,
        read.want == read.len,
        comm.burst is None,
        starts_response(wire, read.req_id, bsel),
        sound_burst(bsel, true, bytes),
        bytes.len() - burst_begin(bsel, true) - burst_end(bsel, true) == read.start + read.want
            - read.res.len(),
    ensures
        absorb(comm, read, wire + flits(bytes).flatten()).step == ReadStepState::Done(
            read.res + bytes.subrange(
                burst_end(bsel, true),
                bytes.len() - burst_begin(bsel, true),
            ),
        ),
{
    law_burst_response(wire, read.req_id, bsel, bytes);
}

/// Whether a read of `total` bytes in all has got here without a failed request.
pub open spec fn on_course(read: ReadState, total: int) -> bool {
    &&& read.wf()
    &&& match read.phase {
        Phase::Ready => read.res.len() == total - read.len,
        Phase::Sending => read.start == total - read.len,
        Phase::Receiving => read.start == total - read.len,
        _ => false,
    }
}

/// A read that has not begun is on course.
pub proof fn law_read_begins(target: FPGAModule, addr: u32, total: int, nocarq: bool)
    requires
        0 <= total,
        addr + total <= u32::MAX,
    ensures
        on_course(ReadState::initial(target, addr, total, nocarq), total),
{
}

/// A read during which no request fails reads as many bytes as it was asked for: every step keeps it
/// on course, or ends it with that many bytes, unless the request fails or the device is not sound.
pub proof fn law_read_course(
    comm: CommState,
    read: ReadState,
    event: ReadEventState,
    total: int,
)
    requires
        on_course(read, total),
        read.expects(event),
    ensures
        ({
            let next = read_next(comm, read, event);
            match next.step {
                ReadStepState::Send(_) => on_course(next.read, total),
                ReadStepState::Receive => on_course(next.read, total),
                ReadStepState::Done(bytes) => bytes.len() == total,
                _ => true,
            }
        }),
{
}

/// Every step of a read keeps to its state: the state is valid, what is left to be read ends where it
/// ended before, and nothing more is left to be read than before.
pub proof fn law_read_range(comm: CommState, read: ReadState, event: ReadEventState)
    requires
        read.wf(),
        read.expects(event),
    ensures
        ({
            let next = read_next(comm, read, event);
            &&& next.read.wf()
            &&& next.read.addr + next.read.len == read.addr + read.len
            &&& next.read.len <= read.len
            &&& next.read.target == read.target
            &&& next.read.mode == read.mode
        }),
{
}

/// Number of requests for the current address that may still fail, the last of which ends the read.
pub open spec fn attempts_left(read: ReadState) -> int {
    if read.last_addr == read.addr {
        MAX_READ_RETRIES - read.retries
    } else {
        MAX_READ_RETRIES + 1
    }
}

/// A read gives up if and only if no attempt is left, that is, after three failures at its start
/// address, and after four at an address that it reached later. Otherwise it makes the request anew.
pub proof fn law_read_retry(comm: CommState, read: ReadState)
    requires
        read.wf(),
        read.phase is Draining,
    ensures
        ({
            let next = read_next(comm, read, ReadEventState::Drained);
            &&& attempts_left(read) >= 1
            &&& next.step is Failed <==> attempts_left(read) == 1
            &&& attempts_left(read) > 1 ==> {
                &&& attempts_left(next.read) == attempts_left(read) - 1
                &&& next.read.addr == read.addr
                &&& next.read.len == read.len
                &&& next.comm.next_req_id == wrapping_add(comm.next_req_id, 1)
            }
        }),
{
}

/// Number of requests that a read of `len` bytes needs if none of them fails.
#[verifier::opaque]
pub open spec fn requests_needed(len: int) -> int {
    (len + MAX_READ_REQ_LEN - 1) / MAX_READ_REQ_LEN as int
}

/// Number of requests that a read makes at most, with the current one.
pub open spec fn requests_left(read: ReadState) -> int {
    attempts_left(read) + (MAX_READ_RETRIES + 1) * (requests_needed(read.len) - 1)
}

/// A request saves one of those that are needed.
pub(crate) proof fn lemma_requests_needed(len: int)
    requires
        len > 0,
    ensures
        requests_needed(len) >= 1,
        requests_needed(len - request_len(len)) == requests_needed(len) - 1,
{
    reveal(requests_needed);
}

/// A read makes a bounded number of requests, whatever happens on the network: every request after
/// the first one leaves fewer to be made.
pub proof fn law_read_requests(comm: CommState, read: ReadState, event: ReadEventState)
    requires
        read.wf(),
        read.expects(event),
        !(event is Start),
    ensures
        ({
            let next = read_next(comm, read, event);
            &&& requests_left(read) >= 1
            &&& next.comm.next_req_id != comm.next_req_id ==> requests_left(next.read)
                < requests_left(read)
            &&& next.comm.next_req_id == comm.next_req_id && !(next.step is Done) ==> requests_left(
                next.read,
            ) == requests_left(read)
        }),
{
    lemma_requests_needed(read.len);
}

/// Whether the first packet of a datagram is a posted write.
pub open spec fn begins_with_write(burst: Option<(u8, bool)>, bytes: Seq<u8>) -> bool {
    &&& bytes.len() >= 18
    &&& decodable(burst, bytes)
    &&& decode(burst, bytes) matches Some(Packet::Normal(_, mode, _, _)) && mode
        == Mode::WritePosted
}

/// A datagram that begins with a posted write does not disturb a read during which it arrives: it is
/// kept behind those that are kept already, and nothing else changes.
pub proof fn law_read_keeps_writes(comm: CommState, read: ReadState, bytes: Seq<u8>)
    requires
        read.wf(),
        read.phase is Receiving,
        begins_with_write(comm.burst, bytes),
    ensures
        read_next(comm, read, ReadEventState::Datagram(bytes)) == (ReadNext {
            comm: CommState { received: comm.received.push(bytes), ..comm },
            read,
            step: ReadStepState::Receive,
        }),
{
    reveal(packet_response);
    assert(read.res + Seq::<u8>::empty() =~= read.res);
}

/// If the packet of the self test comes back unchanged while no burst is going on, the test passes.
pub proof fn law_self_test_echo(retries: nat, more: Seq<u8>)
    ensures
        ({
            let sent = noburst_packets(host_mod(), TEST_ADDR as int, test_data(), false);
            &&& sent.len() == 1
            &&& self_test_next(None, retries, sent[0] + more).step == SelfTestStep::Passed
        }),
{
    let sent = noburst_packets(host_mod(), TEST_ADDR as int, test_data(), false);
    let data = test_data();
    assert(data.skip(0) =~= data);
    assert(sent[0] == packet(host_mod(), false, 0xFF, TEST_ADDR, data, Mode::WritePosted));
    law_decode_packet(host_mod(), false, 0xFF, TEST_ADDR, data, Mode::WritePosted, more);
    if let Some(Packet::Normal(_, _, _, got)) = decode(None, sent[0] + more) {
        assert(got.reverse() =~= data);
    }
}

/// The self test ends after a bounded number of datagrams that hold a packet: each of them either
/// ends it or is counted, and it goes on only while fewer than the allowed number were counted.
pub proof fn law_self_test_ends(burst: Option<(u8, bool)>, retries: nat, bytes: Seq<u8>)
    requires
        bytes.len() >= 18,
        retries < MAX_SELF_TEST_RETRIES,
    ensures
        ({
            let next = self_test_next(burst, retries, bytes);
            next.step == SelfTestStep::Receive ==> {
                &&& next.retries == retries + 1
                &&& next.retries < MAX_SELF_TEST_RETRIES
                &&& next.burst == burst
            }
        }),
{
}

} // verus!
