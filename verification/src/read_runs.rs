//! What holds of a whole read: of everything that happens from its start to its end.
//!
//! A run of a read is the sequence of events on the network after the read has begun. Between them,
//! the host has done what each step asked for.
use vstd::prelude::*;

use crate::communicator::{wrapping_add, CommState};
use crate::decode::{burst_after, decode, CommError, Packet};
use crate::laws::lemma_received_first;
use crate::packet::{FPGAModule, UDP_PAYLOAD_LEN};
use crate::read::{
    absorb, begin, packet_response, pump, read_next, request_len, request_packet, response, Phase,
    ReadEventState, ReadNext, ReadState, ReadStepState, ResponseEnd, MAX_READ_RETRIES,
};
use crate::read_laws::{begins_with_write, law_read_keeps_writes, law_read_range};
use crate::receive::{receive_next, received, Received};
use crate::transmit::{all_packets, fitting, lemma_flatten_len, TransmissionState};

verus! {

/// A read of `len` bytes at `addr` that has just begun.
pub open spec fn begun(
    comm: CommState,
    target: FPGAModule,
    addr: u32,
    len: int,
    nocarq: bool,
) -> ReadNext {
    read_next(comm, ReadState::initial(target, addr, len, nocarq), ReadEventState::Start)
}

/// What a read has come to after one more event.
#[verifier::opaque]
pub open spec fn after(last: ReadNext, event: ReadEventState) -> ReadNext {
    read_next(last.comm, last.read, event)
}

/// What the read that was at `start` has come to after the events.
pub open spec fn run(start: ReadNext, events: Seq<ReadEventState>) -> ReadNext
    decreases events.len(),
{
    if events.len() == 0 {
        start
    } else {
        after(run(start, events.drop_last()), events.last())
    }
}

/// Whether the events can happen one after the other.
pub open spec fn possible(start: ReadNext, events: Seq<ReadEventState>) -> bool
    decreases events.len(),
{
    events.len() > 0 ==> {
        &&& possible(start, events.drop_last())
        &&& run(start, events.drop_last()).read.expects(events.last())
    }
}

/// The datagrams that were kept for later, in order of arrival.
pub open spec fn kept(start: ReadNext, events: Seq<ReadEventState>) -> Seq<Seq<u8>>
    decreases events.len(),
{
    if events.len() == 0 {
        Seq::empty()
    } else {
        let before = kept(start, events.drop_last());
        let last = run(start, events.drop_last());
        match events.last() {
            ReadEventState::Datagram(bytes) => if response(
                last.comm.burst,
                last.read.req_id,
                bytes,
            ).end == ResponseEnd::Kept {
                before.push(bytes)
            } else {
                before
            },
            _ => before,
        }
    }
}

/// What the datagrams brought in response to each request that was made, the last one included.
pub open spec fn answers(start: ReadNext, events: Seq<ReadEventState>) -> Seq<Seq<u8>>
    decreases events.len(),
{
    if events.len() == 0 {
        if start.step is Done {
            Seq::empty()
        } else {
            seq![Seq::empty()]
        }
    } else {
        answers_after(
            answers(start, events.drop_last()),
            run(start, events.drop_last()),
            events.last(),
        )
    }
}

/// What each request was answered by after one more event: a datagram brings bytes for the request
/// that was made last, and a new request is not answered yet.
pub open spec fn answers_after(before: Seq<Seq<u8>>, last: ReadNext, event: ReadEventState) -> Seq<
    Seq<u8>,
> {
    let brought = match event {
        ReadEventState::Datagram(bytes) => before.drop_last().push(
            before.last() + response(last.comm.burst, last.read.req_id, bytes).data,
        ),
        _ => before,
    };
    if after(last, event).comm.next_req_id != last.comm.next_req_id {
        brought.push(Seq::empty())
    } else {
        brought
    }
}

/// The bytes of all datagrams that were sent.
pub open spec fn sent(start: ReadNext, events: Seq<ReadEventState>) -> Seq<u8>
    decreases events.len(),
{
    if events.len() == 0 {
        Seq::empty()
    } else {
        let before = sent(start, events.drop_last());
        match (events.last(), run(start, events.drop_last()).step) {
            (ReadEventState::Sent, ReadStepState::Send(datagram)) => before + datagram,
            _ => before,
        }
    }
}

/// The events without the arrivals of datagrams that begin with a posted write.
pub open spec fn without_writes(start: ReadNext, events: Seq<ReadEventState>) -> Seq<ReadEventState>
    decreases events.len(),
{
    if events.len() == 0 {
        events
    } else {
        let before = without_writes(start, events.drop_last());
        match events.last() {
            ReadEventState::Datagram(bytes) => if begins_with_write(
                run(start, events.drop_last()).comm.burst,
                bytes,
            ) {
                before
            } else {
                before.push(events.last())
            },
            _ => before.push(events.last()),
        }
    }
}

/// Whether what a read has come to holds together: packets that are to be sent have the right length
/// and fit into a datagram, and the next step is the one that belongs to the phase.
pub open spec fn sound(next: ReadNext) -> bool {
    &&& next.read.wf()
    &&& next.comm.send_buf.len() <= UDP_PAYLOAD_LEN
    &&& all_packets(next.read.request.packets)
    &&& match next.read.phase {
        Phase::Ready => false,
        Phase::Sending => next.step == ReadStepState::Send(next.comm.send_buf),
        Phase::Receiving => {
            &&& next.step is Receive
            &&& next.comm.send_buf.len() == 0
            &&& next.read.request.packets.len() == 0
        },
        Phase::Draining(failure) => next.step == ReadStepState::Drain(failure),
        Phase::Closed => next.step is Done || next.step is Failed || next.step is Broken,
    }
}

/// Sending goes on with the same packets, in the same order.
pub(crate) proof fn lemma_pump(comm: CommState, read: ReadState)
    requires
        comm.send_buf.len() <= UDP_PAYLOAD_LEN,
        all_packets(read.request.packets),
    ensures
        ({
            let next = pump(comm, read);
            let packets = next.read.request.packets;
            &&& next.comm.send_buf + packets.flatten() == comm.send_buf
                + read.request.packets.flatten()
            &&& next.comm.send_buf.len() <= UDP_PAYLOAD_LEN
            &&& all_packets(packets)
            &&& next.read.phase is Receiving ==> next.comm.send_buf.len() == 0 && packets.len() == 0
        }),
{
    let buf = comm.send_buf;
    let packets = read.request.packets;
    let n = fitting(buf.len() as int, packets.len() as int);
    let (first, rest) = (packets.take(n), packets.skip(n));
    lemma_flatten_len(first);
    assert(packets =~= first + rest);
    vstd::seq_lib::lemma_flatten_concat(first, rest);
    assert(buf + first.flatten() + rest.flatten() =~= buf + (first.flatten() + rest.flatten()));
}

/// A new request is to be sent behind what waits already.
pub(crate) proof fn lemma_begin(comm: CommState, read: ReadState)
    requires
        comm.send_buf.len() <= UDP_PAYLOAD_LEN,
        read.wf(),
        read.len > 0,
    ensures
        ({
            let next = begin(comm, read);
            let want = request_len(read.len);
            &&& sound(next)
            &&& next.comm.send_buf + next.read.request.packets.flatten() == comm.send_buf
                + request_packet(read.target, read.mode, read.addr, want, comm.next_req_id)
        }),
{
    let id = comm.next_req_id;
    let want = request_len(read.len);
    let request = request_packet(read.target, read.mode, read.addr, want, id);
    let packets = seq![request];
    assert(request.len() == 18);
    packets.lemma_flatten_one_element();
    let asked = ReadState {
        request: TransmissionState { packets, amount: 0 },
        req_id: id,
        want,
        start: read.res.len() as int,
        ..read
    };
    lemma_pump(CommState { next_req_id: wrapping_add(id, 1), ..comm }, asked);
}

/// Every step leaves what a read has come to in order.
pub proof fn law_read_sound(next: ReadNext, event: ReadEventState)
    requires
        sound(next),
        next.read.expects(event),
    ensures
        sound(after(next, event)),
{
    reveal(after);
    let (comm, read) = (next.comm, next.read);
    law_read_range(comm, read, event);
    match event {
        ReadEventState::Start => {},
        ReadEventState::Sent => {
            lemma_pump(CommState { send_buf: Seq::empty(), ..comm }, read);
        },
        ReadEventState::SendFailed => {},
        ReadEventState::ReceiveFailed => {},
        ReadEventState::Datagram(bytes) => {
            lemma_absorb_sound(next, bytes);
        },
        ReadEventState::Drained => {
            if read.last_addr != read.addr {
                lemma_begin(comm, ReadState { retries: 0, last_addr: read.addr, ..read });
            } else if read.retries + 1 < MAX_READ_RETRIES {
                lemma_begin(comm, ReadState { retries: read.retries + 1, ..read });
            }
        },
    }
}

/// A datagram leaves what a read has come to in order.
proof fn lemma_absorb_sound(next: ReadNext, bytes: Seq<u8>)
    requires
        sound(next),
        next.read.phase is Receiving,
    ensures
        sound(absorb(next.comm, next.read, bytes)),
{
    let (comm, read) = (next.comm, next.read);
    law_read_range(comm, read, ReadEventState::Datagram(bytes));
    let got = response(comm.burst, read.req_id, bytes);
    let comm = CommState {
        burst: got.burst,
        received: if got.end == ResponseEnd::Kept {
            comm.received.push(bytes)
        } else {
            comm.received
        },
        ..comm
    };
    let read = ReadState {
        res: read.res + got.data,
        req_id: got.next_id,
        addr: (read.addr + read.want) as u32,
        len: read.len - read.want,
        phase: Phase::Ready,
        ..read
    };
    if read.len > 0 {
        lemma_begin(comm, read);
    }
}

/// A read that has just begun is in order.
pub proof fn law_begun_sound(comm: CommState, target: FPGAModule, addr: u32, len: int, nocarq: bool)
    requires
        comm.send_buf.len() <= UDP_PAYLOAD_LEN,
        0 <= len,
        addr + len <= u32::MAX,
    ensures
        sound(begun(comm, target, addr, len, nocarq)),
{
    if len > 0 {
        lemma_begin(comm, ReadState::initial(target, addr, len, nocarq));
    }
}

/// A read that is in order stays so, whatever happens.
pub proof fn law_run_sound(start: ReadNext, events: Seq<ReadEventState>)
    requires
        sound(start),
        possible(start, events),
    ensures
        sound(run(start, events)),
    decreases events.len(),
{
    if events.len() > 0 {
        law_run_sound(start, events.drop_last());
        law_read_sound(run(start, events.drop_last()), events.last());
    }
}

/// The datagrams that are kept during a read stand in order of arrival behind those that were kept
/// before it.
pub proof fn law_run_kept(start: ReadNext, events: Seq<ReadEventState>)
    requires
        sound(start),
        possible(start, events),
    ensures
        run(start, events).comm.received == start.comm.received + kept(start, events),
    decreases events.len(),
{
    if events.len() == 0 {
        assert(start.comm.received + kept(start, events) =~= start.comm.received);
    } else {
        let early = events.drop_last();
        law_run_kept(start, early);
        let last = run(start, early);
        reveal(after);
        if let ReadEventState::Datagram(bytes) = events.last() {
            assert(start.comm.received + kept(start, early).push(bytes)
                =~= last.comm.received.push(bytes));
        }
    }
}

/// Whether two reads have come to the same, but for the datagrams that are kept.
pub open spec fn same_but_kept(one: ReadNext, other: ReadNext) -> bool {
    &&& one.read == other.read
    &&& one.step == other.step
    &&& one.comm == (CommState { received: one.comm.received, ..other.comm })
}

/// Steps of a read do not depend on what is kept.
proof fn lemma_same_step(one: ReadNext, other: ReadNext, event: ReadEventState)
    requires
        same_but_kept(one, other),
    ensures
        same_but_kept(after(one, event), after(other, event)),
{
    reveal(after);
}

/// A datagram that begins with a posted write is kept, and nothing else happens.
proof fn lemma_write_step(last: ReadNext, bytes: Seq<u8>)
    requires
        sound(last),
        last.read.phase is Receiving,
        begins_with_write(last.comm.burst, bytes),
    ensures
        same_but_kept(after(last, ReadEventState::Datagram(bytes)), last),
{
    reveal(after);
    law_read_keeps_writes(last.comm, last.read, bytes);
}

/// A datagram that begins with a posted write answers no request.
proof fn lemma_write_answers(before: Seq<Seq<u8>>, last: ReadNext, bytes: Seq<u8>)
    requires
        sound(last),
        last.read.phase is Receiving,
        begins_with_write(last.comm.burst, bytes),
        before.len() > 0,
    ensures
        answers_after(before, last, ReadEventState::Datagram(bytes)) == before,
{
    lemma_write_step(last, bytes);
    let got = response(last.comm.burst, last.read.req_id, bytes);
    assert(got.data =~= Seq::empty()) by {
        reveal(packet_response);
    }
    assert(before.last() + got.data =~= before.last());
    assert(before.drop_last().push(before.last()) =~= before);
}

/// Datagrams that begin with a posted write do not disturb a read: it comes to the same without
/// them, but for the datagrams that are kept, and the requests are answered by the same bytes.
pub proof fn law_run_undisturbed(start: ReadNext, events: Seq<ReadEventState>)
    requires
        sound(start),
        possible(start, events),
    ensures
        ({
            let others = without_writes(start, events);
            &&& possible(start, others)
            &&& same_but_kept(run(start, events), run(start, others))
            &&& answers(start, events) == answers(start, others)
        }),
    decreases events.len(),
{
    if events.len() > 0 {
        let early = events.drop_last();
        let event = events.last();
        law_run_undisturbed(start, early);
        law_run_sound(start, early);
        let others = without_writes(start, early);
        let (last, same) = (run(start, early), run(start, others));
        lemma_same_step(last, same, event);
        assert(others.push(event).drop_last() =~= others);
        if let ReadEventState::Datagram(bytes) = event {
            if begins_with_write(last.comm.burst, bytes) {
                lemma_answers_len(start, early);
                lemma_write_step(last, bytes);
                lemma_write_answers(answers(start, early), last, bytes);
            }
        }
    }
}

/// As long as a read is not over, there is a request.
proof fn lemma_answers_len(start: ReadNext, events: Seq<ReadEventState>)
    requires
        sound(start),
        possible(start, events),
    ensures
        !(run(start, events).read.phase is Closed) ==> answers(start, events).len() > 0,
    decreases events.len(),
{
    if events.len() > 0 {
        lemma_answers_len(start, events.drop_last());
    }
}

/// A step ends a read with what it has gathered and what the datagram, if one arrived, brought; and
/// as long as the read is not over, that is what it has gathered then.
proof fn lemma_gathers(last: ReadNext, event: ReadEventState)
    requires
        sound(last),
        last.read.expects(event),
    ensures
        ({
            let next = after(last, event);
            let all = match event {
                ReadEventState::Datagram(bytes) => last.read.res + response(
                    last.comm.burst,
                    last.read.req_id,
                    bytes,
                ).data,
                _ => last.read.res,
            };
            match next.step {
                ReadStepState::Done(bytes) => bytes == all,
                _ => next.read.res == all,
            }
        }),
{
    reveal(after);
}

/// What a read has read is what its requests were answered by, one after the other.
pub proof fn law_run_result(
    comm: CommState,
    target: FPGAModule,
    addr: u32,
    len: int,
    nocarq: bool,
    events: Seq<ReadEventState>,
)
    requires
        comm.send_buf.len() <= UDP_PAYLOAD_LEN,
        0 <= len,
        addr + len <= u32::MAX,
        possible(begun(comm, target, addr, len, nocarq), events),
    ensures
        ({
            let start = begun(comm, target, addr, len, nocarq);
            match run(start, events).step {
                ReadStepState::Done(bytes) => bytes == answers(start, events).flatten(),
                _ => run(start, events).read.res == answers(start, events).flatten(),
            }
        }),
    decreases events.len(),
{
    let start = begun(comm, target, addr, len, nocarq);
    let none = Seq::<u8>::empty();
    law_begun_sound(comm, target, addr, len, nocarq);
    if events.len() == 0 {
        if len > 0 {
            seq![none].lemma_flatten_one_element();
        }
        assert(Seq::<Seq<u8>>::empty().flatten() =~= none);
    } else {
        let early = events.drop_last();
        let event = events.last();
        law_run_result(comm, target, addr, len, nocarq, early);
        law_run_sound(start, early);
        lemma_answers_len(start, early);
        let last = run(start, early);
        lemma_gathers(last, event);
        lemma_answers_flatten(answers(start, early), last, event);
    }
}

/// What a datagram brings comes behind what was brought before.
proof fn lemma_answers_flatten(before: Seq<Seq<u8>>, last: ReadNext, event: ReadEventState)
    requires
        before.len() > 0,
    ensures
        answers_after(before, last, event).flatten() == match event {
            ReadEventState::Datagram(bytes) => before.flatten() + response(
                last.comm.burst,
                last.read.req_id,
                bytes,
            ).data,
            _ => before.flatten(),
        },
{
    let none = Seq::<u8>::empty();
    let early = before.drop_last();
    assert(before =~= early.push(before.last()));
    early.lemma_flatten_push(before.last());
    let brought = match event {
        ReadEventState::Datagram(bytes) => {
            let data = response(last.comm.burst, last.read.req_id, bytes).data;
            early.lemma_flatten_push(before.last() + data);
            assert(early.flatten() + (before.last() + data) =~= early.flatten() + before.last()
                + data);
            early.push(before.last() + data)
        },
        _ => before,
    };
    brought.lemma_flatten_push(none);
    assert(brought.flatten() + none =~= brought.flatten());
}

/// The state after `k` calls of `receive`.
pub open spec fn after_receives(comm: CommState, k: nat) -> CommState
    decreases k,
{
    if k == 0 {
        comm
    } else {
        receive_next(after_receives(comm, (k - 1) as nat)).comm
    }
}

/// Kept datagrams leave the queue in order, oldest first, and nothing else but the burst changes.
pub proof fn law_receive_queue(comm: CommState, k: nat)
    requires
        k <= comm.received.len(),
    ensures
        ({
            let then = after_receives(comm, k);
            &&& then == (CommState {
                burst: then.burst,
                received: comm.received.skip(k as int),
                ..comm
            })
            &&& k < comm.received.len() ==> receive_next(then).out == Some(
                received(then.burst, comm.received[k as int]).out,
            )
            &&& k == comm.received.len() ==> receive_next(then).out is None
        }),
    decreases k,
{
    if k == 0 {
        assert(comm.received.skip(0) =~= comm.received);
    } else {
        law_receive_queue(comm, (k - 1) as nat);
        assert(comm.received.skip(k - 1).drop_first() =~= comm.received.skip(k as int));
    }
}

/// Whether a datagram can be received while no burst is going on, and leaves no burst unfinished.
pub open spec fn whole(datagram: Seq<u8>) -> bool {
    received(None, datagram).burst is None && received(None, datagram).out is Ok
}

/// Kept datagrams that leave no burst unfinished are received in order, each as if it had arrived on
/// its own.
pub proof fn law_receive_whole(comm: CommState, first: Seq<Seq<u8>>, k: nat)
    requires
        comm.burst is None,
        first.is_prefix_of(comm.received),
        forall|i: int| 0 <= i < first.len() ==> whole(#[trigger] first[i]),
        k <= first.len(),
    ensures
        after_receives(comm, k).burst is None,
        k < first.len() ==> receive_next(after_receives(comm, k)).out == Some(
            received(None, first[k as int]).out,
        ),
    decreases k,
{
    law_receive_queue(comm, k);
    assert(forall|i: int| 0 <= i < first.len() ==> first[i] == #[trigger] comm.received[i]) by {
        assert(first =~= comm.received.take(first.len() as int));
    }
    if k > 0 {
        let before = (k - 1) as nat;
        law_receive_whole(comm, first, before);
        law_receive_queue(comm, before);
        assert(whole(first[before as int]));
        assert(after_receives(comm, before).received[0] == comm.received[before as int]);
    }
}

/// Whether a datagram is a single posted write that starts no burst and selects a byte.
pub open spec fn lone_write(datagram: Seq<u8>) -> bool {
    &&& datagram.len() == 18
    &&& begins_with_write(None, datagram)
    &&& burst_after(None, datagram) is None
}

/// The bytes of a single posted write, in ascending order.
pub open spec fn write_bytes(datagram: Seq<u8>) -> Seq<u8> {
    match decode(None, datagram) {
        Some(Packet::Normal(_, _, _, data)) => data.reverse(),
        _ => Seq::empty(),
    }
}

/// A single posted write is received as its bytes.
pub proof fn law_receive_lone_write(datagram: Seq<u8>)
    requires
        lone_write(datagram),
    ensures
        received(None, datagram) == (Received { burst: None, out: Ok(write_bytes(datagram)) }),
{
    let none = Seq::<u8>::empty();
    assert(datagram + none =~= datagram);
    lemma_received_first(None, datagram, none);
    assert(write_bytes(datagram) + none =~= write_bytes(datagram));
}

/// Posted writes that arrive during a read are received after it, in order of arrival, and none of
/// their bytes is in what was read: that is what was read without them.
///
/// This holds of every read that ends with success, whatever else happens during it, if nothing was
/// kept before it, only single posted writes are kept during it, and no burst is going on after it.
pub proof fn law_writes_during_read(
    comm: CommState,
    target: FPGAModule,
    addr: u32,
    len: int,
    nocarq: bool,
    events: Seq<ReadEventState>,
)
    requires
        comm.send_buf.len() <= UDP_PAYLOAD_LEN,
        comm.received.len() == 0,
        0 <= len,
        addr + len <= u32::MAX,
        ({
            let start = begun(comm, target, addr, len, nocarq);
            let writes = kept(start, events);
            &&& possible(start, events)
            &&& run(start, events).step is Done
            &&& run(start, events).comm.burst is None
            &&& forall|i: int| 0 <= i < writes.len() ==> lone_write(#[trigger] writes[i])
        }),
    ensures
        ({
            let start = begun(comm, target, addr, len, nocarq);
            let end = run(start, events);
            let writes = kept(start, events);
            let others = without_writes(start, events);
            // the writes are received one by one, and then there are no more
            &&& forall|k: nat|
                k < writes.len() ==> (#[trigger] receive_next(after_receives(end.comm, k))).out
                    == Some(Ok::<Seq<u8>, CommError>(write_bytes(writes[k as int])))
            &&& receive_next(after_receives(end.comm, writes.len())).out is None
            // no write is left when those that were kept are left out, and what was read stays
            &&& kept(start, others).len() == 0
            &&& possible(start, others)
            &&& end.step == ReadStepState::Done(answers(start, others).flatten())
            &&& run(start, others).step == end.step
        }),
{
    let start = begun(comm, target, addr, len, nocarq);
    let end = run(start, events);
    let writes = kept(start, events);
    law_begun_sound(comm, target, addr, len, nocarq);
    law_run_kept(start, events);
    lemma_begun_received(comm, target, addr, len, nocarq);
    assert(end.comm.received =~= writes);
    assert(writes.is_prefix_of(end.comm.received)) by {
        assert(writes =~= end.comm.received.take(writes.len() as int));
    }
    assert forall|i: int| 0 <= i < writes.len() implies whole(#[trigger] writes[i]) by {
        law_receive_lone_write(writes[i]);
    }
    assert forall|k: nat| k < writes.len() implies (#[trigger] receive_next(
        after_receives(end.comm, k),
    )).out == Some(Ok::<Seq<u8>, CommError>(write_bytes(writes[k as int]))) by {
        law_receive_whole(end.comm, writes, k);
        law_receive_lone_write(writes[k as int]);
    }
    law_receive_queue(end.comm, writes.len());
    law_run_undisturbed(start, events);
    law_run_result(comm, target, addr, len, nocarq, events);
    lemma_no_writes_left(start, events);
}

/// The start of a read keeps no datagram.
proof fn lemma_begun_received(
    comm: CommState,
    target: FPGAModule,
    addr: u32,
    len: int,
    nocarq: bool,
)
    ensures
        begun(comm, target, addr, len, nocarq).comm.received == comm.received,
{
}

/// A datagram with a single packet is kept only if it begins with a posted write.
proof fn lemma_single_kept(burst: Option<(u8, bool)>, id: u32, bytes: Seq<u8>)
    requires
        bytes.len() == 18,
        response(burst, id, bytes).end == ResponseEnd::Kept,
    ensures
        begins_with_write(burst, bytes),
{
    reveal(packet_response);
    reveal_with_fuel(response, 2);
}

/// If only single posted writes are kept, nothing is kept without them.
proof fn lemma_no_writes_left(start: ReadNext, events: Seq<ReadEventState>)
    requires
        sound(start),
        possible(start, events),
        ({
            let writes = kept(start, events);
            forall|i: int| 0 <= i < writes.len() ==> lone_write(#[trigger] writes[i])
        }),
    ensures
        kept(start, without_writes(start, events)).len() == 0,
    decreases events.len(),
{
    if events.len() > 0 {
        let early = events.drop_last();
        let event = events.last();
        let before = kept(start, early);
        let writes = kept(start, events);
        assert forall|i: int| 0 <= i < before.len() implies lone_write(#[trigger] before[i]) by {
            assert(writes[i] == before[i]);
        }
        lemma_no_writes_left(start, early);
        law_run_undisturbed(start, early);
        let others = without_writes(start, early);
        let last = run(start, early);
        assert(others.push(event).drop_last() =~= others);
        if let ReadEventState::Datagram(bytes) = event {
            let got = response(last.comm.burst, last.read.req_id, bytes);
            if got.end == ResponseEnd::Kept {
                assert(writes[before.len() as int] == bytes);
                lemma_single_kept(last.comm.burst, last.read.req_id, bytes);
            }
        }
    }
}

} // verus!
