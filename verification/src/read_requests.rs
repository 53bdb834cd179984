//! Which requests a read makes, and what the answers to them come to.
use vstd::prelude::*;

use crate::communicator::{wrapping_add, CommState};
use crate::packet::{FPGAModule, UDP_PAYLOAD_LEN};
use crate::read::{
    absorb, begin, proceed, read_mode, read_next, request_len, request_packet, response, Phase,
    ReadEventState, ReadNext, ReadState, ReadStepState, ResponseEnd, MAX_READ_REQ_LEN,
};
use crate::read_laws::{
    law_absorb_split, law_read_range, law_response_split, lemma_requests_needed,
    lemma_response_prefix, lemma_wrapping_add, requests_needed,
};
use crate::read_runs::{
    after, answers, answers_after, begun, law_begun_sound, law_run_result, law_run_sound,
    lemma_begin, lemma_pump, possible, run, sent, sound,
};
use crate::transmit::{filled, unfilled};

verus! {

/// The request with index `i` of a read: its address and id follow from those of the first one.
pub open spec fn nth_request(
    comm: CommState,
    target: FPGAModule,
    addr: u32,
    len: int,
    nocarq: bool,
    i: int,
) -> Seq<u8> {
    request_packet(
        target,
        read_mode(nocarq),
        (addr + MAX_READ_REQ_LEN * i) as u32,
        request_len(len - MAX_READ_REQ_LEN * i),
        wrapping_add(comm.next_req_id, i),
    )
}

/// The first `n` requests of a read.
pub open spec fn first_requests(
    comm: CommState,
    target: FPGAModule,
    addr: u32,
    len: int,
    nocarq: bool,
    n: int,
) -> Seq<Seq<u8>> {
    Seq::new(n as nat, |i: int| nth_request(comm, target, addr, len, nocarq, i))
}

/// Whether no request has failed that was made anew.
pub open spec fn never_drained(events: Seq<ReadEventState>) -> bool {
    forall|i: int| 0 <= i < events.len() ==> !(#[trigger] events[i] is Drained)
}

/// Whether what a read has come to fits to `count` requests that were made one behind the other and
/// were answered by `got`, after `bytes` were sent.
spec fn on_plan(
    comm: CommState,
    target: FPGAModule,
    addr: u32,
    len: int,
    nocarq: bool,
    next: ReadNext,
    got: Seq<Seq<u8>>,
    bytes: Seq<u8>,
) -> bool {
    let i = got.len() - 1;
    let read = next.read;
    let made = comm.send_buf + first_requests(
        comm,
        target,
        addr,
        len,
        nocarq,
        i + 1,
    ).flatten();
    let full = forall|j: int|
        0 <= j < i ==> #[trigger] got[j].len() == MAX_READ_REQ_LEN && MAX_READ_REQ_LEN * (j + 1)
            < len;
    &&& next.comm.next_req_id == wrapping_add(comm.next_req_id, i + 1)
    &&& read.target == target
    &&& read.mode == read_mode(nocarq)
    &&& match read.phase {
        Phase::Sending | Phase::Receiving => {
            &&& i >= 0
            &&& full
            &&& read.addr == addr + MAX_READ_REQ_LEN * i
            &&& read.len == len - MAX_READ_REQ_LEN * i
            &&& read.start == MAX_READ_REQ_LEN * i
            &&& got[i].len() == read.res.len() - read.start
            &&& bytes + (next.comm.send_buf + read.request.packets.flatten()) == made
        },
        Phase::Closed => next.step is Done && len > 0 ==> {
            &&& i >= 0
            &&& full
            &&& len - MAX_READ_REQ_LEN * i == got[i].len()
            &&& 0 < got[i].len() <= MAX_READ_REQ_LEN
            &&& next.comm.send_buf.len() == 0
            &&& bytes == made
        },
        _ => true,
    }
}

/// The requests with one more.
proof fn lemma_more_requests(
    comm: CommState,
    target: FPGAModule,
    addr: u32,
    len: int,
    nocarq: bool,
    n: int,
)
    requires
        n >= 0,
    ensures
        first_requests(comm, target, addr, len, nocarq, n + 1).flatten() == first_requests(
            comm,
            target,
            addr,
            len,
            nocarq,
            n,
        ).flatten() + nth_request(comm, target, addr, len, nocarq, n),
{
    let some = first_requests(comm, target, addr, len, nocarq, n);
    let one = nth_request(comm, target, addr, len, nocarq, n);
    assert(first_requests(comm, target, addr, len, nocarq, n + 1) =~= some.push(one));
    some.lemma_flatten_push(one);
}

/// A read that has just begun has made its first request, if it needs one.
proof fn lemma_plan_begun(comm: CommState, target: FPGAModule, addr: u32, len: int, nocarq: bool)
    requires
        comm.send_buf.len() <= UDP_PAYLOAD_LEN,
        0 <= len,
        addr + len <= u32::MAX,
    ensures
        ({
            let start = begun(comm, target, addr, len, nocarq);
            on_plan(
                comm,
                target,
                addr,
                len,
                nocarq,
                start,
                answers(start, Seq::empty()),
                Seq::empty(),
            )
        }),
{
    let start = begun(comm, target, addr, len, nocarq);
    if len > 0 {
        let none = Seq::<u8>::empty();
        let one = nth_request(comm, target, addr, len, nocarq, 0);
        lemma_begun_fields(comm, target, addr, len, nocarq);
        lemma_more_requests(comm, target, addr, len, nocarq, 0);
        assert(first_requests(comm, target, addr, len, nocarq, 0).flatten() =~= none);
        assert(none + one =~= one);
        let waiting = start.comm.send_buf + start.read.request.packets.flatten();
        assert(none + waiting =~= waiting);
        assert(answers(start, Seq::empty()) == seq![none]);
    }
}

/// What a read that needs a request is at when it has just begun.
proof fn lemma_begun_fields(
    comm: CommState,
    target: FPGAModule,
    addr: u32,
    len: int,
    nocarq: bool,
)
    requires
        comm.send_buf.len() <= UDP_PAYLOAD_LEN,
        0 < len,
        addr + len <= u32::MAX,
    ensures
        ({
            let start = begun(comm, target, addr, len, nocarq);
            let read = start.read;
            &&& sound(start)
            &&& read.phase is Sending || read.phase is Receiving
            &&& !(start.step is Done)
            &&& start.comm.next_req_id == wrapping_add(comm.next_req_id, 1)
            &&& start.comm.send_buf + read.request.packets.flatten() == comm.send_buf + nth_request(
                comm,
                target,
                addr,
                len,
                nocarq,
                0,
            )
            &&& read.target == target
            &&& read.mode == read_mode(nocarq)
            &&& read.addr == addr
            &&& read.len == len
            &&& read.start == 0
            &&& read.res.len() == 0
        }),
{
    let read = ReadState::initial(target, addr, len, nocarq);
    lemma_begin(comm, read);
    assert(begun(comm, target, addr, len, nocarq) == begin(comm, read));
    assert(wrapping_add(comm.next_req_id, 0) == comm.next_req_id);
}

/// Sending goes on as planned.
proof fn lemma_plan_sent(
    comm: CommState,
    target: FPGAModule,
    addr: u32,
    len: int,
    nocarq: bool,
    last: ReadNext,
    got: Seq<Seq<u8>>,
    bytes: Seq<u8>,
)
    requires
        sound(last),
        last.read.phase is Sending,
        on_plan(comm, target, addr, len, nocarq, last, got, bytes),
    ensures
        on_plan(
            comm,
            target,
            addr,
            len,
            nocarq,
            after(last, ReadEventState::Sent),
            got,
            bytes + last.comm.send_buf,
        ),
        after(last, ReadEventState::Sent).comm.next_req_id == last.comm.next_req_id,
{
    reveal(after);
    let none = Seq::<u8>::empty();
    let empty = CommState { send_buf: none, ..last.comm };
    let packets = last.read.request.packets;
    lemma_pump(empty, last.read);
    assert(none + packets.flatten() =~= packets.flatten());
    assert(bytes + last.comm.send_buf + packets.flatten() =~= bytes + (last.comm.send_buf
        + packets.flatten()));
}

/// Whether a datagram makes a read go on with the next request, or end.
spec fn completes(last: ReadNext, bytes: Seq<u8>) -> bool {
    let got = response(last.comm.burst, last.read.req_id, bytes);
    &&& got.end == ResponseEnd::Consumed || got.end == ResponseEnd::Kept
    &&& last.read.res.len() + got.data.len() == last.read.start + last.read.want
}

/// What a read goes on with when a request is answered.
spec fn answered(last: ReadNext, bytes: Seq<u8>) -> (CommState, ReadState) {
    let got = response(last.comm.burst, last.read.req_id, bytes);
    (
        CommState {
            burst: got.burst,
            received: if got.end == ResponseEnd::Kept {
                last.comm.received.push(bytes)
            } else {
                last.comm.received
            },
            ..last.comm
        },
        ReadState {
            res: last.read.res + got.data,
            req_id: got.next_id,
            addr: (last.read.addr + last.read.want) as u32,
            len: last.read.len - last.read.want,
            ..last.read
        },
    )
}

/// A datagram either completes the answer to the request, or the read goes on with the same request,
/// or it fails.
proof fn lemma_datagram(last: ReadNext, bytes: Seq<u8>)
    requires
        sound(last),
        last.read.phase is Receiving,
    ensures
        ({
            let next = after(last, ReadEventState::Datagram(bytes));
            let got = response(last.comm.burst, last.read.req_id, bytes);
            if completes(last, bytes) {
                next == proceed(answered(last, bytes).0, answered(last, bytes).1)
            } else {
                &&& next.comm.next_req_id == last.comm.next_req_id
                &&& next.comm.send_buf == last.comm.send_buf
                &&& next.read == (ReadState {
                    res: last.read.res + got.data,
                    req_id: got.next_id,
                    phase: next.read.phase,
                    ..last.read
                })
                &&& !(next.step is Done)
                &&& !(next.read.phase is Sending)
            }
        }),
{
    reveal(after);
}

/// A request that is answered is followed by the next one as planned.
proof fn lemma_plan_answered(
    comm: CommState,
    target: FPGAModule,
    addr: u32,
    len: int,
    nocarq: bool,
    last: ReadNext,
    got: Seq<Seq<u8>>,
    bytes: Seq<u8>,
    datagram: Seq<u8>,
)
    requires
        sound(last),
        last.read.phase is Receiving,
        completes(last, datagram),
        on_plan(comm, target, addr, len, nocarq, last, got, bytes),
        0 <= len,
        addr + len <= u32::MAX,
    ensures
        on_plan(
            comm,
            target,
            addr,
            len,
            nocarq,
            after(last, ReadEventState::Datagram(datagram)),
            answers_after(got, last, ReadEventState::Datagram(datagram)),
            bytes,
        ),
{
    let event = ReadEventState::Datagram(datagram);
    let (then, read) = answered(last, datagram);
    let next = after(last, event);
    let i = got.len() - 1;
    let data = response(last.comm.burst, last.read.req_id, datagram).data;
    let brought = got.drop_last().push(got.last() + data);
    lemma_datagram(last, datagram);
    let none = Seq::<u8>::empty();
    let made = comm.send_buf + first_requests(comm, target, addr, len, nocarq, i + 1).flatten();
    assert(last.read.request.packets.flatten() =~= none);
    assert(last.comm.send_buf + none =~= none);
    assert(bytes + none =~= bytes);
    assert(bytes == made);
    assert(brought[i].len() == last.read.want);
    assert forall|j: int| 0 <= j < i implies #[trigger] brought[j].len() == MAX_READ_REQ_LEN
        && MAX_READ_REQ_LEN * (j + 1) < len by {
        assert(brought[j] == got[j]);
    }
    if read.len > 0 {
        let ready = ReadState { phase: Phase::Ready, ..read };
        assert(begin(then, read) == begin(then, ready));
        lemma_begin(then, ready);
        lemma_more_requests(comm, target, addr, len, nocarq, i + 1);
        lemma_wrapping_add(comm.next_req_id, i + 1, 1);
        lemma_next_id(last.comm.next_req_id);
        let one = nth_request(comm, target, addr, len, nocarq, i + 1);
        assert(then.send_buf + one =~= one);
        assert(made + one =~= comm.send_buf + (first_requests(
            comm,
            target,
            addr,
            len,
            nocarq,
            i + 1,
        ).flatten() + one));
        let all = answers_after(got, last, event);
        assert(all == brought.push(none));
        assert forall|j: int| 0 <= j < i + 1 implies #[trigger] all[j].len() == MAX_READ_REQ_LEN
            && MAX_READ_REQ_LEN * (j + 1) < len by {
            assert(all[j] == brought[j]);
        }
    }
}

/// The next id is another one.
proof fn lemma_next_id(id: u32)
    ensures
        wrapping_add(id, 1) != id,
{
}

/// A datagram goes on as planned.
proof fn lemma_plan_datagram(
    comm: CommState,
    target: FPGAModule,
    addr: u32,
    len: int,
    nocarq: bool,
    last: ReadNext,
    got: Seq<Seq<u8>>,
    bytes: Seq<u8>,
    datagram: Seq<u8>,
)
    requires
        sound(last),
        last.read.phase is Receiving,
        on_plan(comm, target, addr, len, nocarq, last, got, bytes),
        0 <= len,
        addr + len <= u32::MAX,
    ensures
        on_plan(
            comm,
            target,
            addr,
            len,
            nocarq,
            after(last, ReadEventState::Datagram(datagram)),
            answers_after(got, last, ReadEventState::Datagram(datagram)),
            bytes,
        ),
{
    if completes(last, datagram) {
        lemma_plan_answered(comm, target, addr, len, nocarq, last, got, bytes, datagram);
    } else {
        lemma_datagram(last, datagram);
        let data = response(last.comm.burst, last.read.req_id, datagram).data;
        let i = got.len() - 1;
        let all = answers_after(got, last, ReadEventState::Datagram(datagram));
        assert(all == got.drop_last().push(got.last() + data));
        assert forall|j: int| 0 <= j < i implies #[trigger] all[j].len() == MAX_READ_REQ_LEN
            && MAX_READ_REQ_LEN * (j + 1) < len by {
            assert(all[j] == got[j]);
        }
    }
}

/// A read goes on as planned until a request fails.
proof fn lemma_plan(
    comm: CommState,
    target: FPGAModule,
    addr: u32,
    len: int,
    nocarq: bool,
    events: Seq<ReadEventState>,
)
    requires
        comm.send_buf.len() <= UDP_PAYLOAD_LEN,
        0 <= len,
        addr + len <= u32::MAX,
        possible(begun(comm, target, addr, len, nocarq), events),
        never_drained(events),
    ensures
        ({
            let start = begun(comm, target, addr, len, nocarq);
            on_plan(
                comm,
                target,
                addr,
                len,
                nocarq,
                run(start, events),
                answers(start, events),
                sent(start, events),
            )
        }),
    decreases events.len(),
{
    let start = begun(comm, target, addr, len, nocarq);
    law_begun_sound(comm, target, addr, len, nocarq);
    if events.len() == 0 {
        assert(events =~= Seq::empty());
        lemma_plan_begun(comm, target, addr, len, nocarq);
    } else {
        let early = events.drop_last();
        assert(never_drained(early)) by {
            assert forall|i: int| 0 <= i < early.len() implies !(#[trigger] early[i] is Drained) by {
                assert(early[i] == events[i]);
            }
        }
        assert(events.last() == events[events.len() - 1]);
        lemma_plan(comm, target, addr, len, nocarq, early);
        law_run_sound(start, early);
        let last = run(start, early);
        let got = answers(start, early);
        let bytes = sent(start, early);
        match events.last() {
            ReadEventState::Sent => {
                lemma_plan_sent(comm, target, addr, len, nocarq, last, got, bytes);
            },
            ReadEventState::Datagram(datagram) => {
                lemma_plan_datagram(comm, target, addr, len, nocarq, last, got, bytes, datagram);
            },
            _ => {
                reveal(after);
            },
        }
    }
}

/// A read during which no request fails makes the requests for its bytes one behind the other: the
/// request with index `i` is for the bytes from `MAX_READ_REQ_LEN * i` on, `MAX_READ_REQ_LEN` of them
/// or as many as are left, at the address where they are and under the id `i` behind that of the first
/// request. What it reads is what the requests were answered by, one after the other, and each request
/// was answered by as many bytes as it asked for. Nothing else is sent but what waited to be sent
/// before; if there is nothing to read, nothing is sent.
///
/// This holds whatever else happens during the read: however the answers are cut into datagrams, and
/// whatever other packets arrive.
pub proof fn law_read_whole(
    comm: CommState,
    target: FPGAModule,
    addr: u32,
    len: int,
    nocarq: bool,
    events: Seq<ReadEventState>,
)
    requires
        comm.send_buf.len() <= UDP_PAYLOAD_LEN,
        0 <= len,
        addr + len <= u32::MAX,
        ({
            let start = begun(comm, target, addr, len, nocarq);
            &&& possible(start, events)
            &&& never_drained(events)
            &&& run(start, events).step is Done
        }),
    ensures
        ({
            let start = begun(comm, target, addr, len, nocarq);
            let end = run(start, events);
            let got = answers(start, events);
            let n = requests_needed(len);
            &&& end.step == ReadStepState::Done(got.flatten())
            &&& got.len() == n
            &&& forall|i: int|
                0 <= i < n ==> #[trigger] got[i].len() == request_len(len - MAX_READ_REQ_LEN * i)
            &&& sent(start, events) == if len == 0 {
                Seq::empty()
            } else {
                comm.send_buf + first_requests(comm, target, addr, len, nocarq, n).flatten()
            }
            &&& end.comm.next_req_id == wrapping_add(comm.next_req_id, n)
        }),
{
    let start = begun(comm, target, addr, len, nocarq);
    let got = answers(start, events);
    law_begun_sound(comm, target, addr, len, nocarq);
    law_run_sound(start, events);
    law_run_result(comm, target, addr, len, nocarq, events);
    lemma_plan(comm, target, addr, len, nocarq, events);
    reveal(requests_needed);
    if len == 0 {
        lemma_nothing_happens(start, events);
    }
}

/// Nothing can happen after a read is over.
proof fn lemma_nothing_happens(start: ReadNext, events: Seq<ReadEventState>)
    requires
        start.read.phase is Closed,
        possible(start, events),
    ensures
        events.len() == 0,
    decreases events.len(),
{
    if events.len() > 0 {
        lemma_nothing_happens(start, events.drop_last());
    }
}

/// What happens when a request is sent and answered by the datagrams.
pub open spec fn reply_events(datagrams: Seq<Seq<u8>>) -> Seq<ReadEventState> {
    seq![ReadEventState::Sent] + arrivals(datagrams)
}

/// The datagrams arrive one after the other.
pub open spec fn arrivals(datagrams: Seq<Seq<u8>>) -> Seq<ReadEventState> {
    Seq::new(datagrams.len(), |i: int| ReadEventState::Datagram(datagrams[i]))
}

/// What happens when request after request is sent and answered.
pub open spec fn replies_events(replies: Seq<Seq<Seq<u8>>>) -> Seq<ReadEventState>
    decreases replies.len(),
{
    if replies.len() == 0 {
        Seq::empty()
    } else {
        reply_events(replies[0]) + replies_events(replies.drop_first())
    }
}

/// Whether a read is in order when no request is going on.
spec fn between_requests(read: ReadState) -> bool {
    ReadState { phase: Phase::Ready, ..read }.wf()
}

/// Whether the datagrams, which consist of whole packets, answer the request `id` with `data`: it is
/// complete with the last one, and no burst goes on.
pub open spec fn reply_brings(id: u32, datagrams: Seq<Seq<u8>>, data: Seq<u8>) -> bool {
    let got = response(None, id, datagrams.flatten());
    &&& datagrams.len() > 0
    &&& forall|i: int| 0 <= i < datagrams.len() ==> #[trigger] datagrams[i].len() % 18 == 0
    &&& got.end == ResponseEnd::Consumed
    &&& got.burst is None
    &&& got.data == data
    &&& response(None, id, datagrams.drop_last().flatten()).data.len() < data.len()
}

/// More events go on with what was run before.
proof fn lemma_run_concat(
    start: ReadNext,
    first: Seq<ReadEventState>,
    second: Seq<ReadEventState>,
)
    ensures
        run(start, first + second) == run(run(start, first), second),
        possible(start, first + second) <==> possible(start, first) && possible(
            run(start, first),
            second,
        ),
    decreases second.len(),
{
    if second.len() == 0 {
        assert(first + second =~= first);
    } else {
        lemma_run_concat(start, first, second.drop_last());
        assert((first + second).drop_last() =~= first + second.drop_last());
        assert((first + second).last() == second.last());
    }
}

/// A single event.
proof fn lemma_run_one(start: ReadNext, event: ReadEventState)
    ensures
        run(start, seq![event]) == read_next(start.comm, start.read, event),
        possible(start, seq![event]) <==> start.read.expects(event),
{
    reveal(after);
    assert(seq![event].drop_last() =~= Seq::empty());
    assert(seq![event].last() == event);
    assert(run(start, Seq::empty()) == start);
    assert(possible(start, Seq::empty()));
}

/// Datagrams that answer a request arrive one after the other.
proof fn lemma_run_arrivals(start: ReadNext, datagrams: Seq<Seq<u8>>)
    requires
        start.read.wf(),
        start.read.phase is Receiving,
        datagrams.len() > 0,
        forall|i: int| 0 <= i < datagrams.len() ==> #[trigger] datagrams[i].len() % 18 == 0,
        response(start.comm.burst, start.read.req_id, datagrams.flatten()).end
            == ResponseEnd::Consumed,
        start.read.res.len() + response(
            start.comm.burst,
            start.read.req_id,
            datagrams.drop_last().flatten(),
        ).data.len() < start.read.start + start.read.want,
    ensures
        run(start, arrivals(datagrams)) == absorb(start.comm, start.read, datagrams.flatten()),
        possible(start, arrivals(datagrams)),
    decreases datagrams.len(),
{
    let (comm, read) = (start.comm, start.read);
    let first = datagrams[0];
    let event = ReadEventState::Datagram(first);
    lemma_run_one(start, event);
    if datagrams.len() == 1 {
        datagrams.lemma_flatten_one_element();
        assert(arrivals(datagrams) =~= seq![event]);
    } else {
        let rest = datagrams.drop_first();
        let early = datagrams.drop_last();
        assert(early.drop_first() =~= rest.drop_last());
        lemma_response_prefix(comm.burst, read.req_id, first, rest.flatten());
        law_response_split(comm.burst, read.req_id, first, rest.flatten());
        law_response_split(comm.burst, read.req_id, first, rest.drop_last().flatten());
        law_absorb_split(comm, read, first, rest.flatten());
        let next = absorb(comm, read, first);
        assert forall|i: int| 0 <= i < rest.len() implies #[trigger] rest[i].len() % 18 == 0 by {
            assert(rest[i] == datagrams[i + 1]);
        }
        law_read_range(comm, read, event);
        lemma_run_arrivals(next, rest);
        assert(arrivals(datagrams) =~= seq![event] + arrivals(rest));
        lemma_run_concat(start, seq![event], arrivals(rest));
    }
}

/// A request that is sent at once leaves nothing behind.
proof fn lemma_request_sent(comm: CommState, read: ReadState)
    requires
        comm.send_buf.len() == 0,
        read.wf(),
        read.len > 0,
    ensures
        ({
            let start = begin(comm, read);
            let next = read_next(start.comm, start.read, ReadEventState::Sent);
            let id = comm.next_req_id;
            &&& start.read.phase is Sending
            &&& next.comm == (CommState { next_req_id: wrapping_add(id, 1), ..comm })
            &&& next.read == (ReadState {
                request: next.read.request,
                req_id: id,
                want: request_len(read.len),
                start: read.res.len() as int,
                phase: Phase::Receiving,
                ..read
            })
        }),
{
    lemma_begin(comm, read);
    let start = begin(comm, read);
    let request = request_packet(
        read.target,
        read.mode,
        read.addr,
        request_len(read.len),
        comm.next_req_id,
    );
    let packets = seq![request];
    let none = Seq::<Seq<u8>>::empty();
    assert(request.len() == 18);
    assert(packets.take(1) =~= packets);
    packets.lemma_flatten_one_element();
    assert(packets.skip(1) =~= none);
    assert(filled(comm.send_buf, packets) =~= request);
    assert(none.take(0) =~= none);
    assert(filled(Seq::empty(), none) =~= Seq::empty());
    assert(unfilled(comm.send_buf, packets) == none);
    assert(comm.send_buf =~= Seq::empty());
}

/// A request that is answered is over, and the read goes on behind it.
proof fn lemma_one_reply(
    comm: CommState,
    read: ReadState,
    datagrams: Seq<Seq<u8>>,
    data: Seq<u8>,
) -> (then: (CommState, ReadState))
    requires
        comm.send_buf.len() == 0,
        comm.burst is None,
        read.wf(),
        read.len > 0,
        reply_brings(comm.next_req_id, datagrams, data),
        data.len() == request_len(read.len),
    ensures
        run(begin(comm, read), reply_events(datagrams)) == proceed(then.0, then.1),
        possible(begin(comm, read), reply_events(datagrams)),
        then.0 == (CommState { next_req_id: wrapping_add(comm.next_req_id, 1), ..comm }),
        between_requests(then.1),
        then.1.len == read.len - data.len(),
        then.1.res == read.res + data,
{
    let start = begin(comm, read);
    let event = ReadEventState::Sent;
    lemma_request_sent(comm, read);
    lemma_run_one(start, event);
    let next = run(start, seq![event]);
    lemma_run_arrivals(next, datagrams);
    lemma_run_concat(start, seq![event], arrivals(datagrams));
    let got = response(None, comm.next_req_id, datagrams.flatten());
    let then = ReadState {
        res: next.read.res + got.data,
        req_id: got.next_id,
        addr: (read.addr + next.read.want) as u32,
        len: read.len - next.read.want,
        ..next.read
    };
    assert(absorb(next.comm, next.read, datagrams.flatten()) == proceed(next.comm, then));
    (next.comm, then)
}

/// A read whose requests are answered one after the other goes on to its end.
proof fn lemma_replies(
    comm: CommState,
    read: ReadState,
    replies: Seq<Seq<Seq<u8>>>,
    data: Seq<Seq<u8>>,
)
    requires
        comm.send_buf.len() == 0,
        comm.burst is None,
        between_requests(read),
        replies.len() == requests_needed(read.len),
        data.len() == replies.len(),
        forall|i: int|
            0 <= i < replies.len() ==> {
                &&& reply_brings(wrapping_add(comm.next_req_id, i), #[trigger] replies[i], data[i])
                &&& data[i].len() == request_len(read.len - MAX_READ_REQ_LEN * i)
            },
    ensures
        possible(proceed(comm, read), replies_events(replies)),
        run(proceed(comm, read), replies_events(replies)).step == ReadStepState::Done(
            read.res + data.flatten(),
        ),
    decreases replies.len(),
{
    if read.len == 0 {
        reveal(requests_needed);
        assert(data.flatten() =~= Seq::empty());
        assert(read.res + data.flatten() =~= read.res);
    } else {
        lemma_requests_needed(read.len);
        let id = comm.next_req_id;
        let ready = ReadState { phase: Phase::Ready, ..read };
        assert(begin(comm, read) == begin(comm, ready));
        assert(wrapping_add(id, 0) == id);
        assert(replies[0] == replies[0]);
        let (then, next) = lemma_one_reply(comm, ready, replies[0], data[0]);
        let (rest, more) = (replies.drop_first(), data.drop_first());
        assert forall|i: int| 0 <= i < rest.len() implies {
            &&& reply_brings(wrapping_add(then.next_req_id, i), #[trigger] rest[i], more[i])
            &&& more[i].len() == request_len(next.len - MAX_READ_REQ_LEN * i)
        } by {
            assert(rest[i] == replies[i + 1]);
            assert(more[i] == data[i + 1]);
            lemma_wrapping_add(id, 1, i);
            reveal(requests_needed);
        }
        lemma_replies(then, next, rest, more);
        lemma_run_concat(begin(comm, read), reply_events(replies[0]), replies_events(rest));
        assert(read.res + data[0] + more.flatten() =~= read.res + data.flatten());
    }
}

/// Replies are no failures.
proof fn lemma_replies_never_drained(replies: Seq<Seq<Seq<u8>>>)
    ensures
        never_drained(replies_events(replies)),
    decreases replies.len(),
{
    if replies.len() > 0 {
        lemma_replies_never_drained(replies.drop_first());
    }
}

/// If a device answers every request of a read with the bytes that it asks for, the read sends these
/// requests, ends with success, and has read the bytes of the answers one after the other. An answer
/// may consist of any number of datagrams.
pub proof fn law_read_replies(
    comm: CommState,
    target: FPGAModule,
    addr: u32,
    len: int,
    nocarq: bool,
    replies: Seq<Seq<Seq<u8>>>,
    data: Seq<Seq<u8>>,
)
    requires
        comm.send_buf.len() == 0,
        comm.burst is None,
        0 <= len,
        addr + len <= u32::MAX,
        replies.len() == requests_needed(len),
        data.len() == replies.len(),
        forall|i: int|
            0 <= i < replies.len() ==> {
                &&& reply_brings(wrapping_add(comm.next_req_id, i), #[trigger] replies[i], data[i])
                &&& data[i].len() == request_len(len - MAX_READ_REQ_LEN * i)
            },
    ensures
        ({
            let start = begun(comm, target, addr, len, nocarq);
            let events = replies_events(replies);
            let n = requests_needed(len);
            &&& possible(start, events)
            &&& run(start, events).step == ReadStepState::Done(data.flatten())
            &&& sent(start, events) == first_requests(
                comm,
                target,
                addr,
                len,
                nocarq,
                n,
            ).flatten()
        }),
{
    let read = ReadState::initial(target, addr, len, nocarq);
    let start = begun(comm, target, addr, len, nocarq);
    let requests = first_requests(comm, target, addr, len, nocarq, requests_needed(len));
    lemma_replies(comm, read, replies, data);
    assert(start == proceed(comm, read));
    assert(read.res + data.flatten() =~= data.flatten());
    lemma_replies_never_drained(replies);
    law_read_whole(comm, target, addr, len, nocarq, replies_events(replies));
    reveal(requests_needed);
    assert(comm.send_buf + requests.flatten() =~= requests.flatten());
    if len == 0 {
        assert(requests.flatten() =~= Seq::empty());
    }
}

} // verus!
