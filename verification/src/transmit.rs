//! Sending packets: as many as fit travel together in one datagram.
use std::collections::VecDeque;

use vstd::prelude::*;

use crate::communicator::{CommState, Communicator};
use crate::packet::UDP_PAYLOAD_LEN;

verus! {

/// The mathematical value of a `Transmission`.
#[verifier::ext_equal]
pub struct TransmissionState {
    /// Packets that have not been put into the send buffer yet.
    pub packets: Seq<Seq<u8>>,
    /// What the transmission reports when it is done.
    pub amount: usize,
}

/// Packets on their way to the device.
pub struct Transmission {
    packets: VecDeque<[u8; 18]>,
    amount: usize,
}

impl View for Transmission {
    type V = TransmissionState;

    closed spec fn view(&self) -> TransmissionState {
        TransmissionState {
            packets: self.packets@.map_values(|pkt: [u8; 18]| pkt@),
            amount: self.amount,
        }
    }
}

/// What a transmission needs next.
#[derive(Debug)]
pub enum SendStep {
    /// Send this datagram, then report that it was sent. If sending fails, the transmission ends and
    /// the packets of the datagram go out with the next one.
    Send(Vec<u8>),
    /// Everything was sent. The number is the amount that the transmission was made with.
    Done(usize),
}

/// The mathematical value of a `SendStep`.
pub enum SendStepState {
    Send(Seq<u8>),
    Done(usize),
}

impl View for SendStep {
    type V = SendStepState;

    open spec fn view(&self) -> SendStepState {
        match self {
            SendStep::Send(datagram) => SendStepState::Send(datagram@),
            SendStep::Done(amount) => SendStepState::Done(*amount),
        }
    }
}

/// How many of `count` packets fit into a datagram of which `used` bytes are taken.
pub open spec fn fitting(used: int, count: int) -> int {
    let room = (UDP_PAYLOAD_LEN - used) / 18;
    if count <= room {
        count
    } else {
        room
    }
}

/// The send buffer after as many packets as fit were put into it.
pub open spec fn filled(buf: Seq<u8>, packets: Seq<Seq<u8>>) -> Seq<u8> {
    buf + packets.take(fitting(buf.len() as int, packets.len() as int)).flatten()
}

/// The packets that did not fit into the send buffer.
pub open spec fn unfilled(buf: Seq<u8>, packets: Seq<Seq<u8>>) -> Seq<Seq<u8>> {
    packets.skip(fitting(buf.len() as int, packets.len() as int))
}

/// What a transmission needs next, once the send buffer is filled.
pub open spec fn send_step(buf: Seq<u8>, amount: usize) -> SendStepState {
    if buf.len() == 0 {
        SendStepState::Done(amount)
    } else {
        SendStepState::Send(buf)
    }
}

/// Whether all are packets of the right length.
pub open spec fn all_packets(packets: Seq<Seq<u8>>) -> bool {
    forall|i: int| 0 <= i < packets.len() ==> #[trigger] packets[i].len() == 18
}

/// Packets of the right length take up eighteen bytes each.
pub(crate) proof fn lemma_flatten_len(packets: Seq<Seq<u8>>)
    requires
        all_packets(packets),
    ensures
        packets.flatten().len() == 18 * packets.len(),
    decreases packets.len(),
{
    if packets.len() > 0 {
        lemma_flatten_len(packets.drop_first());
    }
}

impl Transmission {
    /// Starts without packets.
    pub fn new() -> (tx: Self)
        ensures
            tx@ == (TransmissionState { packets: Seq::empty(), amount: 0 }),
    {
        let tx = Transmission { packets: VecDeque::new(), amount: 0 };
        assert(tx@.packets =~= Seq::empty());
        tx
    }

    /// Adds a packet behind the others.
    pub fn push(&mut self, packet: [u8; 18])
        ensures
            final(self)@ == (TransmissionState {
                packets: old(self)@.packets.push(packet@),
                ..old(self)@
            }),
    {
        self.packets.push_back(packet);
        assert(self@.packets =~= old(self)@.packets.push(packet@));
    }

    /// Sets what the transmission reports when it is done.
    pub fn set_amount(&mut self, amount: usize)
        ensures
            final(self)@ == (TransmissionState { amount, ..old(self)@ }),
    {
        self.amount = amount;
    }

    /// All packets of a transmission have the right length.
    pub proof fn law_all_packets(&self)
        ensures
            all_packets(self@.packets),
    {
    }
}

impl Communicator {
    /// Moves packets into the send buffer until it is full or all are in it, and tells what to do
    /// next.
    pub fn transmit(&mut self, tx: &mut Transmission) -> (step: SendStep)
        requires
            old(self).wf(),
        ensures
            final(self).wf(),
            final(self)@ == (CommState {
                send_buf: filled(old(self)@.send_buf, old(tx)@.packets),
                ..old(self)@
            }),
            final(tx)@ == (TransmissionState {
                packets: unfilled(old(self)@.send_buf, old(tx)@.packets),
                ..old(tx)@
            }),
            step@ == send_step(final(self)@.send_buf, old(tx)@.amount),
    {
        let ghost buf = self@.send_buf;
        let ghost packets = tx@.packets;
        let ghost mut moved: int = 0;
        assert(packets.take(0).flatten() =~= Seq::empty());
        assert(packets.skip(0) =~= packets);
        while tx.packets.len() > 0
            invariant_except_break
                0 <= moved <= fitting(buf.len() as int, packets.len() as int),
            invariant
                self.wf(),
                buf == old(self)@.send_buf,
                packets == old(tx)@.packets,
                buf.len() <= UDP_PAYLOAD_LEN,
                0 <= moved <= packets.len(),
                tx.packets@.len() == packets.len() - moved,
                all_packets(packets),
                self@.send_buf.len() == buf.len() + 18 * moved,
                self@ == (CommState {
                    send_buf: buf + packets.take(moved).flatten(),
                    ..old(self)@
                }),
                tx@ == (TransmissionState { packets: packets.skip(moved), ..old(tx)@ }),
            ensures
                moved == fitting(buf.len() as int, packets.len() as int),
            decreases tx.packets.len(),
        {
            let packet: [u8; 18] = tx.packets[0];
            assert(tx@.packets[0] == packet@);
            if !self.append_packet(&packet) {
                break;
            }
            let ghost queue = tx.packets@;
            let _ = tx.packets.pop_front();
            proof {
                assert(tx.packets@ =~= queue.drop_first());
                assert(tx.packets@.map_values(|pkt: [u8; 18]| pkt@)
                    =~= queue.map_values(|pkt: [u8; 18]| pkt@).drop_first());
                assert(packets.take(moved).push(packet@) =~= packets.take(moved + 1));
                packets.take(moved).lemma_flatten_push(packet@);
                assert(tx@.packets =~= packets.skip(moved + 1));
                moved = moved + 1;
            }
        }
        match self.flush_packets() {
            Some(datagram) => SendStep::Send(datagram),
            None => SendStep::Done(tx.amount),
        }
    }
}

/// Packets go into the send buffer in order, until all are in it or another one would make it longer
/// than 1472 bytes, and the others stay in order. What is in the buffer is sent; if it is empty, the
/// transmission is over.
pub proof fn law_transmit(buf: Seq<u8>, packets: Seq<Seq<u8>>, amount: usize)
    requires
        buf.len() <= 1472,
        forall|i: int| 0 <= i < packets.len() ==> #[trigger] packets[i].len() == 18,
    ensures
        ({
            let out = filled(buf, packets);
            let left = unfilled(buf, packets);
            let moved = packets.len() - left.len();
            &&& 0 <= moved
            &&& left == packets.skip(moved)
            &&& out == buf + packets.take(moved).flatten()
            &&& out.len() == buf.len() + 18 * moved
            &&& out.len() <= 1472
            &&& left.len() > 0 ==> out.len() + 18 > 1472
            &&& send_step(out, amount) == if out.len() == 0 {
                SendStepState::Done(amount)
            } else {
                SendStepState::Send(out)
            }
        }),
{
    lemma_flatten_len(packets.take(fitting(buf.len() as int, packets.len() as int)));
}

/// A step is seen as what it is.
pub proof fn law_send_step_view(step: SendStep)
    ensures
        match step {
            SendStep::Send(datagram) => step@ matches SendStepState::Send(d) && d == datagram@,
            SendStep::Done(amount) => step@ matches SendStepState::Done(n) && n == amount,
        },
{
}

/// The datagrams that a transmission sends, provided that all of them can be sent: what `transmit`
/// hands out each time after the send buffer was emptied.
pub open spec fn datagrams(buf: Seq<u8>, packets: Seq<Seq<u8>>) -> Seq<Seq<u8>>
    decreases packets.len(), buf.len(),
    when buf.len() <= UDP_PAYLOAD_LEN
{
    let datagram = filled(buf, packets);
    if datagram.len() == 0 {
        Seq::empty()
    } else {
        seq![datagram] + datagrams(Seq::empty(), unfilled(buf, packets))
    }
}

/// A transmission sends every packet once and in order, behind those that waited already. A datagram
/// consists of whole packets, and only the last one has room for another packet.
pub proof fn law_datagrams(buf: Seq<u8>, packets: Seq<Seq<u8>>)
    requires
        buf.len() <= UDP_PAYLOAD_LEN,
        buf.len() % 18 == 0,
        all_packets(packets),
    ensures
        datagrams(buf, packets).flatten() == buf + packets.flatten(),
        forall|i: int|
            0 <= i < datagrams(buf, packets).len() ==> {
                let datagram = #[trigger] datagrams(buf, packets)[i];
                &&& 0 < datagram.len() <= UDP_PAYLOAD_LEN
                &&& datagram.len() % 18 == 0
                &&& i < datagrams(buf, packets).len() - 1 ==> datagram.len() + 18 > UDP_PAYLOAD_LEN
            },
    decreases packets.len(), buf.len(),
{
    let n = fitting(buf.len() as int, packets.len() as int);
    let datagram = filled(buf, packets);
    let rest = unfilled(buf, packets);
    lemma_flatten_len(packets.take(n));
    assert(packets =~= packets.take(n) + rest);
    vstd::seq_lib::lemma_flatten_concat(packets.take(n), rest);
    if datagram.len() > 0 {
        law_datagrams(Seq::empty(), rest);
        let tail = datagrams(Seq::empty(), rest);
        assert(datagrams(buf, packets) =~= seq![datagram] + tail);
        assert((seq![datagram] + tail).drop_first() =~= tail);
        assert forall|i: int| 0 <= i < datagrams(buf, packets).len() implies {
            let d = #[trigger] datagrams(buf, packets)[i];
            &&& 0 < d.len() <= UDP_PAYLOAD_LEN
            &&& d.len() % 18 == 0
            &&& i < datagrams(buf, packets).len() - 1 ==> d.len() + 18 > UDP_PAYLOAD_LEN
        } by {
            if i > 0 {
                assert(datagrams(buf, packets)[i] == tail[i - 1]);
            } else if rest.len() == 0 {
                assert(filled(Seq::empty(), rest) =~= Seq::empty());
                assert(tail.len() == 0);
            }
        }
    }
}

} // verus!
