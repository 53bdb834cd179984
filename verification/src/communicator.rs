//! The protocol state of the host: what is waiting to be sent, the burst that is being received, and
//! the datagrams that are kept for later.
//!
//! Nothing here touches a socket. Where the protocol needs the network, a method hands out what is
//! to be sent, or takes what was received.
use std::collections::VecDeque;

use vstd::prelude::*;
use vstd::slice::slice_subrange;

use crate::decode::{burst_after, decodable, decode, lemma_gaps, CommError, NocPacket};
use crate::packet::{FPGAModule, Mode, NOC_PACKET_LEN, UDP_PAYLOAD_LEN};

verus! {

/// Addition modulo two to the 32.
pub open spec fn wrapping_add(x: u32, y: int) -> u32 {
    ((x + y) % 0x1_0000_0000) as u32
}

/// Appends `bytes` to `buf`.
pub fn extend_bytes(buf: &mut Vec<u8>, bytes: &[u8])
    ensures
        final(buf)@ == old(buf)@ + bytes@,
{
    buf.extend_from_slice(bytes);
    assert(buf@ =~= old(buf)@ + bytes@);
}

/// Appends `bytes` to `buf`, last byte first.
pub fn extend_reversed(buf: &mut Vec<u8>, bytes: &[u8])
    ensures
        final(buf)@ == old(buf)@ + bytes@.reverse(),
{
    let mut left: usize = bytes.len();
    while left > 0
        invariant
            left <= bytes@.len(),
            buf@ =~= old(buf)@ + bytes@.reverse().take(bytes@.len() - left),
        decreases left,
    {
        left = left - 1;
        buf.push(bytes[left]);
    }
    assert(bytes@.reverse().take(bytes@.len() as int) =~= bytes@.reverse());
}

/// The mathematical value of a `Communicator`.
#[verifier::ext_equal]
pub struct CommState {
    /// Id of the next read request.
    pub next_req_id: u32,
    /// Packets that wait to be sent.
    pub send_buf: Seq<u8>,
    /// The burst that is being received.
    pub burst: Option<(u8, bool)>,
    /// Received datagrams that are kept for later, oldest first.
    pub received: Seq<Seq<u8>>,
}

impl CommState {
    /// The state of a host that has neither sent nor received anything.
    pub open spec fn initial() -> CommState {
        CommState { next_req_id: 0, send_buf: Seq::empty(), burst: None, received: Seq::empty() }
    }
}

/// The protocol state of the host.
pub struct Communicator {
    next_req_id: u32,
    send_buf: Vec<u8>,
    burst: Option<(u8, bool)>,
    received_pkts: VecDeque<Vec<u8>>,
}

impl View for Communicator {
    type V = CommState;

    closed spec fn view(&self) -> CommState {
        CommState {
            next_req_id: self.next_req_id,
            send_buf: self.send_buf@,
            burst: self.burst,
            received: self.received_pkts@.map_values(|pkt: Vec<u8>| pkt@),
        }
    }
}

impl Communicator {
    /// The send buffer holds whole packets that fit into one datagram, and every datagram that is
    /// kept holds at least one packet.
    pub open spec fn wf(&self) -> bool {
        &&& self@.send_buf.len() <= UDP_PAYLOAD_LEN
        &&& self@.send_buf.len() % 18 == 0
        &&& forall|i: int| 0 <= i < self@.received.len() ==> #[trigger] self@.received[i].len() >= 18
    }

    /// Starts with empty buffers and no burst.
    pub fn new() -> (comm: Self)
        ensures
            comm.wf(),
            comm@ == CommState::initial(),
    {
        let comm = Communicator {
            next_req_id: 0,
            send_buf: Vec::with_capacity(UDP_PAYLOAD_LEN),
            burst: None,
            received_pkts: VecDeque::new(),
        };
        assert(comm@ =~= CommState::initial());
        comm
    }

    /// Puts a packet behind those that wait to be sent, if the datagram has room for it.
    ///
    /// If it returns false, the waiting packets have to be sent first.
    pub fn append_packet(&mut self, packet: &[u8; 18]) -> (fits: bool)
        requires
            old(self).wf(),
        ensures
            final(self).wf(),
            fits == (old(self)@.send_buf.len() + 18 <= UDP_PAYLOAD_LEN),
            fits ==> final(self)@ == (CommState {
                send_buf: old(self)@.send_buf + packet@,
                ..old(self)@
            }),
            !fits ==> final(self)@ == old(self)@,
    {
        if self.send_buf.len() + NOC_PACKET_LEN > UDP_PAYLOAD_LEN {
            return false;
        }
        let ghost before = self.send_buf@;
        extend_bytes(&mut self.send_buf, packet);
        assert(self.send_buf@ == before + packet@);
        true
    }

    /// Returns the datagram that sends the waiting packets, or `None` if no packet waits.
    ///
    /// The packets wait until `packets_sent` is called.
    pub fn flush_packets(&self) -> (datagram: Option<Vec<u8>>)
        ensures
            datagram is None <==> self@.send_buf.len() == 0,
            datagram matches Some(d) ==> d@ == self@.send_buf,
    {
        if self.send_buf.is_empty() {
            None
        } else {
            let mut datagram: Vec<u8> = Vec::with_capacity(self.send_buf.len());
            extend_bytes(&mut datagram, self.send_buf.as_slice());
            Some(datagram)
        }
    }

    /// Forgets the waiting packets, once they have been sent.
    pub fn packets_sent(&mut self)
        requires
            old(self).wf(),
        ensures
            final(self).wf(),
            final(self)@ == (CommState { send_buf: Seq::empty(), ..old(self)@ }),
    {
        self.send_buf.clear();
    }

    /// Returns the id for a new read request. Ids wrap around.
    pub fn take_req_id(&mut self) -> (id: u32)
        requires
            old(self).wf(),
        ensures
            final(self).wf(),
            id == old(self)@.next_req_id,
            final(self)@ == (CommState { next_req_id: wrapping_add(id, 1), ..old(self)@ }),
    {
        let id: u32 = self.next_req_id;
        self.next_req_id = id.wrapping_add(1);
        id
    }

    /// Keeps a received datagram for later.
    pub fn keep_datagram(&mut self, datagram: &[u8])
        requires
            old(self).wf(),
            datagram@.len() >= 18,
        ensures
            final(self).wf(),
            final(self)@ == (CommState {
                received: old(self)@.received.push(datagram@),
                ..old(self)@
            }),
    {
        let mut copy: Vec<u8> = Vec::with_capacity(datagram.len());
        extend_bytes(&mut copy, datagram);
        let ghost before = self@;
        self.received_pkts.push_back(copy);
        assert(self@.received =~= before.received.push(datagram@));
    }

    /// Takes the oldest datagram that is kept, if there is one.
    pub fn take_datagram(&mut self) -> (datagram: Option<Vec<u8>>)
        requires
            old(self).wf(),
        ensures
            final(self).wf(),
            datagram is None <==> old(self)@.received.len() == 0,
            match datagram {
                Some(d) => d@ == old(self)@.received[0] && final(self)@ == (CommState {
                    received: old(self)@.received.drop_first(),
                    ..old(self)@
                }),
                None => final(self)@ == old(self)@,
            },
    {
        let ghost before = self@;
        let datagram = self.received_pkts.pop_front();
        proof {
            if before.received.len() > 0 {
                assert(self@.received =~= before.received.drop_first());
            }
        }
        datagram
    }

    /// Returns the burst that is being received.
    pub fn burst(&self) -> (burst: Option<(u8, bool)>)
        ensures
            burst == self@.burst,
    {
        self.burst
    }

    /// Goes back to an earlier burst.
    pub fn restore_burst(&mut self, burst: Option<(u8, bool)>)
        requires
            old(self).wf(),
        ensures
            final(self).wf(),
            final(self)@ == (CommState { burst, ..old(self)@ }),
    {
        self.burst = burst;
    }

    /// Whether the packet at the start of `bytes` has a meaning in the current state.
    pub fn is_decodable(&self, bytes: &[u8]) -> (yes: bool)
        requires
            bytes@.len() >= 18,
        ensures
            yes == decodable(self@.burst, bytes@),
    {
        if let Some((bsel, first)) = self.burst {
            let begin: u8 = if bytes[0] / 2 == 0 {
                15 - bsel / 16
            } else {
                0
            };
            let end: u8 = if first {
                15 - bsel % 16
            } else {
                0
            };
            begin + end <= 16
        } else {
            bytes[1] != 0 || Mode::from_number(bytes[5] % 16).is_none()
        }
    }

    /// Takes the packet at the start of `bytes` apart and keeps track of bursts.
    ///
    /// Fails if the mode of the packet is unknown.
    pub fn decode_packet<'b>(&mut self, bytes: &'b [u8]) -> (res: Result<NocPacket<'b>, CommError>)
        requires
            old(self).wf(),
            bytes@.len() >= 18,
            decodable(old(self)@.burst, bytes@),
        ensures
            final(self).wf(),
            final(self)@ == (CommState { burst: burst_after(old(self)@.burst, bytes@), ..old(self)@ }),
            match res {
                Ok(pkt) => decode(old(self)@.burst, bytes@) == Some(pkt@),
                Err(e) => decode(old(self)@.burst, bytes@) is None && e == CommError::InvalidData,
            },
    {
        let flags: u8 = bytes[0];
        assert(flags >> 1 == flags / 2) by (bit_vector);
        if let Some((bsel, first)) = self.burst {
            // bsel[3:0] = addr of first valid byte in first 128-bit burst flit
            // bsel[7:4] = addr of last valid byte in last 128-bit burst flit
            assert(bsel >> 4 == bsel / 16) by (bit_vector);
            assert(bsel & 0xF == bsel % 16) by (bit_vector);
            let begin: usize = if (flags >> 1) == 0 {
                (0xF - (bsel >> 4)) as usize
            } else {
                0
            };
            let end: usize = if first {
                (0xF - (bsel & 0xF)) as usize
            } else {
                0
            };
            // the arq bit does not matter
            if (flags >> 1) == 0 {
                self.burst = None;
            } else {
                self.burst = Some((bsel, false));
            }
            Ok(NocPacket::Burst(slice_subrange(bytes, 2 + begin, 18 - end)))
        } else {
            let b3: u8 = bytes[3];
            let b5: u8 = bytes[5];
            assert(b3 >> 2 == b3 / 4) by (bit_vector);
            assert(b5 & 0xF == b5 % 16) by (bit_vector);
            let src = FPGAModule::new(b3 >> 2, bytes[2]);
            let addr: u32 = bytes[6] as u32 * 0x100_0000 + bytes[7] as u32 * 0x1_0000 + bytes[8]
                as u32 * 0x100 + bytes[9] as u32;
            if (flags >> 1) == 1 {
                self.burst = Some((bytes[1], true));
            }
            match Mode::from_number(b5 & 0xF) {
                None => Err(CommError::InvalidData),
                Some(mode) => {
                    proof {
                        lemma_gaps(bytes[1]);
                    }
                    let first: usize = bytes[1].leading_zeros() as usize;
                    let last: usize = bytes[1].trailing_zeros() as usize;
                    let data = slice_subrange(bytes, 10 + first, 18 - last);
                    Ok(NocPacket::Normal((src, mode, addr, data)))
                },
            }
        }
    }
}

} // verus!
