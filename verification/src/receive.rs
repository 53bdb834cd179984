//! Receiving what a module sends to the host.
use vstd::prelude::*;
use vstd::slice::slice_subrange;

use crate::communicator::{extend_reversed, CommState, Communicator};
use crate::decode::{burst_after, decodable, decode, CommError, NocPacket, Packet};
use crate::packet::{Mode, NOC_PACKET_LEN};

verus! {

/// The bytes that a packet contributes to what is received, given the burst after the packet.
///
/// Only posted writes and bursts count, and the packet that starts a burst carries no data.
pub open spec fn payload(pkt: Packet, burst: Option<(u8, bool)>) -> Seq<u8> {
    match pkt {
        Packet::Normal(_, mode, _, data) => if mode == Mode::WritePosted && burst is None {
            data.reverse()
        } else {
            Seq::empty()
        },
        Packet::Burst(data) => data.reverse(),
    }
}

/// What a datagram turns out to hold.
pub struct Received {
    /// The burst after the datagram.
    pub burst: Option<(u8, bool)>,
    /// The received bytes, or why there are none.
    pub out: Result<Seq<u8>, CommError>,
}

impl Received {
    /// The same with `bytes` in front of what was received.
    pub open spec fn prepend(self, bytes: Seq<u8>) -> Received {
        Received {
            out: match self.out {
                Ok(more) => Ok(bytes + more),
                Err(e) => Err(e),
            },
            ..self
        }
    }
}

/// What the packets in `bytes` turn out to hold. Bytes behind the last whole packet do not matter.
pub open spec fn received(burst: Option<(u8, bool)>, bytes: Seq<u8>) -> Received
    decreases bytes.len(),
{
    if bytes.len() < 18 {
        Received { burst, out: Ok(Seq::empty()) }
    } else if !decodable(burst, bytes) {
        Received { burst, out: Err(CommError::Broken) }
    } else {
        let after = burst_after(burst, bytes);
        match decode(burst, bytes) {
            Some(pkt) => received(after, bytes.skip(18)).prepend(payload(pkt, after)),
            None => Received { burst: after, out: Err(CommError::InvalidData) },
        }
    }
}

/// The state after a kept datagram was to be received, and what it held, if there was one.
#[verifier::ext_equal]
pub struct ReceiveNext {
    pub comm: CommState,
    pub out: Option<Result<Seq<u8>, CommError>>,
}

/// Takes the oldest datagram that is kept, if there is one.
pub open spec fn receive_next(comm: CommState) -> ReceiveNext {
    if comm.received.len() == 0 {
        ReceiveNext { comm, out: None }
    } else {
        let got = received(comm.burst, comm.received[0]);
        ReceiveNext {
            comm: CommState {
                burst: got.burst,
                received: comm.received.drop_first(),
                ..comm
            },
            out: Some(got.out),
        }
    }
}

impl Communicator {
    /// Returns what the oldest datagram that was kept holds, or `None` if none was kept. In the
    /// latter case a new datagram has to be received and handed to `do_receive`.
    pub fn receive(&mut self) -> (res: Option<Result<Vec<u8>, CommError>>)
        requires
            old(self).wf(),
        ensures
            final(self).wf(),
            final(self)@ == receive_next(old(self)@).comm,
            match res {
                Some(Ok(bytes)) => receive_next(old(self)@).out == Some(
                    Ok::<Seq<u8>, CommError>(bytes@),
                ),
                Some(Err(e)) => receive_next(old(self)@).out == Some(Err::<Seq<u8>, CommError>(e)),
                None => receive_next(old(self)@).out is None,
            },
    {
        match self.take_datagram() {
            Some(datagram) => Some(self.do_receive(datagram.as_slice())),
            None => None,
        }
    }

    /// Returns what `datagram` holds.
    pub fn do_receive(&mut self, datagram: &[u8]) -> (res: Result<Vec<u8>, CommError>)
        requires
            old(self).wf(),
            datagram@.len() >= 18,
        ensures
            final(self).wf(),
            final(self)@ == (CommState {
                burst: received(old(self)@.burst, datagram@).burst,
                ..old(self)@
            }),
            match res {
                Ok(bytes) => received(old(self)@.burst, datagram@).out == Ok::<Seq<u8>, CommError>(
                    bytes@,
                ),
                Err(e) => received(old(self)@.burst, datagram@).out == Err::<Seq<u8>, CommError>(e),
            },
    {
        let size: usize = datagram.len();
        let mut pos: usize = 0;
        let mut res: Vec<u8> = Vec::new();
        let ghost all = received(self@.burst, datagram@);
        assert(datagram@.skip(0) =~= datagram@);
        assert(all == all.prepend(res@)) by {
            if let Ok(bytes) = all.out {
                assert(res@ + bytes =~= bytes);
            }
        }
        while size - pos >= NOC_PACKET_LEN
            invariant
                self.wf(),
                size == datagram@.len(),
                pos <= size,
                self@ == (CommState { burst: self@.burst, ..old(self)@ }),
                all == received(old(self)@.burst, datagram@),
                all == received(self@.burst, datagram@.skip(pos as int)).prepend(res@),
            decreases size - pos,
        {
            let ghost burst = self@.burst;
            let rest = slice_subrange(datagram, pos, size);
            assert(rest@ =~= datagram@.skip(pos as int));
            assert(rest@.skip(18) =~= datagram@.skip(pos + 18));
            if !self.is_decodable(rest) {
                return Err(CommError::Broken);
            }
            let ghost more = received(burst_after(burst, rest@), rest@.skip(18));
            let ghost before = res@;
            match self.decode_packet(rest) {
                Err(e) => {
                    return Err(e);
                },
                Ok(pkt) => {
                    match pkt {
                        NocPacket::Normal((_, mode, _, data)) => {
                            // ignore other packets, and the start of a burst
                            if mode == Mode::WritePosted && self.burst().is_none() {
                                extend_reversed(&mut res, data);
                            }
                        },
                        NocPacket::Burst(data) => {
                            extend_reversed(&mut res, data);
                        },
                    }
                    proof {
                        let own = payload(pkt@, self@.burst);
                        assert(res@ =~= before + own);
                        if let Ok(bytes) = more.out {
                            assert(before + (own + bytes) =~= before + own + bytes);
                        }
                    }
                },
            }
            pos = pos + NOC_PACKET_LEN;
        }
        proof {
            assert(res@ + Seq::<u8>::empty() =~= res@);
        }
        Ok(res)
    }
}

} // verus!
