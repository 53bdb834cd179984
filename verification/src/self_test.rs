//! The self test: the host writes to itself and waits for the packet to come back.
use vstd::prelude::*;

use crate::communicator::{CommState, Communicator};
use crate::decode::{burst_after, decodable, decode, NocPacket, Packet};
use crate::packet::{host_mod, Mode, NOC_PACKET_LEN};
use crate::transmit::Transmission;
use crate::write::noburst_packets;

verus! {

/// Number of other packets after which the self test gives up.
pub const MAX_SELF_TEST_RETRIES: usize = 100;

/// The address that the self test writes to. Nobody else uses it.
pub const TEST_ADDR: u32 = 0xDEAD_BEE0;

/// What the self test writes.
pub open spec fn test_data() -> Seq<u8> {
    seq![0x12u8, 0x34, 0x56, 0x78, 0x9A, 0xBC, 0xDE, 0xFF]
}

/// What the self test needs next.
#[derive(Debug, Clone, Copy, PartialEq, Eq, Structural)]
pub enum SelfTestStep {
    /// Receive a datagram.
    Receive,
    /// The packet came back.
    Passed,
    /// Too many other packets arrived.
    TimedOut,
    /// A packet with an unknown mode arrived.
    InvalidData,
    /// A packet without a meaning arrived, or the packet came back changed.
    Broken,
}

/// A self test that is going on.
pub struct SelfTest {
    retries: usize,
}

impl View for SelfTest {
    type V = nat;

    /// Number of other packets that have arrived.
    closed spec fn view(&self) -> nat {
        self.retries as nat
    }
}

/// Whether the packet is at the address of the self test.
pub open spec fn is_test_packet(pkt: Packet) -> bool {
    pkt matches Packet::Normal(_, _, addr, _) && addr == TEST_ADDR
}

/// Whether the packet that came back is what was sent, given the burst after it.
pub open spec fn is_echo(pkt: Packet, burst: Option<(u8, bool)>) -> bool {
    &&& burst is None
    &&& pkt matches Packet::Normal(src, mode, _, data) && {
        &&& mode == Mode::WritePosted
        &&& src == host_mod()
        &&& data.reverse() == test_data()
    }
}

/// The state after a datagram arrived during the self test, and what is needed next.
pub struct SelfTestNext {
    pub burst: Option<(u8, bool)>,
    pub retries: nat,
    pub step: SelfTestStep,
}

/// What the self test does when a datagram arrives.
///
/// Only its first packet matters. A packet at another address leaves the burst as it was.
pub open spec fn self_test_next(
    burst: Option<(u8, bool)>,
    retries: nat,
    bytes: Seq<u8>,
) -> SelfTestNext {
    let same = SelfTestNext { burst, retries, step: SelfTestStep::Receive };
    let after = burst_after(burst, bytes);
    if bytes.len() < 18 {
        same
    } else if !decodable(burst, bytes) {
        SelfTestNext { step: SelfTestStep::Broken, ..same }
    } else {
        match decode(burst, bytes) {
            None => SelfTestNext { burst: after, step: SelfTestStep::InvalidData, ..same },
            Some(pkt) => if is_test_packet(pkt) {
                SelfTestNext {
                    burst: after,
                    step: if is_echo(pkt, after) {
                        SelfTestStep::Passed
                    } else {
                        SelfTestStep::Broken
                    },
                    ..same
                }
            } else {
                SelfTestNext {
                    retries: retries + 1,
                    step: if retries + 1 < MAX_SELF_TEST_RETRIES {
                        SelfTestStep::Receive
                    } else {
                        SelfTestStep::TimedOut
                    },
                    ..same
                }
            },
        }
    }
}

/// Returns what the self test writes.
fn test_bytes() -> (bytes: [u8; 8])
    ensures
        bytes@ == test_data(),
{
    let bytes: [u8; 8] = [0x12, 0x34, 0x56, 0x78, 0x9A, 0xBC, 0xDE, 0xFF];
    assert(bytes@ =~= test_data());
    bytes
}

/// Whether `bytes` is what the self test writes, last byte first.
fn is_test_data_reversed(bytes: &[u8]) -> (yes: bool)
    ensures
        yes == (bytes@.reverse() == test_data()),
{
    let expected: [u8; 8] = test_bytes();
    if bytes.len() != 8 {
        assert(bytes@.reverse().len() != test_data().len());
        return false;
    }
    let mut i: usize = 0;
    while i < 8
        invariant
            i <= 8,
            bytes@.len() == 8,
            expected@ == test_data(),
            forall|j: int| 0 <= j < i ==> bytes@.reverse()[j] == #[trigger] expected@[j],
        decreases 8 - i,
    {
        if bytes[7 - i] != expected[i] {
            assert(bytes@.reverse()[i as int] != test_data()[i as int]);
            return false;
        }
        i = i + 1;
    }
    assert(bytes@.reverse() =~= expected@);
    true
}

impl Communicator {
    /// Begins the self test: after the transmission, datagrams are to be received and handed to
    /// `self_test_reply`.
    pub fn self_test(&self) -> (res: (Transmission, SelfTest))
        ensures
            res.0@.packets == noburst_packets(host_mod(), TEST_ADDR as int, test_data(), false),
            res.0@.amount == 8,
            res.1@ == 0,
    {
        let bytes: [u8; 8] = test_bytes();
        let tx = self.write_noburst(host_mod(), TEST_ADDR, bytes.as_slice(), false);
        (tx, SelfTest { retries: 0 })
    }

    /// Takes a datagram that arrived during the self test and tells what to do next.
    pub fn self_test_reply(&mut self, test: &mut SelfTest, datagram: &[u8]) -> (step: SelfTestStep)
        requires
            old(self).wf(),
            old(test)@ < MAX_SELF_TEST_RETRIES,
        ensures
            final(self).wf(),
            ({
                let next = self_test_next(old(self)@.burst, old(test)@, datagram@);
                &&& final(self)@ == (CommState { burst: next.burst, ..old(self)@ })
                &&& final(test)@ == next.retries
                &&& step == next.step
            }),
            step == SelfTestStep::Receive ==> final(test)@ < MAX_SELF_TEST_RETRIES,
    {
        if datagram.len() < NOC_PACKET_LEN {
            return SelfTestStep::Receive;
        }
        if !self.is_decodable(datagram) {
            return SelfTestStep::Broken;
        }
        let old_burst = self.burst();
        match self.decode_packet(datagram) {
            Err(_) => {
                return SelfTestStep::InvalidData;
            },
            Ok(NocPacket::Normal((src, mode, addr, data))) => {
                // nobody is writing to this address, except for the self test
                if addr == TEST_ADDR {
                    return if mode == Mode::WritePosted && self.burst().is_none() && src
                        == host_mod() && is_test_data_reversed(data) {
                        SelfTestStep::Passed
                    } else {
                        SelfTestStep::Broken
                    };
                }
            },
            Ok(NocPacket::Burst(_)) => {},
        }
        // modules might still be busy with sending other packets to the host
        self.restore_burst(old_burst);
        test.retries = test.retries + 1;
        if test.retries < MAX_SELF_TEST_RETRIES {
            SelfTestStep::Receive
        } else {
            SelfTestStep::TimedOut
        }
    }
}

} // verus!
