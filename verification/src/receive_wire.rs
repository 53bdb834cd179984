//! What is received, told from the bytes of the datagrams, whoever sent them.
use vstd::prelude::*;

use crate::communicator::CommState;
use crate::decode::{decode, lemma_gaps, CommError, Packet};
use crate::packet::{host_mod, FPGAModule};
use crate::read_runs::{lone_write, write_bytes};
use crate::receive::{receive_next, received, Received};
use crate::self_test::{self_test_next, test_data, SelfTestStep, TEST_ADDR};
use crate::wire::{
    address, data_word, from_host, law_flit_wire, law_mode_numbers, law_normal_wire,
    law_number_bytes,
};
use crate::write::noburst_packets;
use crate::write_wire::law_noburst_wire;

verus! {

/// Bytes that are too few for a packet do not matter.
pub proof fn law_received_rest(burst: Option<(u8, bool)>, bytes: Seq<u8>)
    requires
        bytes.len() < 18,
    ensures
        received(burst, bytes).burst == burst,
        received(burst, bytes).out == Ok::<Seq<u8>, CommError>(Seq::empty()),
{
}

/// What is received outside a burst. A packet without a known mode, or one that selects no byte, is
/// an error. The bytes of a posted write that starts no burst stand in front of what is received
/// behind it: those from its highest to its lowest selected byte, in reverse. Every other packet
/// brings nothing.
pub proof fn law_received_normal(p: Seq<u8>)
    requires
        p.len() >= 18,
    ensures
        ({
            let got = received(None, p);
            let after = if p[0] == 2 || p[0] == 3 {
                Some((p[1], true))
            } else {
                None
            };
            let more = received(after, p.skip(18));
            let own = if p[5] % 16 == 2 && p[0] != 2 && p[0] != 3 {
                p.subrange(10 + p[1].leading_zeros(), 18 - p[1].trailing_zeros()).reverse()
            } else {
                Seq::empty()
            };
            if p[5] % 16 > 12 {
                got.burst == after && got.out == Err::<Seq<u8>, CommError>(CommError::InvalidData)
            } else if p[1] == 0 {
                got.burst is None && got.out == Err::<Seq<u8>, CommError>(CommError::Broken)
            } else {
                &&& got.burst == more.burst
                &&& got.out == match more.out {
                    Ok(bytes) => Ok(own + bytes),
                    Err(e) => Err(e),
                }
            }
        }),
{
    law_normal_wire(p);
    law_mode_numbers((p[5] % 16) as u8);
    if p[1] != 0 && p[5] % 16 <= 12 {
        if let Some(Packet::Normal(_, _, _, data)) = decode(None, p) {
            assert(data =~= p.subrange(10 + p[1].leading_zeros(), 18 - p[1].trailing_zeros()));
        }
    }
}

/// What is received in a burst with the byte selects `bsel`: the bytes of each packet in reverse, but
/// for `15 - bsel / 16` at the upper end of the last packet, which has no burst bit, and `15 - bsel %
/// 16` at the lower end of the first one.
pub proof fn law_received_flit(bsel: u8, first: bool, p: Seq<u8>)
    requires
        p.len() >= 18,
    ensures
        ({
            let got = received(Some((bsel, first)), p);
            let upper = if p[0] < 2 {
                15 - bsel / 16
            } else {
                0
            };
            let lower = if first {
                15 - bsel % 16
            } else {
                0
            };
            let more = received(
                if p[0] < 2 {
                    None
                } else {
                    Some((bsel, false))
                },
                p.skip(18),
            );
            if upper + lower > 16 {
                &&& got.burst == Some((bsel, first))
                &&& got.out == Err::<Seq<u8>, CommError>(CommError::Broken)
            } else {
                &&& got.burst == more.burst
                &&& got.out == match more.out {
                    Ok(bytes) => Ok(p.subrange(2 + upper, 18 - lower).reverse() + bytes),
                    Err(e) => Err(e),
                }
            }
        }),
{
    let upper = if p[0] < 2 {
        15 - bsel / 16
    } else {
        0
    };
    let lower = if first {
        15 - bsel % 16
    } else {
        0
    };
    law_flit_wire(bsel, first, p);
    if upper + lower <= 16 {
        if let Some(Packet::Burst(data)) = decode(Some((bsel, first)), p) {
            assert(data =~= p.subrange(2 + upper, 18 - lower));
        }
    }
}

/// The bytes of the first packet of a burst stand in front of those of the others.
pub(crate) proof fn lemma_join_flits(p: Seq<u8>, more: Seq<u8>, lower: int, upper: int, k: int)
    requires
        k > 1,
        p.len() == 18 * k,
        0 <= lower <= 15,
        0 <= upper <= 15,
        more.len() == 16 * (k - 1) - upper,
        forall|u: int|
            0 <= u < more.len() ==> #[trigger] more[u] == p.skip(18)[18 * (u / 16) + 17 - u % 16],
    ensures
        p.subrange(2, 18 - lower).reverse() + more == Seq::new(
            (16 * k - lower - upper) as nat,
            |t: int| p[18 * ((t + lower) / 16) + 17 - (t + lower) % 16],
        ),
{
    let own = p.subrange(2, 18 - lower).reverse();
    let all = Seq::new(
        (16 * k - lower - upper) as nat,
        |t: int| p[18 * ((t + lower) / 16) + 17 - (t + lower) % 16],
    );
    assert forall|t: int| 0 <= t < all.len() implies #[trigger] all[t] == (own + more)[t] by {
        if t >= 16 - lower {
            let u = t - (16 - lower);
            let i = 18 * (u / 16) + 17 - u % 16;
            assert((t + lower) / 16 == u / 16 + 1 && (t + lower) % 16 == u % 16);
            assert(more[u] == p.skip(18)[i]);
            assert(0 <= i < 18 * (k - 1));
        } else {
            assert((t + lower) / 16 == 0 && (t + lower) % 16 == t + lower);
        }
    }
    assert(own + more =~= all);
}

/// What is received of the packets of a burst that end it.
proof fn lemma_received_flits(bsel: u8, first: bool, p: Seq<u8>, k: int)
    requires
        k > 0,
        p.len() == 18 * k,
        forall|f: int| 0 <= f < k ==> ((#[trigger] p[18 * f]) < 2 <==> f == k - 1),
        !first || k > 1 || 30 - bsel / 16 - bsel % 16 <= 16,
    ensures
        ({
            let lower = if first {
                15 - bsel % 16
            } else {
                0
            };
            received(Some((bsel, first)), p) == (Received {
                burst: None,
                out: Ok(
                    Seq::new(
                        (16 * k - lower - (15 - bsel / 16)) as nat,
                        |t: int| p[18 * ((t + lower) / 16) + 17 - (t + lower) % 16],
                    ),
                ),
            })
        }),
    decreases k,
{
    let lower = if first {
        15 - bsel % 16
    } else {
        0
    };
    let upper = 15 - bsel / 16;
    let all = Seq::new(
        (16 * k - lower - upper) as nat,
        |t: int| p[18 * ((t + lower) / 16) + 17 - (t + lower) % 16],
    );
    law_received_flit(bsel, first, p);
    assert(p[18 * 0int] < 2 <==> k == 1);
    if k == 1 {
        law_received_rest(None, p.skip(18));
        assert(p.subrange(2 + upper, 18 - lower).reverse() + Seq::<u8>::empty() =~= all);
    } else {
        let rest = p.skip(18);
        assert forall|f: int| 0 <= f < k - 1 implies ((#[trigger] rest[18 * f]) < 2 <==> f == k - 2) by {
            assert(rest[18 * f] == p[18 * (f + 1)]);
        }
        lemma_received_flits(bsel, false, rest, k - 1);
        let more = received(Some((bsel, false)), rest).out->Ok_0;
        lemma_join_flits(p, more, lower, upper, k);
    }
    assert(received(Some((bsel, first)), p).out->Ok_0 =~= all);
}

/// What is received of a whole burst, whoever sent it: `k` packets behind the one that starts it
/// bring `16 * k` bytes in ascending order, without the first `15 - bsel % 16` and without the last
/// `15 - bsel / 16` of them, where `bsel` are the byte selects of the packet that starts the burst.
pub proof fn law_received_burst(p: Seq<u8>, k: int)
    requires
        k > 0,
        p.len() == 18 * (k + 1),
        p[0] == 2 || p[0] == 3,
        p[1] != 0,
        p[5] % 16 <= 12,
        forall|f: int| 1 <= f <= k ==> ((#[trigger] p[18 * f]) < 2 <==> f == k),
        k > 1 || 30 - p[1] / 16 - p[1] % 16 <= 16,
    ensures
        ({
            let lower = 15 - p[1] % 16;
            let upper = 15 - p[1] / 16;
            let got = received(None, p);
            &&& got.burst is None
            &&& got.out == Ok::<Seq<u8>, CommError>(
                Seq::new(
                    (16 * k - lower - upper) as nat,
                    |t: int| p[18 * (1 + (t + lower) / 16) + 17 - (t + lower) % 16],
                ),
            )
        }),
{
    let lower = 15 - p[1] % 16;
    let upper = 15 - p[1] / 16;
    let rest = p.skip(18);
    assert forall|f: int| 0 <= f < k implies ((#[trigger] rest[18 * f]) < 2 <==> f == k - 1) by {
        assert(rest[18 * f] == p[18 * (f + 1)]);
    }
    law_received_normal(p);
    lemma_received_flits(p[1], true, rest, k);
    let all = Seq::new(
        (16 * k - lower - upper) as nat,
        |t: int| p[18 * (1 + (t + lower) / 16) + 17 - (t + lower) % 16],
    );
    let more = Seq::new(
        (16 * k - lower - upper) as nat,
        |t: int| rest[18 * ((t + lower) / 16) + 17 - (t + lower) % 16],
    );
    assert forall|t: int| 0 <= t < all.len() implies #[trigger] all[t] == more[t] by {
        let i = 18 * ((t + lower) / 16) + 17 - (t + lower) % 16;
        assert(0 <= i < 18 * k);
    }
    assert(received(Some((p[1], true)), rest).out->Ok_0 =~= more);
    assert(Seq::<u8>::empty() + more =~= all);
}

/// Which datagrams are single posted writes, and which bytes they bring: those from the highest to the
/// lowest selected byte, in reverse.
pub proof fn law_lone_write_wire(p: Seq<u8>)
    ensures
        lone_write(p) <==> p.len() == 18 && p[0] != 2 && p[0] != 3 && p[1] != 0 && p[5] % 16 == 2,
        lone_write(p) ==> write_bytes(p) == p.subrange(
            10 + p[1].leading_zeros(),
            18 - p[1].trailing_zeros(),
        ).reverse(),
{
    if p.len() == 18 {
        law_normal_wire(p);
        law_mode_numbers((p[5] % 16) as u8);
        if lone_write(p) {
            if let Some(Packet::Normal(_, _, _, data)) = decode(None, p) {
                assert(data =~= p.subrange(10 + p[1].leading_zeros(), 18 - p[1].trailing_zeros()));
            }
        }
    }
}

/// The oldest datagram that is kept is received and taken out of the queue, and nothing else but the
/// burst changes.
pub proof fn law_receive_oldest(comm: CommState)
    ensures
        ({
            let next = receive_next(comm);
            if comm.received.len() == 0 {
                next.out is None && next.comm == comm
            } else {
                let got = received(comm.burst, comm.received[0]);
                &&& next.out == Some(got.out)
                &&& next.comm.burst == got.burst
                &&& next.comm.received == comm.received.skip(1)
                &&& next.comm.send_buf == comm.send_buf
                &&& next.comm.next_req_id == comm.next_req_id
            }
        }),
{
    if comm.received.len() > 0 {
        assert(comm.received.drop_first() =~= comm.received.skip(1));
    }
}

/// The self test sends one packet: a posted write of eight known bytes from the host to itself.
pub proof fn law_self_test_wire()
    ensures
        ({
            let packets = noburst_packets(host_mod(), TEST_ADDR as int, test_data(), false);
            &&& packets.len() == 1
            &&& from_host(packets[0], FPGAModule { chip_id: 63, mod_id: 5 }, 2)
            &&& packets[0][0] == 0
            &&& packets[0][1] == 0xFF
            &&& address(packets[0]) == 0xDEAD_BEE0
            &&& data_word(packets[0]) == 0xFFDE_BC9A_7856_3412
        }),
{
    let data = test_data();
    law_noburst_wire(host_mod(), TEST_ADDR, data, false);
    let p = noburst_packets(host_mod(), TEST_ADDR as int, data, false)[0];
    assert(0xFFu8 >> 0u8 == 0xFF) by (bit_vector);
    assert forall|j: int| 0 <= j < 8 implies #[trigger] data[j] == p[17 - j] by {
        assert(p.subrange(10, 18).reverse()[j] == data[j]);
    }
    assert(p[17] == data[0] && p[16] == data[1] && p[15] == data[2] && p[14] == data[3]);
    assert(p[13] == data[4] && p[12] == data[5] && p[11] == data[6] && p[10] == data[7]);
}

/// What the self test makes of a datagram that arrives outside a burst.
///
/// A packet for address 0xDEADBEE0 ends the test. It passes if this is a posted write from the host
/// that starts no burst, selects the highest and the lowest byte, and brings back the eight bytes.
/// A packet for another address is counted, and the test times out with the hundredth.
pub proof fn law_self_test_normal(retries: nat, p: Seq<u8>)
    requires
        p.len() >= 18,
    ensures
        ({
            let next = self_test_next(None, retries, p);
            let starts = p[0] == 2 || p[0] == 3;
            let after = if starts {
                Some((p[1], true))
            } else {
                None
            };
            if p[5] % 16 > 12 {
                &&& next.step == SelfTestStep::InvalidData
                &&& next.retries == retries
                &&& next.burst == after
            } else if p[1] == 0 {
                &&& next.step == SelfTestStep::Broken
                &&& next.retries == retries
                &&& next.burst is None
            } else if address(p) == 0xDEAD_BEE0 {
                let back = p[2] == 5 && p[3] / 4 == 63 && p[5] % 16 == 2 && !starts && p[1] / 128 == 1
                    && p[1] % 2 == 1 && data_word(p) == 0xFFDE_BC9A_7856_3412;
                &&& next.step == if back {
                    SelfTestStep::Passed
                } else {
                    SelfTestStep::Broken
                }
                &&& next.retries == retries
                &&& next.burst == after
            } else {
                &&& next.step == if retries + 1 < 100 {
                    SelfTestStep::Receive
                } else {
                    SelfTestStep::TimedOut
                }
                &&& next.retries == retries + 1
                &&& next.burst is None
            }
        }),
{
    law_normal_wire(p);
    law_mode_numbers((p[5] % 16) as u8);
    if p[1] != 0 && p[5] % 16 <= 12 {
        lemma_gaps(p[1]);
        law_number_bytes(p);
        if let Some(Packet::Normal(_, _, _, data)) = decode(None, p) {
            let full = p[1] / 128 == 1 && p[1] % 2 == 1;
            assert(data.len() == 8 <==> full);
            if full {
                assert(data =~= p.subrange(10, 18));
                lemma_test_word(p);
            } else {
                assert(data.reverse().len() != test_data().len());
            }
        }
    }
}

/// The bytes of the self test can be told from their number.
proof fn lemma_test_word(p: Seq<u8>)
    requires
        p.len() >= 18,
    ensures
        p.subrange(10, 18).reverse() == test_data() <==> data_word(p) == 0xFFDE_BC9A_7856_3412,
{
    let data = p.subrange(10, 18).reverse();
    law_number_bytes(p);
    assert(data[0] == p[17] && data[1] == p[16] && data[2] == p[15] && data[3] == p[14]);
    assert(data[4] == p[13] && data[5] == p[12] && data[6] == p[11] && data[7] == p[10]);
    if data_word(p) == 0xFFDE_BC9A_7856_3412 {
        assert(data =~= test_data());
    }
}

/// What the self test makes of a datagram that arrives during a burst, or that is too short: a packet
/// of a burst is counted, unless it leaves out more bytes than it has, and leaves the burst as it was.
pub proof fn law_self_test_flit(burst: Option<(u8, bool)>, retries: nat, p: Seq<u8>)
    ensures
        ({
            let next = self_test_next(burst, retries, p);
            &&& p.len() < 18 ==> {
                &&& next.step == SelfTestStep::Receive
                &&& next.retries == retries
                &&& next.burst == burst
            }
            &&& p.len() >= 18 ==> (burst matches Some((bsel, first)) ==> {
                let upper = if p[0] < 2 {
                    15 - bsel / 16
                } else {
                    0
                };
                let lower = if first {
                    15 - bsel % 16
                } else {
                    0
                };
                &&& next.burst == burst
                &&& upper + lower > 16 ==> next.step == SelfTestStep::Broken && next.retries
                    == retries
                &&& upper + lower <= 16 ==> next.retries == retries + 1 && next.step == if retries
                    + 1 < 100 {
                    SelfTestStep::Receive
                } else {
                    SelfTestStep::TimedOut
                }
            })
        }),
{
    if p.len() >= 18 {
        if let Some((bsel, first)) = burst {
            law_flit_wire(bsel, first, p);
        }
    }
}

} // verus!
