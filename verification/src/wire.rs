//! The packet format, byte by byte: where on the wire everything stands that a packet is made of, and
//! what is told from the bytes of a packet, whoever sent it.
use vstd::prelude::*;

use crate::communicator::{wrapping_add, CommState, Communicator};
use crate::decode::{burst_after, decodable, decode, lemma_gaps, NocPacket, Packet};
use crate::laws::law_le_bytes;
use crate::packet::{
    be_bytes, burst_packet, decimal, host_mod, le_bytes, packet, FPGAModule, Mode,
    BYTES_PER_BURST_PACKET, BYTES_PER_PACKET, NOC_PACKET_LEN, UDP_PAYLOAD_LEN,
};
use crate::read::{
    DRAIN_TIMEOUT_MILLIS, MAX_READ_REQ_LEN, MAX_READ_RETRIES, READ_TIMEOUT_SECS,
};
use crate::self_test::MAX_SELF_TEST_RETRIES;
use crate::write::{MAX_SEND_BURST_LEN, MAX_WRITE_BURST_LEN, RESET_WAIT_SECS};

verus! {

/// The number in bytes 6 to 9 of a normal packet.
pub open spec fn address(p: Seq<u8>) -> int {
    p[6] * 0x100_0000 + p[7] * 0x1_0000 + p[8] * 0x100 + p[9]
}

/// The number in the data of a normal packet, the last byte of which is the least significant one.
pub open spec fn data_word(p: Seq<u8>) -> int {
    p[17] + p[16] * 0x100 + p[15] * 0x1_0000 + p[14] * 0x100_0000 + (p[13] + p[12] * 0x100 + p[11]
        * 0x1_0000 + p[10] * 0x100_0000) * 0x1_0000_0000
}

/// Whether a normal packet leads from module 5 of chip 63, which is the host, to `target`, with the
/// mode of the given number. A chip id has six bits; more of them would run into the module id.
pub open spec fn from_host(p: Seq<u8>, target: FPGAModule, number: int) -> bool {
    &&& p.len() == 18
    &&& p[2] == 5
    &&& p[3] / 4 == 63
    &&& p[3] % 4 == target.mod_id / 64
    &&& p[4] == (target.mod_id << 2) | (target.chip_id >> 4)
    &&& target.chip_id < 64 ==> p[4] / 4 == target.mod_id % 64 && p[4] % 4 == target.chip_id / 16
    &&& p[5] / 16 == target.chip_id % 16
    &&& p[5] % 16 == number
}

/// Source, target and mode can be told from the bytes of a packet.
pub proof fn law_from_host(p: Seq<u8>, target: FPGAModule, number: int)
    requires
        from_host(p, target, number),
    ensures
        p.len() == 18,
        p[2] == 5 && p[3] / 4 == 63,
        p[3] % 4 == target.mod_id / 64,
        p[4] == (target.mod_id << 2) | (target.chip_id >> 4),
        p[5] / 16 == target.chip_id % 16,
        p[5] % 16 == number,
        target.chip_id < 64 ==> {
            &&& target.chip_id == p[4] % 4 * 16 + p[5] / 16
            &&& target.mod_id == p[3] % 4 * 64 + p[4] / 4
        },
{
}

/// The bytes of an address can be told from it, and the halves of a number from it.
pub proof fn law_number_bytes(p: Seq<u8>)
    requires
        p.len() >= 18,
    ensures
        p[6] == address(p) / 0x100_0000,
        p[7] == address(p) / 0x1_0000 % 0x100,
        p[8] == address(p) / 0x100 % 0x100,
        p[9] == address(p) % 0x100,
        p[17] + p[16] * 0x100 + p[15] * 0x1_0000 + p[14] * 0x100_0000 == data_word(p)
            % 0x1_0000_0000,
        p[13] + p[12] * 0x100 + p[11] * 0x1_0000 + p[10] * 0x100_0000 == data_word(p)
            / 0x1_0000_0000,
{
}

/// Every mode has its number from 0 to 12, and no other number stands for a mode.
pub proof fn law_mode_numbers(number: u8)
    ensures
        Mode::ReadReq.number() == 0,
        Mode::ReadResp.number() == 1,
        Mode::WritePosted.number() == 2,
        Mode::TCUMsg.number() == 3,
        Mode::TCUAck.number() == 4,
        Mode::ReadReq2.number() == 5,
        Mode::ReadResp2.number() == 6,
        Mode::WritePosted2.number() == 7,
        Mode::Error.number() == 8,
        Mode::ARQAck.number() == 9,
        Mode::ARQReadReq.number() == 10,
        Mode::ARQReadResp.number() == 11,
        Mode::ARQWritePosted.number() == 12,
        Mode::of_number(number) is Some <==> number <= 12,
        Mode::of_number(number) matches Some(mode) ==> mode.number() == number,
{
}

/// The host is module 5 of chip 63.
pub proof fn law_host_module()
    ensures
        host_mod().chip_id == 63,
        host_mod().mod_id == 5,
{
}

/// In decimal, a number consists of digits that are worth it, and it does not begin with a zero
/// unless it is one.
pub proof fn law_decimal(number: u8)
    ensures
        ({
            let text = decimal(number);
            &&& 1 <= text.len() <= 3
            &&& forall|i: int| 0 <= i < text.len() ==> '0' <= #[trigger] text[i] <= '9'
            &&& text.len() > 1 ==> text[0] != '0'
            &&& text.len() == 1 ==> number == text[0] as int - '0' as int
            &&& text.len() == 2 ==> number == (text[0] as int - '0' as int) * 10 + (text[1] as int
                - '0' as int)
            &&& text.len() == 3 ==> number == (text[0] as int - '0' as int) * 100 + (text[1] as int
                - '0' as int) * 10 + (text[2] as int - '0' as int)
        }),
{
}

/// Ids wrap around after the greatest 32-bit number.
pub proof fn law_wrapping_add(x: u32, y: int)
    ensures
        0 <= y && x + y < 0x1_0000_0000 ==> wrapping_add(x, y) == x + y,
        0 <= y && 0x1_0000_0000 <= x + y < 0x2_0000_0000 ==> wrapping_add(x, y) == x + y
            - 0x1_0000_0000,
        (wrapping_add(x, y) - x - y) % 0x1_0000_0000 == 0,
{
}

/// A word is worth its eight bytes, the first of which is the least significant one.
pub proof fn law_le_word(word: u64)
    ensures
        le_bytes(word).len() == 8,
        ({
            let b = le_bytes(word);
            word == b[0] + b[1] * 0x100 + b[2] * 0x1_0000 + b[3] * 0x100_0000 + (b[4] + b[5] * 0x100
                + b[6] * 0x1_0000 + b[7] * 0x100_0000) * 0x1_0000_0000
        }),
{
    law_le_bytes(word);
}

/// Where everything stands in a normal packet: byte `j` of the data in byte `17 - j`.
pub proof fn law_packet_wire(
    target: FPGAModule,
    burst: bool,
    bsel: u8,
    addr: u32,
    bytes: Seq<u8>,
    mode: Mode,
)
    requires
        bytes.len() >= 8,
    ensures
        ({
            let p = packet(target, burst, bsel, addr, bytes, mode);
            &&& from_host(p, target, mode.number() as int)
            &&& p[0] == if burst {
                2u8
            } else {
                0u8
            }
            &&& p[1] == bsel
            &&& address(p) == addr
            &&& forall|j: int| 0 <= j < 8 ==> #[trigger] bytes[j] == p[17 - j]
        }),
{
    let p = packet(target, burst, bsel, addr, bytes, mode);
    let (chip, module) = (target.chip_id, target.mod_id);
    let b4 = (module << 2) | (chip >> 4);
    assert(chip < 64 ==> b4 / 4 == module % 64 && b4 % 4 == chip / 16) by (bit_vector)
        requires
            b4 == (module << 2) | (chip >> 4),
    ;
    law_mode_numbers(mode.number());
    assert(p.len() == 18);
    assert(p[6] == be_bytes(addr)[0]);
    assert(p[7] == be_bytes(addr)[1]);
    assert(p[8] == be_bytes(addr)[2]);
    assert(p[9] == be_bytes(addr)[3]);
}

/// Where everything stands in a burst packet: byte `j` of the data in byte `17 - j`.
pub proof fn law_burst_packet_wire(not_last: bool, bytes: Seq<u8>)
    requires
        bytes.len() >= 16,
    ensures
        ({
            let p = burst_packet(not_last, bytes);
            &&& p.len() == 18
            &&& p[0] == if not_last {
                2u8
            } else {
                0u8
            }
            &&& p[1] == 0xFF
            &&& forall|j: int| 0 <= j < 16 ==> #[trigger] bytes[j] == p[17 - j]
        }),
{
}

/// What is told from a packet outside a burst, whoever sent it. It has a meaning if it selects a byte
/// or has no known mode. Its data is what stands from the highest to the lowest selected byte. It
/// starts a burst if the burst bit is set and no bit above it is.
pub proof fn law_normal_wire(p: Seq<u8>)
    requires
        p.len() >= 18,
    ensures
        decodable(None, p) <==> p[1] != 0 || p[5] % 16 > 12,
        decode(None, p) is None <==> p[5] % 16 > 12,
        p[1] != 0 && p[5] % 16 <= 12 ==> {
            &&& decode(None, p) matches Some(Packet::Normal(src, mode, addr, data)) && {
                let high = p[1].leading_zeros() as int;
                let low = p[1].trailing_zeros() as int;
                &&& src.chip_id == p[3] / 4
                &&& src.mod_id == p[2]
                &&& mode.number() == p[5] % 16
                &&& addr == address(p)
                &&& data.len() == 8 - high - low
                &&& forall|i: int| 0 <= i < data.len() ==> #[trigger] data[i] == p[10 + high + i]
            }
        },
        burst_after(None, p) == if p[0] == 2 || p[0] == 3 {
            Some((p[1], true))
        } else {
            None
        },
{
    law_mode_numbers((p[5] % 16) as u8);
    lemma_gaps(p[1]);
    assert(address(p) <= u32::MAX);
}

/// What is told from a packet of a burst with the byte selects `bsel`, whoever sent it. If the burst
/// bit and those above it are clear, the packet is the last one and leaves out `15 - bsel / 16` bytes
/// at its upper end. The first one leaves out `15 - bsel % 16` bytes at its lower end.
pub proof fn law_flit_wire(bsel: u8, first: bool, p: Seq<u8>)
    requires
        p.len() >= 18,
    ensures
        ({
            let upper = if p[0] < 2 {
                15 - bsel / 16
            } else {
                0
            };
            let lower = if first {
                15 - bsel % 16
            } else {
                0
            };
            &&& decodable(Some((bsel, first)), p) <==> upper + lower <= 16
            &&& upper + lower <= 16 ==> {
                &&& decode(Some((bsel, first)), p) matches Some(Packet::Burst(data)) && {
                    &&& data.len() == 16 - upper - lower
                    &&& forall|i: int| 0 <= i < data.len() ==> #[trigger] data[i] == p[2 + upper + i]
                }
            }
            &&& burst_after(Some((bsel, first)), p) == if p[0] < 2 {
                None
            } else {
                Some((bsel, false))
            }
        }),
{
}

/// A packet is seen as what it is.
pub proof fn law_packet_view(pkt: NocPacket)
    ensures
        match pkt {
            NocPacket::Normal((src, mode, addr, data)) => {
                &&& pkt@ matches Packet::Normal(s, m, a, d)
                &&& s == src && m == mode && a == addr && d == data@
            },
            NocPacket::Burst(data) => pkt@ matches Packet::Burst(d) && d == data@,
        },
{
}

/// The numbers that sizes, retries and waiting times go by.
pub proof fn law_limits()
    ensures
        NOC_PACKET_LEN == 18,
        BYTES_PER_PACKET == 8,
        BYTES_PER_BURST_PACKET == 16,
        UDP_PAYLOAD_LEN == 1472,
        MAX_WRITE_BURST_LEN == 2047 * 16,
        MAX_SEND_BURST_LEN == 128 * 16,
        MAX_READ_REQ_LEN == (1024 + 512) * 16,
        MAX_READ_RETRIES == 3,
        MAX_SELF_TEST_RETRIES == 100,
        READ_TIMEOUT_SECS == 1,
        DRAIN_TIMEOUT_MILLIS == 100,
        RESET_WAIT_SECS == 5,
{
}

/// A host begins with nothing to send and nothing received, and its first request has the id zero.
pub proof fn law_initial()
    ensures
        CommState::initial().next_req_id == 0,
        CommState::initial().send_buf.len() == 0,
        CommState::initial().burst is None,
        CommState::initial().received.len() == 0,
{
}

/// A host is in order if whole packets wait in a buffer that fits into a datagram, and every datagram
/// that is kept has room for a packet.
pub proof fn law_host_in_order(comm: &Communicator)
    ensures
        comm.wf() <==> {
            &&& comm@.send_buf.len() <= 1472
            &&& comm@.send_buf.len() % 18 == 0
            &&& forall|i: int|
                0 <= i < comm@.received.len() ==> #[trigger] comm@.received[i].len() >= 18
        },
{
}

} // verus!
