//! What a received packet means.
//!
//! The meaning depends on whether a burst is going on. The state of a burst is `Some((bsel, first))`
//! where `bsel` are the byte selects that the burst started with and `first` tells whether the first
//! burst packet is still to come.
use vstd::prelude::*;

use crate::packet::{FPGAModule, Mode};

verus! {

/// A received packet. The data is in wire order, that is, descending.
#[derive(Debug)]
pub enum NocPacket<'b> {
    /// Source, mode, address and data.
    Normal((FPGAModule, Mode, u32, &'b [u8])),
    /// Data of a burst.
    Burst(&'b [u8]),
}

/// The mathematical value of a `NocPacket`.
pub enum Packet {
    Normal(FPGAModule, Mode, u32, Seq<u8>),
    Burst(Seq<u8>),
}

impl<'b> View for NocPacket<'b> {
    type V = Packet;

    open spec fn view(&self) -> Packet {
        match self {
            NocPacket::Normal((src, mode, addr, data)) => Packet::Normal(*src, *mode, *addr, data@),
            NocPacket::Burst(data) => Packet::Burst(data@),
        }
    }
}

/// Why received data could not be used.
#[derive(Debug, Clone, Copy, PartialEq, Eq, Structural)]
pub enum CommError {
    /// A packet with an unknown mode, or with an address that nobody asked for.
    InvalidData,
    /// Data that no sound device sends: it leaves no way to go on.
    Broken,
}

/// Number of unselected bytes above the highest selected one.
pub open spec fn high_gap(bsel: u8) -> int {
    if bsel >= 0x80 {
        0
    } else if bsel >= 0x40 {
        1
    } else if bsel >= 0x20 {
        2
    } else if bsel >= 0x10 {
        3
    } else if bsel >= 0x08 {
        4
    } else if bsel >= 0x04 {
        5
    } else if bsel >= 0x02 {
        6
    } else if bsel >= 0x01 {
        7
    } else {
        8
    }
}

/// Number of unselected bytes below the lowest selected one.
pub open spec fn low_gap(bsel: u8) -> int {
    if bsel % 0x02 != 0 {
        0
    } else if bsel % 0x04 != 0 {
        1
    } else if bsel % 0x08 != 0 {
        2
    } else if bsel % 0x10 != 0 {
        3
    } else if bsel % 0x20 != 0 {
        4
    } else if bsel % 0x40 != 0 {
        5
    } else if bsel % 0x80 != 0 {
        6
    } else if bsel != 0 {
        7
    } else {
        8
    }
}

/// Number of unused bytes in front of the data of a burst packet: only the last one has any.
pub open spec fn burst_begin(bsel: u8, last: bool) -> int {
    if last {
        15 - bsel / 16
    } else {
        0
    }
}

/// Number of unused bytes behind the data of a burst packet: only the first one has any.
pub open spec fn burst_end(bsel: u8, first: bool) -> int {
    if first {
        15 - bsel % 16
    } else {
        0
    }
}

/// The address in a normal packet, most significant byte first.
pub open spec fn addr_of(bytes: Seq<u8>) -> u32 {
    (bytes[6] * 0x100_0000 + bytes[7] * 0x1_0000 + bytes[8] * 0x100 + bytes[9]) as u32
}

/// The sender of a normal packet.
pub open spec fn source_of(bytes: Seq<u8>) -> FPGAModule {
    FPGAModule { chip_id: (bytes[3] / 4) as u8, mod_id: bytes[2] }
}

/// The packet at the start of `bytes`, or `None` if its mode is unknown.
pub open spec fn decode(burst: Option<(u8, bool)>, bytes: Seq<u8>) -> Option<Packet> {
    match burst {
        Some((bsel, first)) => Some(
            Packet::Burst(
                bytes.subrange(
                    2 + burst_begin(bsel, bytes[0] / 2 == 0),
                    18 - burst_end(bsel, first),
                ),
            ),
        ),
        None => match Mode::of_number(bytes[5] % 16) {
            Some(mode) => Some(
                Packet::Normal(
                    source_of(bytes),
                    mode,
                    addr_of(bytes),
                    bytes.subrange(10 + high_gap(bytes[1]), 18 - low_gap(bytes[1])),
                ),
            ),
            None => None,
        },
    }
}

/// The state of the burst after the packet at the start of `bytes`.
pub open spec fn burst_after(burst: Option<(u8, bool)>, bytes: Seq<u8>) -> Option<(u8, bool)> {
    match burst {
        Some((bsel, _)) => if bytes[0] / 2 == 0 {
            None
        } else {
            Some((bsel, false))
        },
        None => if bytes[0] / 2 == 1 {
            Some((bytes[1], true))
        } else {
            None
        },
    }
}

/// Whether the packet at the start of `bytes` has a meaning: the bytes that it selects form a range.
///
/// A packet with an unknown mode is told apart by its mode, whatever it selects.
pub open spec fn decodable(burst: Option<(u8, bool)>, bytes: Seq<u8>) -> bool {
    match burst {
        Some((bsel, first)) => burst_begin(bsel, bytes[0] / 2 == 0) + burst_end(
            bsel,
            first,
        ) <= 16,
        None => bytes[1] != 0 || Mode::of_number(bytes[5] % 16) is None,
    }
}

/// `high_gap` and `low_gap` are what counting zero bits gives.
pub(crate) proof fn lemma_gaps(bsel: u8)
    ensures
        high_gap(bsel) == bsel.leading_zeros(),
        low_gap(bsel) == bsel.trailing_zeros(),
        bsel != 0 ==> high_gap(bsel) + low_gap(bsel) <= 7,
{
    broadcast use vstd::std_specs::bits::axiom_u8_leading_zeros;
    broadcast use vstd::std_specs::bits::axiom_u8_trailing_zeros;

    let h = bsel.leading_zeros() as u8;
    let l = bsel.trailing_zeros() as u8;
    if bsel != 0 {
        let top = (7 - h) as u8;
        let above = (8 - h) as u8;
        let left = (8 - l) as u8;
        assert(high_gap(bsel) == h) by (bit_vector)
            requires
                h < 8,
                top == 7 - h,
                above == 8 - h,
                bsel >> above == 0,
                bsel >> top & 1 != 0,
        ;
        assert(low_gap(bsel) == l) by (bit_vector)
            requires
                l < 8,
                left == 8 - l,
                bsel << left == 0,
                bsel >> l & 1 == 1,
        ;
        assert(high_gap(bsel) + low_gap(bsel) <= 7) by (bit_vector)
            requires
                bsel != 0,
        ;
    }
}

} // verus!
