//! The packet format of the network-on-chip (NoC).
//!
//! A packet has 18 bytes. Bytes 0 and 1 hold flags and byte selects. In a normal packet, bytes 2 to
//! 9 hold source, target, mode and address, and bytes 10 to 17 hold eight data bytes. In a burst
//! packet, bytes 2 to 17 hold sixteen data bytes. Data bytes travel in descending order.
use vstd::prelude::*;

verus! {

/// Module id of the Ethernet module on every chip.
pub const ETH_MOD_ID: u8 = 0x05;

/// Chip id of the host.
pub const HOST_CHIP_ID: u8 = 0x3F;

/// Module id of the host.
pub const HOST_MOD_ID: u8 = 0x05;

/// Length of a NoC packet in bytes.
pub const NOC_PACKET_LEN: usize = 18;

/// Number of bytes that fit into one UDP datagram.
pub const UDP_PAYLOAD_LEN: usize = 1472;

/// Number of data bytes in a burst packet.
pub const BYTES_PER_BURST_PACKET: usize = 16;

/// Number of data bytes in a normal packet.
pub const BYTES_PER_PACKET: usize = 8;

/// Operating mode of a normal packet.
#[derive(Debug, Clone, Copy, PartialEq, Eq, Structural)]
pub enum Mode {
    ReadReq,
    ReadResp,
    WritePosted,
    TCUMsg,
    TCUAck,
    ReadReq2,
    ReadResp2,
    WritePosted2,
    Error,
    ARQAck,
    ARQReadReq,
    ARQReadResp,
    ARQWritePosted,
}

impl Mode {
    /// The number that stands for the mode on the wire.
    pub open spec fn number(self) -> u8 {
        match self {
            Mode::ReadReq => 0,
            Mode::ReadResp => 1,
            Mode::WritePosted => 2,
            Mode::TCUMsg => 3,
            Mode::TCUAck => 4,
            Mode::ReadReq2 => 5,
            Mode::ReadResp2 => 6,
            Mode::WritePosted2 => 7,
            Mode::Error => 8,
            Mode::ARQAck => 9,
            Mode::ARQReadReq => 10,
            Mode::ARQReadResp => 11,
            Mode::ARQWritePosted => 12,
        }
    }

    /// The mode that a number stands for, if any.
    pub open spec fn of_number(number: u8) -> Option<Mode> {
        if number == 0 {
            Some(Mode::ReadReq)
        } else if number == 1 {
            Some(Mode::ReadResp)
        } else if number == 2 {
            Some(Mode::WritePosted)
        } else if number == 3 {
            Some(Mode::TCUMsg)
        } else if number == 4 {
            Some(Mode::TCUAck)
        } else if number == 5 {
            Some(Mode::ReadReq2)
        } else if number == 6 {
            Some(Mode::ReadResp2)
        } else if number == 7 {
            Some(Mode::WritePosted2)
        } else if number == 8 {
            Some(Mode::Error)
        } else if number == 9 {
            Some(Mode::ARQAck)
        } else if number == 10 {
            Some(Mode::ARQReadReq)
        } else if number == 11 {
            Some(Mode::ARQReadResp)
        } else if number == 12 {
            Some(Mode::ARQWritePosted)
        } else {
            None
        }
    }

    /// Returns the number that stands for this mode on the wire.
    pub fn to_number(self) -> (number: u8)
        ensures
            number == self.number(),
    {
        match self {
            Mode::ReadReq => 0,
            Mode::ReadResp => 1,
            Mode::WritePosted => 2,
            Mode::TCUMsg => 3,
            Mode::TCUAck => 4,
            Mode::ReadReq2 => 5,
            Mode::ReadResp2 => 6,
            Mode::WritePosted2 => 7,
            Mode::Error => 8,
            Mode::ARQAck => 9,
            Mode::ARQReadReq => 10,
            Mode::ARQReadResp => 11,
            Mode::ARQWritePosted => 12,
        }
    }

    /// Returns the mode that `number` stands for, or `None` if there is no such mode.
    pub fn from_number(number: u8) -> (mode: Option<Mode>)
        ensures
            mode == Mode::of_number(number),
            mode is None <==> number > 12,
            mode matches Some(m) ==> m.number() == number,
    {
        match number {
            0 => Some(Mode::ReadReq),
            1 => Some(Mode::ReadResp),
            2 => Some(Mode::WritePosted),
            3 => Some(Mode::TCUMsg),
            4 => Some(Mode::TCUAck),
            5 => Some(Mode::ReadReq2),
            6 => Some(Mode::ReadResp2),
            7 => Some(Mode::WritePosted2),
            8 => Some(Mode::Error),
            9 => Some(Mode::ARQAck),
            10 => Some(Mode::ARQReadReq),
            11 => Some(Mode::ARQReadResp),
            12 => Some(Mode::ARQWritePosted),
            _ => None,
        }
    }
}

/// A module of an FPGA: the chip that it sits on and its number there.
#[derive(Debug, Clone, Copy, PartialEq, Eq, Structural)]
pub struct FPGAModule {
    pub chip_id: u8,
    pub mod_id: u8,
}

impl FPGAModule {
    /// Names module `mod_id` on chip `chip_id`.
    pub fn new(chip_id: u8, mod_id: u8) -> (module: Self)
        ensures
            module == (FPGAModule { chip_id, mod_id }),
    {
        FPGAModule { chip_id, mod_id }
    }

    /// Returns the module in a form for people to read.
    pub fn to_string(&self) -> (text: String)
        ensures
            text@ == "(chip="@ + decimal(self.chip_id) + ", mod="@ + decimal(self.mod_id) + ")"@,
    {
        let mut text: String = String::new();
        text.append("(chip=");
        append_decimal(&mut text, self.chip_id);
        text.append(", mod=");
        append_decimal(&mut text, self.mod_id);
        text.append(")");
        assert(text@ =~= "(chip="@ + decimal(self.chip_id) + ", mod="@ + decimal(self.mod_id)
            + ")"@);
        text
    }
}

/// The character for a digit.
pub open spec fn digit(value: int) -> char {
    ('0' as int + value) as char
}

/// A number in decimal, without leading zeros.
pub open spec fn decimal(number: u8) -> Seq<char> {
    if number < 10 {
        seq![digit(number as int)]
    } else if number < 100 {
        seq![digit(number as int / 10), digit(number as int % 10)]
    } else {
        seq![digit(number as int / 100), digit(number as int / 10 % 10), digit(number as int % 10)]
    }
}

/// Appends a digit to `text`.
fn append_digit(text: &mut String, value: u8)
    requires
        value < 10,
    ensures
        final(text)@ == old(text)@.push(digit(value as int)),
{
    let piece: &str = match value {
        0 => "0",
        1 => "1",
        2 => "2",
        3 => "3",
        4 => "4",
        5 => "5",
        6 => "6",
        7 => "7",
        8 => "8",
        _ => "9",
    };
    proof {
        reveal_strlit("0");
        reveal_strlit("1");
        reveal_strlit("2");
        reveal_strlit("3");
        reveal_strlit("4");
        reveal_strlit("5");
        reveal_strlit("6");
        reveal_strlit("7");
        reveal_strlit("8");
        reveal_strlit("9");
    }
    text.append(piece);
    assert(text@ =~= old(text)@.push(digit(value as int)));
}

/// Appends a number in decimal to `text`.
fn append_decimal(text: &mut String, number: u8)
    ensures
        final(text)@ == old(text)@ + decimal(number),
{
    if number >= 100 {
        append_digit(text, number / 100);
    }
    if number >= 10 {
        append_digit(text, number / 10 % 10);
    }
    append_digit(text, number % 10);
    assert(text@ =~= old(text)@ + decimal(number));
}

/// The module that the host itself is.
pub open spec fn spec_host_mod() -> FPGAModule {
    FPGAModule { chip_id: HOST_CHIP_ID, mod_id: HOST_MOD_ID }
}

/// Returns the module that the host itself is.
#[verifier::when_used_as_spec(spec_host_mod)]
pub fn host_mod() -> (module: FPGAModule)
    ensures
        module == spec_host_mod(),
{
    FPGAModule::new(HOST_CHIP_ID, HOST_MOD_ID)
}

/// The flag byte of a packet: only the burst bit is ever set by the host.
pub open spec fn flag_byte(burst: bool) -> u8 {
    if burst {
        2
    } else {
        0
    }
}

/// The four bytes of a word, most significant byte first.
pub open spec fn be_bytes(word: u32) -> Seq<u8> {
    seq![
        (word / 0x100_0000) as u8,
        (word / 0x1_0000 % 0x100) as u8,
        (word / 0x100 % 0x100) as u8,
        (word % 0x100) as u8,
    ]
}

/// The eight bytes of a word, least significant byte first.
pub open spec fn le_bytes(word: u64) -> Seq<u8> {
    seq![
        (word % 0x100) as u8,
        (word / 0x100 % 0x100) as u8,
        (word / 0x1_0000 % 0x100) as u8,
        (word / 0x100_0000 % 0x100) as u8,
        (word / 0x1_0000_0000 % 0x100) as u8,
        (word / 0x100_0000_0000 % 0x100) as u8,
        (word / 0x1_0000_0000_0000 % 0x100) as u8,
        (word / 0x100_0000_0000_0000) as u8,
    ]
}

/// Returns the bytes of `word`, least significant byte first.
pub fn to_le_bytes(word: u64) -> (bytes: [u8; 8])
    ensures
        bytes@ == le_bytes(word),
{
    let bytes: [u8; 8] = [
        (word % 0x100) as u8,
        (word / 0x100 % 0x100) as u8,
        (word / 0x1_0000 % 0x100) as u8,
        (word / 0x100_0000 % 0x100) as u8,
        (word / 0x1_0000_0000 % 0x100) as u8,
        (word / 0x100_0000_0000 % 0x100) as u8,
        (word / 0x1_0000_0000_0000 % 0x100) as u8,
        (word / 0x100_0000_0000_0000) as u8,
    ];
    assert(bytes@ =~= le_bytes(word));
    bytes
}

/// The first ten bytes of a normal packet from the host to `target`.
///
/// After flags and byte selects come the source (module id and chip id), the target (module id and
/// chip id), four bits of mode, and the address.
pub open spec fn packet_head(
    target: FPGAModule,
    burst: bool,
    bsel: u8,
    addr: u32,
    mode: Mode,
) -> Seq<u8> {
    seq![
        flag_byte(burst),
        bsel,
        HOST_MOD_ID,
        (HOST_CHIP_ID * 4 + target.mod_id / 64) as u8,
        (target.mod_id << 2) | (target.chip_id >> 4),
        (target.chip_id % 16 * 16 + mode.number()) as u8,
    ] + be_bytes(addr)
}

/// A normal packet with the first eight of `bytes`.
pub open spec fn packet(
    target: FPGAModule,
    burst: bool,
    bsel: u8,
    addr: u32,
    bytes: Seq<u8>,
    mode: Mode,
) -> Seq<u8> {
    packet_head(target, burst, bsel, addr, mode) + bytes.take(8).reverse()
}

/// A burst packet with the first sixteen of `bytes`.
pub open spec fn burst_packet(not_last: bool, bytes: Seq<u8>) -> Seq<u8> {
    seq![flag_byte(not_last), 0xFF] + bytes.take(16).reverse()
}

/// Builds the normal packet that carries the first eight of `bytes` to `target`.
pub fn encode_packet(
    target: FPGAModule,
    burst: bool,
    bsel: u8,
    addr: u32,
    bytes: &[u8],
    mode: Mode,
) -> (pkt: [u8; 18])
    requires
        bytes@.len() >= 8,
    ensures
        pkt@ == packet(target, burst, bsel, addr, bytes@, mode),
{
    let mode_byte: u8 = mode.to_number();
    let flags: u8 = if burst {
        2
    } else {
        0
    };
    proof {
        let (chip, module) = (target.chip_id, target.mod_id);
        assert((0x3Fu8 << 2) | (module >> 6) == 0x3Fu8 * 4 + module / 64) by (bit_vector);
        assert(mode_byte <= 12 ==> (chip << 4) | mode_byte == chip % 16 * 16 + mode_byte)
            by (bit_vector);
    }
    let pkt: [u8; 18] = [
        // burst bit; the arq bit below it stays zero
        flags,
        bsel,
        // source and target
        HOST_MOD_ID,
        (HOST_CHIP_ID << 2) | (target.mod_id >> 6),
        (target.mod_id << 2) | (target.chip_id >> 4),
        (target.chip_id << 4) | mode_byte,
        // target address
        (addr / 0x100_0000) as u8,
        (addr / 0x1_0000 % 0x100) as u8,
        (addr / 0x100 % 0x100) as u8,
        (addr % 0x100) as u8,
        // data
        bytes[7],
        bytes[6],
        bytes[5],
        bytes[4],
        bytes[3],
        bytes[2],
        bytes[1],
        bytes[0],
    ];
    assert(pkt@ =~= packet(target, burst, bsel, addr, bytes@, mode));
    pkt
}

/// Builds the burst packet that carries the first sixteen of `bytes`.
///
/// `not_last` tells whether another packet of the same burst follows.
pub fn encode_packet_burst(not_last: bool, bytes: &[u8]) -> (pkt: [u8; 18])
    requires
        bytes@.len() >= 16,
    ensures
        pkt@ == burst_packet(not_last, bytes@),
{
    let flags: u8 = if not_last {
        2
    } else {
        0
    };
    let pkt: [u8; 18] = [
        flags,
        0xFF,
        // data
        bytes[15],
        bytes[14],
        bytes[13],
        bytes[12],
        bytes[11],
        bytes[10],
        bytes[9],
        bytes[8],
        bytes[7],
        bytes[6],
        bytes[5],
        bytes[4],
        bytes[3],
        bytes[2],
        bytes[1],
        bytes[0],
    ];
    assert(pkt@ =~= burst_packet(not_last, bytes@));
    pkt
}

} // verus!
