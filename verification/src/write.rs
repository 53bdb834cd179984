//! Writing to a module and sending messages to it.
use vstd::prelude::*;
use vstd::slice::slice_subrange;

use crate::communicator::{extend_bytes, Communicator};
use crate::packet::{
    burst_packet, encode_packet, encode_packet_burst, le_bytes, packet, to_le_bytes, FPGAModule,
    Mode, BYTES_PER_BURST_PACKET, BYTES_PER_PACKET, ETH_MOD_ID, HOST_CHIP_ID, HOST_MOD_ID,
};
use crate::transmit::{Transmission, TransmissionState};

verus! {

/// Number of bytes in the longest burst that is written.
pub const MAX_WRITE_BURST_LEN: usize = 32752;

/// Number of bytes in the longest message that can be sent.
pub const MAX_SEND_BURST_LEN: usize = 2048;

/// Address of the reset register in the Ethernet module.
pub const RESET_ADDR: u32 = 0xF000_3028;

/// Number of seconds that an FPGA needs to restart.
pub const RESET_WAIT_SECS: u64 = 5;

/// `n` zeros.
pub open spec fn zeros(n: int) -> Seq<u8> {
    Seq::new(n as nat, |i: int| 0u8)
}

/// The first eight of `bytes`, with zeros in place of those that are missing.
pub open spec fn word(bytes: Seq<u8>) -> Seq<u8> {
    Seq::new(
        8,
        |i: int|
            if i < bytes.len() {
                bytes[i]
            } else {
                0
            },
    )
}

/// `bytes`, filled up with zeros to a multiple of sixteen bytes.
pub open spec fn padded(bytes: Seq<u8>) -> Seq<u8> {
    if bytes.len() % 16 == 0 {
        bytes
    } else {
        bytes + zeros(16 - bytes.len() % 16)
    }
}

/// The byte selects for the first `n` of eight bytes.
pub open spec fn selected(n: int) -> u8 {
    if n <= 0 {
        0
    } else if n == 1 {
        0x01
    } else if n == 2 {
        0x03
    } else if n == 3 {
        0x07
    } else if n == 4 {
        0x0F
    } else if n == 5 {
        0x1F
    } else if n == 6 {
        0x3F
    } else if n == 7 {
        0x7F
    } else {
        0xFF
    }
}

/// The mode of a write, which depends on whether the NoC is to acknowledge it.
pub open spec fn write_mode(nocarq: bool) -> Mode {
    if nocarq {
        Mode::ARQWritePosted
    } else {
        Mode::WritePosted
    }
}

/// Number of bytes from `addr` to the next multiple of eight.
pub open spec fn head_len(addr: int) -> int {
    if addr % 8 == 0 {
        0
    } else {
        8 - addr % 8
    }
}

/// The data behind the bytes that go into the unaligned first packet.
pub open spec fn behind_head(addr: int, data: Seq<u8>) -> Seq<u8> {
    if head_len(addr) <= data.len() {
        data.skip(head_len(addr))
    } else {
        Seq::empty()
    }
}

/// The packet that brings a write to an aligned address, if it is needed.
pub open spec fn head_packets(target: FPGAModule, addr: int, data: Seq<u8>, mode: Mode) -> Seq<
    Seq<u8>,
> {
    if head_len(addr) == 0 {
        Seq::empty()
    } else {
        seq![packet(target, false, selected(head_len(addr)), addr as u32, word(data), mode)]
    }
}

/// The packets with eight bytes each.
pub open spec fn word_packets(target: FPGAModule, addr: int, data: Seq<u8>, mode: Mode) -> Seq<
    Seq<u8>,
> {
    Seq::new(
        data.len() / 8,
        |k: int| packet(target, false, 0xFF, (addr + 8 * k) as u32, data.skip(8 * k), mode),
    )
}

/// The packet with the last bytes, fewer than eight, if there are any.
///
/// It never asks for an acknowledgement, and it selects one byte more than there is data.
pub open spec fn tail_packets(target: FPGAModule, addr: int, data: Seq<u8>) -> Seq<Seq<u8>> {
    let tail = data.skip(data.len() as int / 8 * 8);
    if tail.len() == 0 {
        Seq::empty()
    } else {
        seq![
            packet(
                target,
                false,
                selected(tail.len() as int + 1),
                (addr + data.len() as int / 8 * 8) as u32,
                word(tail),
                Mode::WritePosted,
            ),
        ]
    }
}

/// The packets that write `data` to `addr` without a burst.
pub open spec fn noburst_packets(
    target: FPGAModule,
    addr: int,
    data: Seq<u8>,
    nocarq: bool,
) -> Seq<Seq<u8>> {
    let mode = write_mode(nocarq);
    let aligned = addr + head_len(addr);
    let rest = behind_head(addr, data);
    head_packets(target, addr, data, mode) + word_packets(target, aligned, rest, mode)
        + tail_packets(target, aligned, rest)
}

/// What a write without a burst reports: the number of bytes that were written, which is more than
/// `len` if the first packet reaches beyond the data.
pub open spec fn noburst_amount(addr: int, len: int) -> int {
    if head_len(addr) > len {
        head_len(addr)
    } else {
        len
    }
}

/// Whether a write without a burst is possible: an unaligned one needs data, and the address behind
/// the last full packet has to exist.
pub open spec fn noburst_ok(addr: int, len: int) -> bool {
    &&& head_len(addr) > 0 ==> len > 0
    &&& addr + head_len(addr) <= u32::MAX
    &&& addr + head_len(addr) + (len - head_len(addr)) / 8 * 8 <= u32::MAX
}

/// The burst packets for `bytes`: all but the last one are marked as such.
pub open spec fn flits(bytes: Seq<u8>) -> Seq<Seq<u8>> {
    Seq::new(
        bytes.len() / 16,
        |k: int| burst_packet(16 * (k + 1) < bytes.len(), bytes.skip(16 * k)),
    )
}

/// A burst: a packet that tells the number of burst packets, and then these.
#[verifier::opaque]
pub open spec fn burst_run(target: FPGAModule, addr: int, bytes: Seq<u8>, mode: Mode) -> Seq<
    Seq<u8>,
> {
    seq![packet(target, true, 0xFF, addr as u32, le_bytes((bytes.len() / 16) as u64), mode)]
        + flits(bytes)
}

/// The bursts that write all of `data` but the last bytes that fill no burst packet.
pub open spec fn burst_runs(target: FPGAModule, addr: int, data: Seq<u8>) -> Seq<Seq<u8>>
    decreases data.len(),
{
    if data.len() < 16 {
        Seq::empty()
    } else {
        let n = burst_len(data.len() as int);
        burst_run(target, addr, data.take(n), Mode::WritePosted) + burst_runs(
            target,
            addr + n,
            data.skip(n),
        )
    }
}

/// Number of bytes in the next burst.
pub open spec fn burst_len(len: int) -> int {
    if len < MAX_WRITE_BURST_LEN {
        len / 16 * 16
    } else {
        MAX_WRITE_BURST_LEN as int
    }
}

/// The packets that write `data` to `addr`, in bursts as far as possible.
pub open spec fn burst_packets(target: FPGAModule, addr: int, data: Seq<u8>) -> Seq<Seq<u8>> {
    let n = data.len() as int / 16 * 16;
    burst_runs(target, addr, data) + noburst_packets(target, addr + n, data.skip(n), false)
}

/// Whether a write with bursts is possible: a burst needs an aligned address, and the address behind
/// the last full packet has to exist.
pub open spec fn burst_ok(addr: int, len: int) -> bool {
    &&& len >= 16 ==> addr % 16 == 0
    &&& addr + len / 16 * 16 <= u32::MAX
    &&& noburst_ok(addr + len / 16 * 16, len % 16)
}

/// The first word of a message header: length, sender and a constant.
pub open spec fn header_word(len: int) -> int {
    len * 0x8_0000 + (HOST_CHIP_ID * 0x100 + HOST_MOD_ID) * 0x20 + 8
}

/// Number of bytes in a message header, which depends on the version of the TCU.
pub open spec fn header_len(version: u8) -> int {
    if version == 0 {
        16
    } else {
        32
    }
}

/// The header of a message: the first word, no sender and reply endpoint, and zeros.
pub open spec fn message_header(version: u8, len: int) -> Seq<u8> {
    le_bytes(header_word(len) as u64).take(4) + seq![0xFFu8, 0xFF, 0xFF, 0xFF] + zeros(
        header_len(version) - 8,
    )
}

/// The packets that send `data` as a message to endpoint `ep`.
pub open spec fn send_packets(version: u8, target: FPGAModule, ep: u16, data: Seq<u8>) -> Seq<
    Seq<u8>,
> {
    burst_run(
        target,
        ep as int,
        message_header(version, data.len() as int) + padded(data),
        Mode::TCUMsg,
    )
}

/// Returns the byte at `i`, or zero if there is none.
fn byte_or_zero(bytes: &[u8], i: usize) -> (byte: u8)
    ensures
        byte == if i < bytes@.len() {
            bytes@[i as int]
        } else {
            0
        },
{
    if i < bytes.len() {
        bytes[i]
    } else {
        0
    }
}

/// Returns the first eight of `bytes`, with zeros in place of those that are missing.
pub fn first_word(bytes: &[u8]) -> (buf: [u8; 8])
    ensures
        buf@ == word(bytes@),
{
    let buf: [u8; 8] = [
        byte_or_zero(bytes, 0),
        byte_or_zero(bytes, 1),
        byte_or_zero(bytes, 2),
        byte_or_zero(bytes, 3),
        byte_or_zero(bytes, 4),
        byte_or_zero(bytes, 5),
        byte_or_zero(bytes, 6),
        byte_or_zero(bytes, 7),
    ];
    assert(buf@ =~= word(bytes@));
    buf
}

/// Appends `n` zeros to `buf`.
fn push_zeros(buf: &mut Vec<u8>, n: usize)
    ensures
        final(buf)@ == old(buf)@ + zeros(n as int),
{
    let mut added: usize = 0;
    while added < n
        invariant
            added <= n,
            buf@ =~= old(buf)@ + zeros(added as int),
        decreases n - added,
    {
        buf.push(0);
        added = added + 1;
    }
}

/// Shifting all byte selects to the right leaves those of the low bytes.
pub(crate) proof fn lemma_selected(shift: u8)
    requires
        shift < 8,
    ensures
        0xFFu8 >> shift == selected(8 - shift),
{
    assert(0xFFu8 >> 0u8 == 0xFF) by (bit_vector);
    assert(0xFFu8 >> 1u8 == 0x7F) by (bit_vector);
    assert(0xFFu8 >> 2u8 == 0x3F) by (bit_vector);
    assert(0xFFu8 >> 3u8 == 0x1F) by (bit_vector);
    assert(0xFFu8 >> 4u8 == 0x0F) by (bit_vector);
    assert(0xFFu8 >> 5u8 == 0x07) by (bit_vector);
    assert(0xFFu8 >> 6u8 == 0x03) by (bit_vector);
    assert(0xFFu8 >> 7u8 == 0x01) by (bit_vector);
}

/// One burst may be moved from those to come to those that are done.
proof fn lemma_next_burst(done: Seq<Seq<u8>>, target: FPGAModule, addr: int, data: Seq<u8>)
    requires
        data.len() >= 16,
    ensures
        ({
            let n = burst_len(data.len() as int);
            done + burst_runs(target, addr, data) == done + burst_run(
                target,
                addr,
                data.take(n),
                Mode::WritePosted,
            ) + burst_runs(target, addr + n, data.skip(n))
        }),
{
    let n = burst_len(data.len() as int);
    let run = burst_run(target, addr, data.take(n), Mode::WritePosted);
    let rest = burst_runs(target, addr + n, data.skip(n));
    assert(burst_runs(target, addr, data) == run + rest);
    lemma_assoc(done, run, rest);
}

/// Concatenation is associative.
proof fn lemma_assoc(a: Seq<Seq<u8>>, b: Seq<Seq<u8>>, c: Seq<Seq<u8>>)
    ensures
        a + (b + c) == a + b + c,
{
    assert(a + (b + c) =~= a + b + c);
}

/// Adds the packets that write `data` to `addr` without a burst, and sets the amount.
fn push_noburst(tx: &mut Transmission, target: FPGAModule, addr: u32, data: &[u8], nocarq: bool)
    requires
        noburst_ok(addr as int, data@.len() as int),
    ensures
        final(tx)@.packets == old(tx)@.packets + noburst_packets(
            target,
            addr as int,
            data@,
            nocarq,
        ),
        final(tx)@.amount == noburst_amount(addr as int, data@.len() as int),
{
    let mode: Mode = if nocarq {
        Mode::ARQWritePosted
    } else {
        Mode::WritePosted
    };
    let len: usize = data.len();
    let mut pos: usize = 0;
    let mut addr: u32 = addr;
    let ghost start = addr as int;
    let ghost before = tx@.packets;
    let ghost rest = behind_head(start, data@);
    let ghost head = head_packets(target, start, data@, mode);

    // align it first
    let rem: u8 = (addr % 8) as u8;
    if rem != 0 {
        let buf: [u8; 8] = first_word(data);
        proof {
            lemma_selected(rem);
            assert(word(data@).take(8) =~= word(data@));
        }
        tx.push(encode_packet(target, false, 0xFF >> rem, addr, &buf, mode));
        let amount: usize = BYTES_PER_PACKET - rem as usize;
        addr = addr + amount as u32;
        pos = amount;
    }
    assert(tx@.packets =~= before + head);
    let ghost aligned = addr as int;
    let ghost skipped = pos as int;
    let ghost words = word_packets(target, aligned, rest, mode);

    // write full and aligned packets
    let ghost mut done: int = 0;
    assert(words.take(0) =~= Seq::empty());
    while pos < len && len - pos >= BYTES_PER_PACKET
        invariant
            len == data@.len(),
            skipped == head_len(start),
            rest == behind_head(start, data@),
            words == word_packets(target, aligned, rest, mode),
            aligned + rest.len() as int / 8 * 8 <= u32::MAX,
            0 <= done <= rest.len() as int / 8,
            pos == skipped + 8 * done,
            addr == aligned + 8 * done,
            tx@.packets =~= before + head + words.take(done),
        decreases len - pos,
    {
        let chunk = slice_subrange(data, pos, len);
        proof {
            assert(chunk@ =~= rest.skip(8 * done));
            assert(words.take(done + 1) =~= words.take(done).push(words[done]));
        }
        tx.push(encode_packet(target, false, 0xFF, addr, chunk, mode));
        addr = addr + BYTES_PER_PACKET as u32;
        pos = pos + BYTES_PER_PACKET;
        proof {
            done = done + 1;
        }
    }
    assert(done == rest.len() as int / 8);
    assert(words.take(done) =~= words);

    // write trailing packet
    if pos < len {
        let tail = slice_subrange(data, pos, len);
        let buf: [u8; 8] = first_word(tail);
        let rem: u8 = (len - pos) as u8;
        proof {
            lemma_selected((7 - rem) as u8);
            assert(tail@ =~= rest.skip(rest.len() as int / 8 * 8));
            assert(word(tail@).take(8) =~= word(tail@));
        }
        tx.push(encode_packet(target, false, 0xFF >> (0x7 - rem), addr, &buf, Mode::WritePosted));
        pos = len;
    }
    tx.set_amount(pos);
    assert(tx@.packets =~= before + noburst_packets(target, start, data@, nocarq));
}

/// Returns the number of bytes in the next burst.
fn next_burst_len(len: usize) -> (byte_count: usize)
    requires
        len >= 16,
    ensures
        byte_count == burst_len(len as int),
        0 < byte_count <= len,
        byte_count <= MAX_WRITE_BURST_LEN,
        byte_count % 16 == 0,
{
    if len < MAX_WRITE_BURST_LEN {
        len / BYTES_PER_BURST_PACKET * BYTES_PER_BURST_PACKET
    } else {
        MAX_WRITE_BURST_LEN
    }
}

/// Adds a burst with all of `bytes`.
fn push_burst(tx: &mut Transmission, target: FPGAModule, addr: u32, bytes: &[u8], mode: Mode)
    requires
        bytes@.len() % 16 == 0,
    ensures
        final(tx)@ == (TransmissionState {
            packets: old(tx)@.packets + burst_run(target, addr as int, bytes@, mode),
            ..old(tx)@
        }),
{
    let ghost before = tx@;
    let len: usize = bytes.len();
    // the initial packet defines the burst length
    let word_count: u64 = (len / BYTES_PER_BURST_PACKET) as u64;
    let count_bytes: [u8; 8] = to_le_bytes(word_count);
    tx.push(encode_packet(target, true, 0xFF, addr, &count_bytes, mode));

    let ghost all = flits(bytes@);
    let ghost started = tx@.packets;
    let ghost mut done: int = 0;
    let mut pos: usize = 0;
    assert(all.take(0) =~= Seq::empty());
    while pos < len
        invariant
            len == bytes@.len(),
            len % 16 == 0,
            all == flits(bytes@),
            0 <= done <= len as int / 16,
            pos == 16 * done,
            tx@.amount == before.amount,
            tx@.packets =~= started + all.take(done),
        decreases len - pos,
    {
        let not_last: bool = len - pos > BYTES_PER_BURST_PACKET;
        let chunk = slice_subrange(bytes, pos, len);
        proof {
            assert(chunk@ =~= bytes@.skip(16 * done));
            assert(all.take(done + 1) =~= all.take(done).push(all[done]));
        }
        tx.push(encode_packet_burst(not_last, chunk));
        pos = pos + BYTES_PER_BURST_PACKET;
        proof {
            done = done + 1;
        }
    }
    assert(all.take(done) =~= all);
    reveal(burst_run);
    assert(tx@.packets =~= before.packets + burst_run(target, addr as int, bytes@, mode));
}

/// Whether `len` bytes can be written to `addr` without a burst.
pub fn can_write_noburst(addr: u32, len: usize) -> (yes: bool)
    ensures
        yes == noburst_ok(addr as int, len as int),
{
    let rem: u32 = addr % 8;
    let head: u32 = if rem == 0 {
        0
    } else {
        8 - rem
    };
    if head > 0 && len == 0 || head > u32::MAX - addr {
        return false;
    }
    if len < head as usize {
        return true;
    }
    let words: usize = (len - head as usize) / BYTES_PER_PACKET * BYTES_PER_PACKET;
    words as u64 <= (u32::MAX - addr - head) as u64
}

/// Whether `len` bytes can be written to `addr`, in bursts as far as possible.
pub fn can_write_burst(addr: u32, len: usize) -> (yes: bool)
    ensures
        yes == burst_ok(addr as int, len as int),
{
    let n: usize = len / BYTES_PER_BURST_PACKET * BYTES_PER_BURST_PACKET;
    if len >= BYTES_PER_BURST_PACKET && addr % 16 != 0 {
        return false;
    }
    if n as u64 > (u32::MAX - addr) as u64 {
        return false;
    }
    can_write_noburst(addr + n as u32, len % BYTES_PER_BURST_PACKET)
}

impl Communicator {
    /// Writes `data` to address `addr` of `target` without a burst.
    ///
    /// The transmission reports the number of bytes that were written.
    pub fn write_noburst(
        &self,
        target: FPGAModule,
        addr: u32,
        data: &[u8],
        nocarq: bool,
    ) -> (tx: Transmission)
        requires
            noburst_ok(addr as int, data@.len() as int),
        ensures
            tx@.packets == noburst_packets(target, addr as int, data@, nocarq),
            tx@.amount == noburst_amount(addr as int, data@.len() as int),
    {
        let mut tx = Transmission::new();
        push_noburst(&mut tx, target, addr, data, nocarq);
        assert(tx@.packets =~= noburst_packets(target, addr as int, data@, nocarq));
        tx
    }

    /// Writes `data` to address `addr` of `target`, in bursts as far as possible.
    ///
    /// The transmission reports the number of bytes that were written without a burst.
    pub fn write_burst(&self, target: FPGAModule, addr: u32, data: &[u8]) -> (tx: Transmission)
        requires
            burst_ok(addr as int, data@.len() as int),
        ensures
            tx@.packets == burst_packets(target, addr as int, data@),
            tx@.amount == noburst_amount(
                addr + data@.len() as int / 16 * 16,
                data@.len() as int % 16,
            ),
    {
        let len: usize = data.len();
        let mut tx = Transmission::new();
        let mut pos: usize = 0;
        let mut addr: u32 = addr;
        let ghost start = addr as int;
        let ghost all = burst_runs(target, start, data@);
        let ghost mut todo = all;
        assert(data@.skip(0) =~= data@);
        while len - pos >= BYTES_PER_BURST_PACKET
            invariant
                len == data@.len(),
                pos <= len,
                pos % 16 == 0,
                addr == start + pos,
                start + len as int / 16 * 16 <= u32::MAX,
                all == burst_runs(target, start, data@),
                todo == burst_runs(target, addr as int, data@.skip(pos as int)),
                tx@.packets + todo == all,
            decreases len - pos,
        {
            let byte_count: usize = next_burst_len(len - pos);
            let chunk = slice_subrange(data, pos, pos + byte_count);
            let ghost left = data@.skip(pos as int);
            proof {
                assert(chunk@ =~= left.take(burst_len(left.len() as int)));
                assert(left.skip(byte_count as int) =~= data@.skip(pos + byte_count));
                lemma_next_burst(tx@.packets, target, addr as int, left);
            }
            push_burst(&mut tx, target, addr, chunk, Mode::WritePosted);
            addr = addr + byte_count as u32;
            pos = pos + byte_count;
            proof {
                todo = burst_runs(target, addr as int, data@.skip(pos as int));
            }
        }
        assert(pos == len as int / 16 * 16);

        // send the remaining data without burst, if there is any
        let rest = slice_subrange(data, pos, len);
        assert(rest@ =~= data@.skip(pos as int));
        push_noburst(&mut tx, target, addr, rest, false);
        assert(tx@.packets =~= burst_packets(target, start, data@));
        tx
    }

    /// Sends `data` as a message to endpoint `ep` of `target`, whose TCU has the given version.
    pub fn send_bytes(&self, version: u8, target: FPGAModule, ep: u16, data: &[u8]) -> (tx:
        Transmission)
        requires
            data@.len() <= MAX_SEND_BURST_LEN,
        ensures
            tx@.packets == send_packets(version, target, ep, data@),
            tx@.amount == 0,
    {
        let len: usize = data.len();
        let sender: u32 = HOST_CHIP_ID as u32 * 0x100 + HOST_MOD_ID as u32;
        let first: u64 = len as u64 * 0x8_0000 + sender as u64 * 0x20 + 8;
        let first_bytes: [u8; 8] = to_le_bytes(first);

        let mut message: Vec<u8> = Vec::new();
        extend_bytes(&mut message, slice_subrange(first_bytes.as_slice(), 0, 4));
        let endpoints: [u8; 4] = [0xFF, 0xFF, 0xFF, 0xFF];
        extend_bytes(&mut message, endpoints.as_slice());
        push_zeros(
            &mut message,
            if version == 0 {
                8
            } else {
                24
            },
        );
        assert(message@ =~= message_header(version, len as int));

        extend_bytes(&mut message, data);
        if len % BYTES_PER_BURST_PACKET != 0 {
            push_zeros(&mut message, BYTES_PER_BURST_PACKET - len % BYTES_PER_BURST_PACKET);
        }
        assert(message@ =~= message_header(version, len as int) + padded(data@));

        let mut tx = Transmission::new();
        push_burst(&mut tx, target, ep as u32, message.as_slice(), Mode::TCUMsg);
        assert(tx@.packets =~= send_packets(version, target, ep, data@));
        tx
    }

    /// Resets the FPGA with chip id `chip_id`. It needs `RESET_WAIT_SECS` seconds to restart.
    pub fn fpga_reset(&self, chip_id: u8) -> (tx: Transmission)
        ensures
            tx@.packets == noburst_packets(
                FPGAModule { chip_id, mod_id: ETH_MOD_ID },
                RESET_ADDR as int,
                seq![1u8, 0, 0, 0, 0, 0, 0, 0],
                false,
            ),
            tx@.amount == 8,
    {
        let reset_data: [u8; 8] = [1, 0, 0, 0, 0, 0, 0, 0];
        assert(reset_data@ =~= seq![1u8, 0, 0, 0, 0, 0, 0, 0]);
        self.write_noburst(
            FPGAModule::new(chip_id, ETH_MOD_ID),
            RESET_ADDR,
            reset_data.as_slice(),
            false,
        )
    }
}

} // verus!
