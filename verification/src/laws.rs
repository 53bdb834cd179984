//! What holds of the library as a whole.
use vstd::prelude::*;

use crate::decode::{
    addr_of, burst_after, burst_begin, burst_end, decodable, decode, high_gap, lemma_gaps, low_gap,
    Packet,
};
use crate::packet::{
    be_bytes, burst_packet, host_mod, le_bytes, packet, FPGAModule, Mode,
};
use crate::receive::{payload, received, Received};
use crate::transmit::{all_packets, datagrams, law_datagrams};
use crate::write::{
    behind_head, burst_len, burst_ok, burst_packets, burst_run, burst_runs, flits, head_len,
    head_packets, message_header, noburst_ok, noburst_packets, padded, selected, send_packets,
    tail_packets, word, word_packets, write_mode, zeros, MAX_SEND_BURST_LEN,
};

verus! {

/// A mode can be told from its number.
pub proof fn law_mode_number(mode: Mode)
    ensures
        Mode::of_number(mode.number()) == Some(mode),
        mode.number() <= 12,
{
}

/// The module that the target bits of a normal packet name.
pub open spec fn target_of(bytes: Seq<u8>) -> FPGAModule {
    FPGAModule {
        chip_id: (bytes[4] % 4 * 16 + bytes[5] / 16) as u8,
        mod_id: (bytes[3] % 4 * 64 + bytes[4] / 4) as u8,
    }
}

/// A packet names its target. A chip id has six bits.
pub proof fn law_packet_target(
    target: FPGAModule,
    burst: bool,
    bsel: u8,
    addr: u32,
    bytes: Seq<u8>,
    mode: Mode,
)
    requires
        target.chip_id < 64,
    ensures
        target_of(packet(target, burst, bsel, addr, bytes, mode)) == target,
{
    let (chip, module) = (target.chip_id, target.mod_id);
    let b4 = (module << 2) | (chip >> 4);
    assert(b4 == module % 64 * 4 + chip / 16) by (bit_vector)
        requires
            chip < 64,
            b4 == (module << 2) | (chip >> 4),
    ;
}

/// A word can be told from its bytes: the first four of them make up its low half.
pub proof fn law_le_bytes(word: u64)
    ensures
        ({
            let b = le_bytes(word);
            &&& b.len() == 8
            &&& word % 0x1_0000_0000 == b[0] + b[1] * 0x100 + b[2] * 0x1_0000 + b[3] * 0x100_0000
            &&& word / 0x1_0000_0000 == b[4] + b[5] * 0x100 + b[6] * 0x1_0000 + b[7] * 0x100_0000
        }),
{
    assert(word % 0x1_0000_0000 == word % 0x100 + word / 0x100 % 0x100 * 0x100 + word / 0x1_0000
        % 0x100 * 0x1_0000 + word / 0x100_0000 % 0x100 * 0x100_0000) by (bit_vector);
    assert(word / 0x1_0000_0000 == word / 0x1_0000_0000 % 0x100 + word / 0x100_0000_0000 % 0x100
        * 0x100 + word / 0x1_0000_0000_0000 % 0x100 * 0x1_0000 + word / 0x100_0000_0000_0000
        * 0x100_0000) by (bit_vector);
    assert(word / 0x100_0000_0000_0000 < 0x100) by (bit_vector);
}

/// An address can be told from its bytes.
proof fn lemma_addr(addr: u32)
    ensures
        ({
            let b = be_bytes(addr);
            b[0] * 0x100_0000 + b[1] * 0x1_0000 + b[2] * 0x100 + b[3] == addr
        }),
{
}

/// A normal packet that the host sends means what it was made of: source, mode and address are told
/// from it, and the selected data bytes in ascending order are those that it was made of. It has a
/// meaning if it selects any byte.
pub proof fn law_decode_packet(
    target: FPGAModule,
    burst: bool,
    bsel: u8,
    addr: u32,
    bytes: Seq<u8>,
    mode: Mode,
    more: Seq<u8>,
)
    requires
        bytes.len() >= 8,
    ensures
        ({
            let wire = packet(target, burst, bsel, addr, bytes, mode) + more;
            &&& decodable(None, wire) <==> bsel != 0
            &&& burst_after(None, wire) == if burst {
                Some((bsel, true))
            } else {
                None
            }
            &&& bsel != 0 ==> {
                &&& decode(None, wire) matches Some(Packet::Normal(src, m, a, data)) && {
                    &&& src == host_mod()
                    &&& m == mode
                    &&& a == addr
                    &&& data.reverse() == bytes.subrange(low_gap(bsel), 8 - high_gap(bsel))
                }
            }
        }),
{
    let wire = packet(target, burst, bsel, addr, bytes, mode) + more;
    lemma_addr(addr);
    law_mode_number(mode);
    assert(addr_of(wire) == addr);
    assert(wire[5] % 16 == mode.number());
    if bsel != 0 {
        lemma_gaps(bsel);
        let (h, l) = (high_gap(bsel), low_gap(bsel));
        assert(wire.subrange(10 + h, 18 - l).reverse() =~= bytes.subrange(l, 8 - h));
    }
}

/// A burst packet that the host sends means what it was made of: the data bytes in ascending order
/// are those that it was made of, but for those that the byte selects of the burst leave out.
pub proof fn law_decode_burst_packet(
    bsel: u8,
    first: bool,
    not_last: bool,
    bytes: Seq<u8>,
    more: Seq<u8>,
)
    requires
        bytes.len() >= 16,
    ensures
        ({
            let wire = burst_packet(not_last, bytes) + more;
            let begin = burst_begin(bsel, !not_last);
            let end = burst_end(bsel, first);
            &&& decodable(Some((bsel, first)), wire) <==> begin + end <= 16
            &&& burst_after(Some((bsel, first)), wire) == if not_last {
                Some((bsel, false))
            } else {
                None
            }
            &&& begin + end <= 16 ==> {
                &&& decode(Some((bsel, first)), wire) matches Some(Packet::Burst(data))
                    && data.reverse() == bytes.subrange(end, 16 - begin)
            }
        }),
{
    let wire = burst_packet(not_last, bytes) + more;
    let begin = burst_begin(bsel, !not_last);
    let end = burst_end(bsel, first);
    if begin + end <= 16 {
        assert(wire.subrange(2 + begin, 18 - end).reverse() =~= bytes.subrange(end, 16 - begin));
    }
}

/// The first packet in `wire` means the same without what follows it.
pub(crate) proof fn lemma_first_packet(burst: Option<(u8, bool)>, wire: Seq<u8>, more: Seq<u8>)
    requires
        wire.len() == 18,
    ensures
        decodable(burst, wire + more) == decodable(burst, wire),
        burst_after(burst, wire + more) == burst_after(burst, wire),
        decodable(burst, wire) ==> decode(burst, wire + more) == decode(burst, wire),
{
    let all = wire + more;
    if decodable(burst, wire) {
        match burst {
            Some((bsel, first)) => {
                let begin = burst_begin(bsel, wire[0] / 2 == 0);
                let end = burst_end(bsel, first);
                assert(all.subrange(2 + begin, 18 - end) =~= wire.subrange(2 + begin, 18 - end));
            },
            None => {
                if Mode::of_number(wire[5] % 16) is Some {
                    lemma_gaps(wire[1]);
                    let (h, l) = (high_gap(wire[1]), low_gap(wire[1]));
                    assert(all.subrange(10 + h, 18 - l) =~= wire.subrange(10 + h, 18 - l));
                }
            },
        }
    }
}

/// Whether the packets, received in the given state of a burst, carry `bytes` from the host to
/// consecutive addresses from `addr` on, and leave no burst unfinished.
///
/// All of them are posted writes; with `arq`, some may ask for an acknowledgement.
pub open spec fn carries(
    burst: Option<(u8, bool)>,
    packets: Seq<Seq<u8>>,
    addr: int,
    bytes: Seq<u8>,
    arq: bool,
) -> bool
    decreases packets.len(),
{
    if packets.len() == 0 {
        burst is None && bytes.len() == 0
    } else {
        let wire = packets[0];
        let after = burst_after(burst, wire);
        let rest = packets.drop_first();
        &&& wire.len() == 18
        &&& decodable(burst, wire)
        &&& match decode(burst, wire) {
            None => false,
            Some(Packet::Normal(src, mode, a, data)) => {
                &&& src == host_mod()
                &&& mode == Mode::WritePosted || arq && mode == Mode::ARQWritePosted
                &&& a == addr
                &&& if after is Some {
                    carries(after, rest, addr, bytes, arq)
                } else {
                    &&& data.reverse().is_prefix_of(bytes)
                    &&& carries(after, rest, addr + data.len(), bytes.skip(data.len() as int), arq)
                }
            },
            Some(Packet::Burst(data)) => {
                &&& data.reverse().is_prefix_of(bytes)
                &&& carries(after, rest, addr + data.len(), bytes.skip(data.len() as int), arq)
            },
        }
    }
}

/// What two sequences of packets carry one after the other, they carry together.
proof fn lemma_carries_concat(
    burst: Option<(u8, bool)>,
    first: Seq<Seq<u8>>,
    second: Seq<Seq<u8>>,
    addr: int,
    x: Seq<u8>,
    y: Seq<u8>,
    arq: bool,
)
    requires
        carries(burst, first, addr, x, arq),
        carries(None, second, addr + x.len(), y, arq),
    ensures
        carries(burst, first + second, addr, x + y, arq),
    decreases first.len(),
{
    if first.len() == 0 {
        assert(first + second =~= second);
        assert(x + y =~= y);
    } else {
        let wire = first[0];
        let after = burst_after(burst, wire);
        let rest = first.drop_first();
        assert((first + second).drop_first() =~= rest + second);
        match decode(burst, wire) {
            None => {},
            Some(Packet::Normal(_, _, _, data)) => {
                if after is Some {
                    lemma_carries_concat(after, rest, second, addr, x, y, arq);
                } else {
                    let n = data.len() as int;
                    assert((x + y).skip(n) =~= x.skip(n) + y);
                    assert((x + y).take(n) =~= x.take(n));
                    lemma_carries_concat(after, rest, second, addr + n, x.skip(n), y, arq);
                }
            },
            Some(Packet::Burst(data)) => {
                let n = data.len() as int;
                assert((x + y).skip(n) =~= x.skip(n) + y);
                assert((x + y).take(n) =~= x.take(n));
                lemma_carries_concat(after, rest, second, addr + n, x.skip(n), y, arq);
            },
        }
    }
}

/// A normal packet carries the bytes that it selects.
proof fn lemma_carries_one(
    target: FPGAModule,
    n: int,
    addr: int,
    bytes: Seq<u8>,
    mode: Mode,
    arq: bool,
)
    requires
        0 < n <= 8,
        0 <= addr <= u32::MAX,
        bytes.len() >= 8,
        mode == Mode::WritePosted || arq && mode == Mode::ARQWritePosted,
    ensures
        carries(
            None,
            seq![packet(target, false, selected(n), addr as u32, bytes, mode)],
            addr,
            bytes.take(n),
            arq,
        ),
{
    let wire = packet(target, false, selected(n), addr as u32, bytes, mode);
    law_decode_packet(target, false, selected(n), addr as u32, bytes, mode, Seq::empty());
    assert(wire + Seq::<u8>::empty() =~= wire);
    assert(seq![wire].drop_first() =~= Seq::empty());
    if let Some(Packet::Normal(_, _, _, data)) = decode(None, wire) {
        assert(data.reverse() =~= bytes.take(n));
        assert(data.len() == n);
        assert(bytes.take(n).skip(n) =~= Seq::empty());
        assert(carries(None, Seq::empty(), addr + n, Seq::empty(), arq));
    }
}

/// The first full packet can be told from the others.
proof fn lemma_words_split(target: FPGAModule, addr: int, data: Seq<u8>, mode: Mode)
    requires
        data.len() >= 8,
    ensures
        word_packets(target, addr, data, mode) == seq![
            packet(target, false, 0xFF, addr as u32, data, mode),
        ] + word_packets(target, addr + 8, data.skip(8), mode),
{
    let all = word_packets(target, addr, data, mode);
    let rest = word_packets(target, addr + 8, data.skip(8), mode);
    let one = seq![packet(target, false, 0xFF, addr as u32, data, mode)];
    assert forall|k: int| 0 <= k < all.len() implies all[k] == (one + rest)[k] by {
        if k == 0 {
            assert(data.skip(0) =~= data);
        } else {
            assert(data.skip(8).skip(8 * (k - 1)) =~= data.skip(8 * k));
        }
    }
    assert(all =~= one + rest);
}

/// Full packets carry all of their bytes.
proof fn lemma_carries_words(
    target: FPGAModule,
    addr: int,
    data: Seq<u8>,
    mode: Mode,
    arq: bool,
)
    requires
        0 <= addr,
        addr + data.len() as int / 8 * 8 <= u32::MAX,
        mode == Mode::WritePosted || arq && mode == Mode::ARQWritePosted,
    ensures
        carries(
            None,
            word_packets(target, addr, data, mode),
            addr,
            data.take(data.len() as int / 8 * 8),
            arq,
        ),
    decreases data.len(),
{
    let all = word_packets(target, addr, data, mode);
    if data.len() >= 8 {
        let rest = data.skip(8);
        let n = rest.len() as int / 8 * 8;
        let one = seq![packet(target, false, 0xFF, addr as u32, data, mode)];
        lemma_carries_one(target, 8, addr, data, mode, arq);
        lemma_carries_words(target, addr + 8, rest, mode, arq);
        lemma_carries_concat(
            None,
            one,
            word_packets(target, addr + 8, rest, mode),
            addr,
            data.take(8),
            rest.take(n),
            arq,
        );
        lemma_words_split(target, addr, data, mode);
        assert(data.take(8) + rest.take(n) =~= data.take(data.len() as int / 8 * 8));
    } else {
        assert(all =~= Seq::empty());
    }
}

/// Number of zeros that a write without a burst puts behind the data.
///
/// They fill the first packet if the data does not reach an aligned address, and a last packet with
/// fewer than eight bytes is followed by one.
pub open spec fn noburst_padding(addr: int, len: int) -> int {
    if head_len(addr) > len {
        head_len(addr) - len
    } else if (len - head_len(addr)) % 8 != 0 {
        1
    } else {
        0
    }
}

/// A write without a burst carries the data, with a few zeros behind it, to the given address.
pub proof fn law_write_noburst(target: FPGAModule, addr: u32, data: Seq<u8>, nocarq: bool)
    requires
        noburst_ok(addr as int, data.len() as int),
    ensures
        carries(
            None,
            noburst_packets(target, addr as int, data, nocarq),
            addr as int,
            data + zeros(noburst_padding(addr as int, data.len() as int)),
            nocarq,
        ),
{
    let addr = addr as int;
    let mode = write_mode(nocarq);
    let head = head_len(addr);
    let rest = behind_head(addr, data);
    let aligned = addr + head;
    let n = rest.len() as int / 8 * 8;
    let tail = rest.skip(n);

    let x = word(data).take(head);
    let first = head_packets(target, addr, data, mode);
    if head > 0 {
        lemma_carries_one(target, head, addr, word(data), mode, nocarq);
    }
    let y = rest.take(n);
    let words = word_packets(target, aligned, rest, mode);
    lemma_carries_words(target, aligned, rest, mode, nocarq);
    lemma_carries_concat(None, first, words, addr, x, y, nocarq);

    let z = if tail.len() == 0 {
        Seq::empty()
    } else {
        word(tail).take(tail.len() as int + 1)
    };
    let last = tail_packets(target, aligned, rest);
    if tail.len() > 0 {
        lemma_carries_one(
            target,
            tail.len() as int + 1,
            aligned + n,
            word(tail),
            Mode::WritePosted,
            nocarq,
        );
    }
    lemma_carries_concat(None, first + words, last, addr, x + y, z, nocarq);
    lemma_noburst_bytes(addr, data);
}

/// The pieces that a write without a burst is cut into make up the data and a few zeros.
proof fn lemma_noburst_bytes(addr: int, data: Seq<u8>)
    requires
        head_len(addr) > 0 ==> data.len() > 0,
    ensures
        ({
            let rest = behind_head(addr, data);
            let n = rest.len() as int / 8 * 8;
            let tail = rest.skip(n);
            let z = if tail.len() == 0 {
                Seq::empty()
            } else {
                word(tail).take(tail.len() as int + 1)
            };
            word(data).take(head_len(addr)) + rest.take(n) + z == data + zeros(
                noburst_padding(addr, data.len() as int),
            )
        }),
{
    let rest = behind_head(addr, data);
    let n = rest.len() as int / 8 * 8;
    let tail = rest.skip(n);
    let z = if tail.len() == 0 {
        Seq::empty()
    } else {
        word(tail).take(tail.len() as int + 1)
    };
    let all = word(data).take(head_len(addr)) + rest.take(n) + z;
    assert(all.len() == data.len() + noburst_padding(addr, data.len() as int));
    assert(all =~= data + zeros(noburst_padding(addr, data.len() as int)));
}

/// The first burst packet can be told from the others.
pub(crate) proof fn lemma_flits_split(bytes: Seq<u8>)
    requires
        bytes.len() >= 16,
    ensures
        flits(bytes) == seq![burst_packet(16 < bytes.len(), bytes)] + flits(bytes.skip(16)),
{
    let all = flits(bytes);
    let rest = flits(bytes.skip(16));
    let one = seq![burst_packet(16 < bytes.len(), bytes)];
    assert forall|k: int| 0 <= k < all.len() implies all[k] == (one + rest)[k] by {
        if k == 0 {
            assert(bytes.skip(0) =~= bytes);
        } else {
            assert(bytes.skip(16).skip(16 * (k - 1)) =~= bytes.skip(16 * k));
        }
    }
    assert(all =~= one + rest);
}

/// A burst packet carries its data ahead of what the packets behind it carry.
proof fn lemma_carries_data(
    burst: Option<(u8, bool)>,
    wire: Seq<u8>,
    rest: Seq<Seq<u8>>,
    addr: int,
    data: Seq<u8>,
    more: Seq<u8>,
    arq: bool,
)
    requires
        wire.len() == 18,
        decodable(burst, wire),
        decode(burst, wire) == Some(Packet::Burst(data)),
        carries(burst_after(burst, wire), rest, addr + data.len(), more, arq),
    ensures
        carries(burst, seq![wire] + rest, addr, data.reverse() + more, arq),
{
    let all = seq![wire] + rest;
    let bytes = data.reverse() + more;
    assert(all.drop_first() =~= rest);
    assert(bytes.skip(data.len() as int) =~= more);
    assert(data.reverse() =~= bytes.take(data.len() as int));
}

/// The packet that starts a burst carries nothing but the address.
proof fn lemma_carries_start(
    wire: Seq<u8>,
    rest: Seq<Seq<u8>>,
    addr: int,
    bytes: Seq<u8>,
    arq: bool,
)
    requires
        wire.len() == 18,
        decodable(None, wire),
        burst_after(None, wire) is Some,
        decode(None, wire) matches Some(Packet::Normal(src, mode, a, _)) && src == host_mod()
            && mode == Mode::WritePosted && a == addr,
        carries(burst_after(None, wire), rest, addr, bytes, arq),
    ensures
        carries(None, seq![wire] + rest, addr, bytes, arq),
{
    assert((seq![wire] + rest).drop_first() =~= rest);
}

/// Burst packets carry all of their bytes.
proof fn lemma_carries_flits(first: bool, addr: int, bytes: Seq<u8>, arq: bool)
    requires
        bytes.len() > 0,
        bytes.len() % 16 == 0,
    ensures
        carries(Some((0xFF, first)), flits(bytes), addr, bytes, arq),
    decreases bytes.len(),
{
    let burst = Some((0xFFu8, first));
    let not_last = 16 < bytes.len();
    let wire = burst_packet(not_last, bytes);
    let rest = bytes.skip(16);
    law_decode_burst_packet(0xFF, first, not_last, bytes, Seq::empty());
    assert(wire + Seq::<u8>::empty() =~= wire);
    lemma_flits_split(bytes);
    if let Some(Packet::Burst(data)) = decode(burst, wire) {
        assert(data.reverse() =~= bytes.take(16));
        assert(data.len() == data.reverse().len());
        if not_last {
            lemma_carries_flits(false, addr + 16, rest, arq);
        } else {
            assert(flits(rest) =~= Seq::empty());
            assert(carries(None, flits(rest), addr + 16, rest, arq));
        }
        lemma_carries_data(burst, wire, flits(rest), addr, data, rest, arq);
        assert(data.reverse() + rest =~= bytes);
    }
}

/// A burst carries all of its bytes.
proof fn lemma_carries_run(target: FPGAModule, addr: int, bytes: Seq<u8>, arq: bool)
    requires
        0 <= addr <= u32::MAX,
        bytes.len() > 0,
        bytes.len() % 16 == 0,
    ensures
        carries(None, burst_run(target, addr, bytes, Mode::WritePosted), addr, bytes, arq),
{
    reveal(burst_run);
    let count = le_bytes((bytes.len() / 16) as u64);
    let wire = packet(target, true, 0xFF, addr as u32, count, Mode::WritePosted);
    law_decode_packet(target, true, 0xFF, addr as u32, count, Mode::WritePosted, Seq::empty());
    assert(wire + Seq::<u8>::empty() =~= wire);
    lemma_carries_flits(true, addr, bytes, arq);
    lemma_carries_start(wire, flits(bytes), addr, bytes, arq);
}

/// Bursts carry all of their bytes.
proof fn lemma_carries_runs(target: FPGAModule, addr: int, data: Seq<u8>, arq: bool)
    requires
        0 <= addr,
        addr + data.len() as int / 16 * 16 <= u32::MAX,
    ensures
        carries(
            None,
            burst_runs(target, addr, data),
            addr,
            data.take(data.len() as int / 16 * 16),
            arq,
        ),
    decreases data.len(),
{
    if data.len() >= 16 {
        let n = burst_len(data.len() as int);
        let rest = data.skip(n);
        let m = rest.len() as int / 16 * 16;
        assert(n % 16 == 0);
        assert(n + m == data.len() as int / 16 * 16);
        lemma_carries_run(target, addr, data.take(n), arq);
        lemma_carries_runs(target, addr + n, rest, arq);
        lemma_carries_concat(
            None,
            burst_run(target, addr, data.take(n), Mode::WritePosted),
            burst_runs(target, addr + n, rest),
            addr,
            data.take(n),
            rest.take(m),
            arq,
        );
        assert(data.take(n) + rest.take(m) =~= data.take(n + m));
    }
}

/// A write with bursts carries the data, with at most a few zeros behind it, to the given address.
pub proof fn law_write_burst(target: FPGAModule, addr: u32, data: Seq<u8>)
    requires
        burst_ok(addr as int, data.len() as int),
    ensures
        ({
            let n = data.len() as int / 16 * 16;
            carries(
                None,
                burst_packets(target, addr as int, data),
                addr as int,
                data + zeros(noburst_padding(addr + n, data.len() - n)),
                false,
            )
        }),
{
    let n = data.len() as int / 16 * 16;
    let rest = data.skip(n);
    let z = zeros(noburst_padding(addr + n, data.len() - n));
    lemma_carries_runs(target, addr as int, data, false);
    law_write_noburst(target, (addr + n) as u32, rest, false);
    lemma_carries_concat(
        None,
        burst_runs(target, addr as int, data),
        noburst_packets(target, addr + n, rest, false),
        addr as int,
        data.take(n),
        rest + z,
        false,
    );
    assert(data.take(n) + (rest + z) =~= data + z);
}

/// A burst begins with a packet that tells the number of the burst packets which follow it, and all
/// of these but the last one are marked as such.
pub proof fn law_burst_run(target: FPGAModule, addr: int, bytes: Seq<u8>, mode: Mode)
    requires
        bytes.len() % 16 == 0,
        bytes.len() <= u64::MAX,
    ensures
        ({
            let run = burst_run(target, addr, bytes, mode);
            let count = bytes.len() / 16;
            &&& run.len() == 1 + count
            &&& run[0][0] == 2
            &&& run[0].subrange(10, 18).reverse() == le_bytes(count as u64)
            &&& forall|k: int|
                1 <= k < run.len() ==> (#[trigger] run[k][0] == if k < count {
                    2u8
                } else {
                    0u8
                })
        }),
{
    reveal(burst_run);
    let run = burst_run(target, addr, bytes, mode);
    let count = bytes.len() / 16;
    assert(run[0].subrange(10, 18).reverse() =~= le_bytes(count as u64));
    assert forall|k: int| 1 <= k < run.len() implies (#[trigger] run[k][0] == if k < count {
        2u8
    } else {
        0u8
    }) by {
        assert(run[k] == flits(bytes)[k - 1]);
    }
}

/// Receiving packets of which the first one is taken apart.
pub(crate) proof fn lemma_received_first(burst: Option<(u8, bool)>, wire: Seq<u8>, more: Seq<u8>)
    requires
        wire.len() == 18,
        decodable(burst, wire),
        decode(burst, wire) is Some,
    ensures
        received(burst, wire + more) == received(
            burst_after(burst, wire),
            more,
        ).prepend(payload(decode(burst, wire)->0, burst_after(burst, wire))),
{
    lemma_first_packet(burst, wire, more);
    assert((wire + more).skip(18) =~= more);
}

/// The host receives what posted writes carry.
proof fn lemma_received_carried(
    burst: Option<(u8, bool)>,
    packets: Seq<Seq<u8>>,
    addr: int,
    bytes: Seq<u8>,
)
    requires
        carries(burst, packets, addr, bytes, false),
    ensures
        received(burst, packets.flatten()) == (Received { burst: None, out: Ok(bytes) }),
    decreases packets.len(),
{
    if packets.len() == 0 {
        assert(bytes =~= Seq::empty());
    } else {
        let wire = packets[0];
        let after = burst_after(burst, wire);
        let rest = packets.drop_first();
        assert(packets.flatten() =~= wire + rest.flatten());
        lemma_received_first(burst, wire, rest.flatten());
        match decode(burst, wire) {
            None => {},
            Some(Packet::Normal(_, _, _, data)) => {
                if after is Some {
                    lemma_received_carried(after, rest, addr, bytes);
                    assert(Seq::<u8>::empty() + bytes =~= bytes);
                } else {
                    let n = data.len() as int;
                    lemma_received_carried(after, rest, addr + n, bytes.skip(n));
                    assert(data.reverse() + bytes.skip(n) =~= bytes);
                }
            },
            Some(Packet::Burst(data)) => {
                let n = data.len() as int;
                lemma_received_carried(after, rest, addr + n, bytes.skip(n));
                assert(data.reverse() + bytes.skip(n) =~= bytes);
            },
        }
    }
}

/// A host that receives what another host wrote without a burst and without asking for an
/// acknowledgement gets the data, with a few zeros behind it.
pub proof fn law_receive_noburst(target: FPGAModule, addr: u32, data: Seq<u8>)
    requires
        noburst_ok(addr as int, data.len() as int),
    ensures
        received(None, noburst_packets(target, addr as int, data, false).flatten()) == (Received {
            burst: None,
            out: Ok(data + zeros(noburst_padding(addr as int, data.len() as int))),
        }),
{
    law_write_noburst(target, addr, data, false);
    lemma_received_carried(
        None,
        noburst_packets(target, addr as int, data, false),
        addr as int,
        data + zeros(noburst_padding(addr as int, data.len() as int)),
    );
}

/// A host that receives what another host wrote with bursts gets the data, with at most a few zeros
/// behind it.
pub proof fn law_receive_burst(target: FPGAModule, addr: u32, data: Seq<u8>)
    requires
        burst_ok(addr as int, data.len() as int),
    ensures
        ({
            let n = data.len() as int / 16 * 16;
            received(None, burst_packets(target, addr as int, data).flatten()) == (Received {
                burst: None,
                out: Ok(data + zeros(noburst_padding(addr + n, data.len() - n))),
            })
        }),
{
    let n = data.len() as int / 16 * 16;
    law_write_burst(target, addr, data);
    lemma_received_carried(
        None,
        burst_packets(target, addr as int, data),
        addr as int,
        data + zeros(noburst_padding(addr + n, data.len() - n)),
    );
}

/// A host that receives a message which another host sent gets the header and the data, filled up
/// with zeros.
pub proof fn law_receive_message(version: u8, target: FPGAModule, ep: u16, data: Seq<u8>)
    requires
        data.len() <= MAX_SEND_BURST_LEN,
    ensures
        received(None, send_packets(version, target, ep, data).flatten()) == (Received {
            burst: None,
            out: Ok(message_header(version, data.len() as int) + padded(data)),
        }),
{
    reveal(burst_run);
    let bytes = message_header(version, data.len() as int) + padded(data);
    let count = le_bytes((bytes.len() / 16) as u64);
    let wire = packet(target, true, 0xFF, ep as u32, count, Mode::TCUMsg);
    let packets = send_packets(version, target, ep, data);
    assert(packets.drop_first() =~= flits(bytes));
    assert(packets.flatten() =~= wire + flits(bytes).flatten());
    law_decode_packet(target, true, 0xFF, ep as u32, count, Mode::TCUMsg, Seq::empty());
    assert(wire + Seq::<u8>::empty() =~= wire);
    lemma_received_first(None, wire, flits(bytes).flatten());
    lemma_carries_flits(true, 0, bytes, false);
    lemma_received_carried(Some((0xFF, true)), flits(bytes), 0, bytes);
    assert(Seq::<u8>::empty() + bytes =~= bytes);
}

/// Packets may be received in one datagram or in two: as long as the first part is received without
/// an error, the result is the same.
pub proof fn law_receive_split(burst: Option<(u8, bool)>, first: Seq<u8>, second: Seq<u8>)
    requires
        first.len() % 18 == 0,
        received(burst, first).out is Ok,
    ensures
        received(burst, first + second) == received(
            received(burst, first).burst,
            second,
        ).prepend(received(burst, first).out->Ok_0),
    decreases first.len(),
{
    let all = first + second;
    if first.len() == 0 {
        let got = received(burst, second);
        assert(all =~= second);
        if let Ok(bytes) = got.out {
            assert(Seq::<u8>::empty() + bytes =~= bytes);
        }
    } else {
        let wire = first.take(18);
        let rest = first.skip(18);
        assert(first =~= wire + rest);
        assert(all =~= wire + (rest + second));
        lemma_first_packet(burst, wire, rest);
        lemma_received_first(burst, wire, rest);
        lemma_received_first(burst, wire, rest + second);
        let after = burst_after(burst, wire);
        let own = payload(decode(burst, wire)->0, after);
        law_receive_split(after, rest, second);
        let more = received(received(after, rest).burst, second);
        if let Ok(bytes) = more.out {
            assert(own + (received(after, rest).out->Ok_0 + bytes) =~= own + received(
                after,
                rest,
            ).out->Ok_0 + bytes);
        }
    }
}

/// What the host gets if it receives the datagrams one by one.
pub open spec fn received_all(burst: Option<(u8, bool)>, datagrams: Seq<Seq<u8>>) -> Received
    decreases datagrams.len(),
{
    if datagrams.len() == 0 {
        Received { burst, out: Ok(Seq::empty()) }
    } else {
        let first = received(burst, datagrams[0]);
        match first.out {
            Ok(bytes) => received_all(first.burst, datagrams.drop_first()).prepend(bytes),
            Err(_) => first,
        }
    }
}

/// If packets can be received without an error in one go, they can be received in any number of
/// datagrams with the same result.
pub proof fn law_receive_datagrams(burst: Option<(u8, bool)>, datagrams: Seq<Seq<u8>>)
    requires
        forall|i: int| 0 <= i < datagrams.len() ==> #[trigger] datagrams[i].len() % 18 == 0,
        received(burst, datagrams.flatten()).out is Ok,
    ensures
        received_all(burst, datagrams) == received(burst, datagrams.flatten()),
    decreases datagrams.len(),
{
    if datagrams.len() > 0 {
        let first = datagrams[0];
        let rest = datagrams.drop_first();
        assert(datagrams.flatten() =~= first + rest.flatten());
        lemma_received_prefix(burst, first, rest.flatten());
        law_receive_split(burst, first, rest.flatten());
        law_receive_datagrams(received(burst, first).burst, rest);
    }
}

/// If packets are received without an error, so is the first part of them.
proof fn lemma_received_prefix(burst: Option<(u8, bool)>, first: Seq<u8>, second: Seq<u8>)
    requires
        first.len() % 18 == 0,
        received(burst, first + second).out is Ok,
    ensures
        received(burst, first).out is Ok,
    decreases first.len(),
{
    if first.len() > 0 {
        let wire = first.take(18);
        let rest = first.skip(18);
        assert(first =~= wire + rest);
        assert(first + second =~= wire + (rest + second));
        lemma_first_packet(burst, wire, rest);
        lemma_first_packet(burst, wire, rest + second);
        assert((wire + (rest + second)).skip(18) =~= rest + second);
        lemma_received_prefix(burst_after(burst, wire), rest, second);
    }
}

/// What carries bytes consists of packets of the right length.
proof fn lemma_carries_packets(
    burst: Option<(u8, bool)>,
    packets: Seq<Seq<u8>>,
    addr: int,
    bytes: Seq<u8>,
    arq: bool,
)
    requires
        carries(burst, packets, addr, bytes, arq),
    ensures
        all_packets(packets),
    decreases packets.len(),
{
    if packets.len() > 0 {
        let wire = packets[0];
        let after = burst_after(burst, wire);
        let rest = packets.drop_first();
        match decode(burst, wire) {
            None => {},
            Some(Packet::Normal(_, _, _, data)) => {
                if after is Some {
                    lemma_carries_packets(after, rest, addr, bytes, arq);
                } else {
                    let n = data.len() as int;
                    lemma_carries_packets(after, rest, addr + n, bytes.skip(n), arq);
                }
            },
            Some(Packet::Burst(data)) => {
                let n = data.len() as int;
                lemma_carries_packets(after, rest, addr + n, bytes.skip(n), arq);
            },
        }
        assert forall|i: int| 0 <= i < packets.len() implies #[trigger] packets[i].len() == 18 by {
            if i > 0 {
                assert(rest[i - 1] == packets[i]);
            }
        }
    }
}

/// The datagrams of a transmission can be received one by one.
proof fn lemma_transmission_received(packets: Seq<Seq<u8>>)
    requires
        all_packets(packets),
        received(None, packets.flatten()).out is Ok,
    ensures
        received_all(None, datagrams(Seq::empty(), packets)) == received(None, packets.flatten()),
{
    law_datagrams(Seq::empty(), packets);
    assert(Seq::<u8>::empty() + packets.flatten() =~= packets.flatten());
    law_receive_datagrams(None, datagrams(Seq::empty(), packets));
}

/// A host that receives the datagrams of a write without a burst one by one gets the data, with a
/// few zeros behind it.
pub proof fn law_noburst_datagrams(target: FPGAModule, addr: u32, data: Seq<u8>)
    requires
        noburst_ok(addr as int, data.len() as int),
    ensures
        received_all(
            None,
            datagrams(Seq::empty(), noburst_packets(target, addr as int, data, false)),
        ) == (Received {
            burst: None,
            out: Ok(data + zeros(noburst_padding(addr as int, data.len() as int))),
        }),
{
    law_write_noburst(target, addr, data, false);
    lemma_carries_packets(
        None,
        noburst_packets(target, addr as int, data, false),
        addr as int,
        data + zeros(noburst_padding(addr as int, data.len() as int)),
        false,
    );
    law_receive_noburst(target, addr, data);
    lemma_transmission_received(noburst_packets(target, addr as int, data, false));
}

/// A host that receives the datagrams of a write with bursts one by one gets the data, with at most
/// a few zeros behind it.
pub proof fn law_burst_datagrams(target: FPGAModule, addr: u32, data: Seq<u8>)
    requires
        burst_ok(addr as int, data.len() as int),
    ensures
        ({
            let n = data.len() as int / 16 * 16;
            received_all(
                None,
                datagrams(Seq::empty(), burst_packets(target, addr as int, data)),
            ) == (Received {
                burst: None,
                out: Ok(data + zeros(noburst_padding(addr + n, data.len() - n))),
            })
        }),
{
    let n = data.len() as int / 16 * 16;
    law_write_burst(target, addr, data);
    lemma_carries_packets(
        None,
        burst_packets(target, addr as int, data),
        addr as int,
        data + zeros(noburst_padding(addr + n, data.len() - n)),
        false,
    );
    law_receive_burst(target, addr, data);
    lemma_transmission_received(burst_packets(target, addr as int, data));
}

/// A host that receives the datagrams of a message one by one gets the header and the data, filled
/// up with zeros.
pub proof fn law_message_datagrams(version: u8, target: FPGAModule, ep: u16, data: Seq<u8>)
    requires
        data.len() <= MAX_SEND_BURST_LEN,
    ensures
        received_all(
            None,
            datagrams(Seq::empty(), send_packets(version, target, ep, data)),
        ) == (Received {
            burst: None,
            out: Ok(message_header(version, data.len() as int) + padded(data)),
        }),
{
    let bytes = message_header(version, data.len() as int) + padded(data);
    lemma_run_packets(target, ep as int, bytes, Mode::TCUMsg);
    law_receive_message(version, target, ep, data);
    lemma_transmission_received(send_packets(version, target, ep, data));
}

/// A burst consists of packets of the right length.
proof fn lemma_run_packets(target: FPGAModule, addr: int, bytes: Seq<u8>, mode: Mode)
    ensures
        all_packets(burst_run(target, addr, bytes, mode)),
{
    reveal(burst_run);
    let run = burst_run(target, addr, bytes, mode);
    assert forall|i: int| 0 <= i < run.len() implies #[trigger] run[i].len() == 18 by {
        if i > 0 {
            assert(run[i] == flits(bytes)[i - 1]);
        }
    }
}

} // verus!
