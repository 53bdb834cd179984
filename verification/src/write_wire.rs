//! What writes and messages look like on the wire: which packets there are, and what stands in each of
//! their bytes.
use vstd::prelude::*;

use crate::laws::{law_le_bytes, law_receive_message};
use crate::packet::{le_bytes, packet, FPGAModule, Mode, ETH_MOD_ID};
use crate::receive::received;
use crate::wire::{
    address, data_word, from_host, law_burst_packet_wire, law_le_word, law_mode_numbers,
    law_packet_wire,
};
use crate::write::{
    behind_head, burst_len, burst_ok, burst_packets, burst_run, burst_runs, flits, head_len,
    head_packets, header_word, lemma_selected, message_header, noburst_amount, noburst_ok, noburst_packets,
    padded, selected, send_packets, tail_packets, word, word_packets, write_mode, MAX_SEND_BURST_LEN,
    RESET_ADDR,
};

verus! {

/// When data can be written without a burst: an unaligned address needs data, and the aligned address
/// behind the last packet that is filled has to be one.
pub proof fn law_noburst_possible(addr: u32, len: int)
    requires
        0 <= len,
    ensures
        noburst_ok(addr as int, len) <==> {
            &&& addr % 8 == 0 || len > 0
            &&& addr % 8 == 0 || addr - addr % 8 + 8 <= 0xFFFF_FFFF
            &&& (addr + len) / 8 * 8 <= 0xFFFF_FFFF
        },
{
}

/// When data can be written in bursts: sixteen bytes or more need an address that is a multiple of
/// sixteen, and the aligned address behind the last packet that is filled has to be one.
pub proof fn law_burst_possible(addr: u32, len: int)
    requires
        0 <= len,
    ensures
        burst_ok(addr as int, len) <==> {
            &&& len >= 16 ==> addr % 16 == 0
            &&& addr + len / 16 * 16 <= 0xFFFF_FFFF
            &&& noburst_ok(addr + len / 16 * 16, len % 16)
        },
{
}

/// A write without a burst reports the number of bytes of the data, but at least those up to the next
/// aligned address.
pub proof fn law_noburst_reports(addr: int, len: int)
    requires
        0 <= addr,
        0 <= len,
    ensures
        noburst_amount(addr, len) >= len,
        addr % 8 == 0 || len >= 8 - addr % 8 ==> noburst_amount(addr, len) == len,
        addr % 8 != 0 && len <= 8 - addr % 8 ==> noburst_amount(addr, len) == 8 - addr % 8,
{
}

/// The first eight bytes, with zeros in place of those that are missing.
pub proof fn law_word(bytes: Seq<u8>)
    ensures
        word(bytes).len() == 8,
        bytes.len() >= 8 ==> word(bytes) == bytes.take(8),
        bytes.len() < 8 ==> word(bytes).take(bytes.len() as int) == bytes,
        forall|i: int| bytes.len() <= i < 8 ==> #[trigger] word(bytes)[i] == 0,
{
    if bytes.len() >= 8 {
        assert(word(bytes) =~= bytes.take(8));
    } else {
        assert(word(bytes).take(bytes.len() as int) =~= bytes);
    }
}

/// What stands in packet `i` of a write without a burst.
spec fn noburst_at(
    p: Seq<u8>,
    target: FPGAModule,
    addr: u32,
    data: Seq<u8>,
    nocarq: bool,
    i: int,
) -> bool {
    let end = addr + data.len();
    let a = if i == 0 {
        addr as int
    } else {
        addr - addr % 8 + 8 * i
    };
    let short = a % 8 == 0 && end - a < 8;
    &&& from_host(
        p,
        target,
        if nocarq && !short {
            12
        } else {
            2
        },
    )
    &&& p[0] == 0
    &&& p[1] == 0xFFu8 >> if short {
        (7 - (end - a)) as u8
    } else {
        (a % 8) as u8
    }
    &&& address(p) == a
    &&& p.subrange(10, 18).reverse() == Seq::new(
        8,
        |j: int|
            if a + j < end {
                data[a + j - addr]
            } else {
                0u8
            },
    )
}

/// What stands in a packet for address `a` that selects `n` bytes.
proof fn lemma_noburst_packet(
    target: FPGAModule,
    n: int,
    addr: int,
    a: int,
    data: Seq<u8>,
    bytes: Seq<u8>,
    mode: Mode,
)
    requires
        0 < n <= 8,
        0 <= addr <= a <= u32::MAX,
        bytes.len() >= 8,
        forall|j: int|
            0 <= j < 8 ==> #[trigger] bytes[j] == if a + j < addr + data.len() {
                data[a + j - addr]
            } else {
                0u8
            },
    ensures
        ({
            let p = packet(target, false, selected(n), a as u32, bytes, mode);
            &&& from_host(p, target, mode.number() as int)
            &&& p[0] == 0
            &&& p[1] == 0xFFu8 >> (8 - n) as u8
            &&& address(p) == a
            &&& p.subrange(10, 18).reverse() == Seq::new(
                8,
                |j: int|
                    if a + j < addr + data.len() {
                        data[a + j - addr]
                    } else {
                        0u8
                    },
            )
        }),
{
    let p = packet(target, false, selected(n), a as u32, bytes, mode);
    law_packet_wire(target, false, selected(n), a as u32, bytes, mode);
    lemma_selected((8 - n) as u8);
    assert forall|j: int| 0 <= j < 8 implies #[trigger] p.subrange(10, 18).reverse()[j] == bytes[j] by {
        assert(bytes[j] == p[17 - j]);
    }
    assert(p.subrange(10, 18).reverse() =~= Seq::new(
        8,
        |j: int|
            if a + j < addr + data.len() {
                data[a + j - addr]
            } else {
                0u8
            },
    ));
}

/// How many packets there are in a write without a burst.
proof fn lemma_noburst_count(target: FPGAModule, addr: u32, data: Seq<u8>, nocarq: bool)
    requires
        noburst_ok(addr as int, data.len() as int),
    ensures
        noburst_packets(target, addr as int, data, nocarq).len() == (addr % 8 + data.len() + 7) / 8,
{
}

/// What stands in the packet for an unaligned address.
proof fn lemma_noburst_head(target: FPGAModule, addr: u32, data: Seq<u8>, nocarq: bool)
    requires
        noburst_ok(addr as int, data.len() as int),
        addr % 8 != 0,
    ensures
        noburst_at(
            head_packets(target, addr as int, data, write_mode(nocarq))[0],
            target,
            addr,
            data,
            nocarq,
            0,
        ),
{
    let start = addr as int;
    law_mode_numbers(0);
    lemma_noburst_packet(
        target,
        head_len(start),
        start,
        start,
        data,
        word(data),
        write_mode(nocarq),
    );
}

/// What stands in the packets with eight bytes each.
proof fn lemma_noburst_word(target: FPGAModule, addr: u32, data: Seq<u8>, nocarq: bool, k: int)
    requires
        noburst_ok(addr as int, data.len() as int),
        0 <= k < behind_head(addr as int, data).len() / 8,
    ensures
        ({
            let start = addr as int;
            let head = head_len(start);
            noburst_at(
                word_packets(
                    target,
                    start + head,
                    behind_head(start, data),
                    write_mode(nocarq),
                )[k],
                target,
                addr,
                data,
                nocarq,
                if head == 0 {
                    k
                } else {
                    k + 1
                },
            )
        }),
{
    let start = addr as int;
    let aligned = start + head_len(start);
    let rest = behind_head(start, data);
    law_mode_numbers(0);
    assert forall|j: int| 0 <= j < 8 implies #[trigger] rest.skip(8 * k)[j] == data[aligned + 8 * k
        + j - start] by {}
    lemma_noburst_packet(
        target,
        8,
        start,
        aligned + 8 * k,
        data,
        rest.skip(8 * k),
        write_mode(nocarq),
    );
}

/// What stands in the packet with the last bytes.
proof fn lemma_noburst_tail(target: FPGAModule, addr: u32, data: Seq<u8>, nocarq: bool)
    requires
        noburst_ok(addr as int, data.len() as int),
        behind_head(addr as int, data).len() % 8 != 0,
    ensures
        ({
            let start = addr as int;
            let head = head_len(start);
            let rest = behind_head(start, data);
            let k = rest.len() as int / 8;
            noburst_at(
                tail_packets(target, start + head, rest)[0],
                target,
                addr,
                data,
                nocarq,
                if head == 0 {
                    k
                } else {
                    k + 1
                },
            )
        }),
{
    let start = addr as int;
    let rest = behind_head(start, data);
    let n = rest.len() as int / 8 * 8;
    let tail = rest.skip(n);
    law_mode_numbers(0);
    lemma_noburst_packet(
        target,
        tail.len() as int + 1,
        start,
        start + head_len(start) + n,
        data,
        word(tail),
        Mode::WritePosted,
    );
}

/// The packets of a write without a burst.
///
/// Every packet leads to the target. The first one is for `addr`, and the others are for the aligned
/// addresses behind it. Byte `j` of the data of a packet for address `a` is what belongs to address
/// `a + j`, or zero behind the end of the data. A packet for an unaligned address selects the bytes
/// up to the next aligned one. An aligned packet selects all eight bytes, or one more than there is
/// data if these are fewer; such a packet never asks for an acknowledgement.
pub proof fn law_noburst_wire(target: FPGAModule, addr: u32, data: Seq<u8>, nocarq: bool)
    requires
        noburst_ok(addr as int, data.len() as int),
    ensures
        ({
            let packets = noburst_packets(target, addr as int, data, nocarq);
            let end = addr + data.len();
            &&& packets.len() == (addr % 8 + data.len() + 7) / 8
            &&& forall|i: int|
                0 <= i < packets.len() ==> {
                    let p = #[trigger] packets[i];
                    let a = if i == 0 {
                        addr as int
                    } else {
                        addr - addr % 8 + 8 * i
                    };
                    let short = a % 8 == 0 && end - a < 8;
                    &&& from_host(
                        p,
                        target,
                        if nocarq && !short {
                            12
                        } else {
                            2
                        },
                    )
                    &&& p[0] == 0
                    &&& p[1] == 0xFFu8 >> if short {
                        (7 - (end - a)) as u8
                    } else {
                        (a % 8) as u8
                    }
                    &&& address(p) == a
                    &&& p.subrange(10, 18).reverse() == Seq::new(
                        8,
                        |j: int|
                            if a + j < end {
                                data[a + j - addr]
                            } else {
                                0u8
                            },
                    )
                }
        }),
{
    let start = addr as int;
    let packets = noburst_packets(target, start, data, nocarq);
    let first = head_packets(target, start, data, write_mode(nocarq));
    let rest = behind_head(start, data);
    let n = rest.len() as int / 8;
    lemma_noburst_count(target, addr, data, nocarq);
    assert forall|i: int| 0 <= i < packets.len() implies noburst_at(
        #[trigger] packets[i],
        target,
        addr,
        data,
        nocarq,
        i,
    ) by {
        if i < first.len() {
            lemma_noburst_head(target, addr, data, nocarq);
        } else if i < first.len() + n {
            lemma_noburst_word(target, addr, data, nocarq, i - first.len());
        } else {
            lemma_noburst_tail(target, addr, data, nocarq);
        }
    }
}

/// A burst: the packet that starts it leads to the target and tells how many packets follow. These
/// carry sixteen bytes each, and only the last one has no burst bit.
pub proof fn law_run_wire(target: FPGAModule, addr: int, bytes: Seq<u8>, mode: Mode)
    requires
        0 <= addr <= 0xFFFF_FFFF,
        bytes.len() % 16 == 0,
        bytes.len() <= u64::MAX,
    ensures
        ({
            let run = burst_run(target, addr, bytes, mode);
            &&& run.len() == 1 + bytes.len() / 16
            &&& from_host(run[0], target, mode.number() as int)
            &&& run[0][0] == 2
            &&& run[0][1] == 0xFF
            &&& address(run[0]) == addr
            &&& data_word(run[0]) == bytes.len() / 16
            &&& forall|k: int|
                1 <= k < run.len() ==> {
                    let p = #[trigger] run[k];
                    &&& p.len() == 18
                    &&& p[0] == if k + 1 < run.len() {
                        2u8
                    } else {
                        0u8
                    }
                    &&& p[1] == 0xFF
                    &&& p.subrange(2, 18).reverse() == bytes.subrange(16 * (k - 1), 16 * k)
                }
        }),
{
    reveal(burst_run);
    let run = burst_run(target, addr, bytes, mode);
    let count = (bytes.len() / 16) as u64;
    let word = le_bytes(count);
    law_packet_wire(target, true, 0xFF, addr as u32, word, mode);
    law_le_word(count);
    assert forall|j: int| 0 <= j < 8 implies #[trigger] word[j] == run[0][17 - j] by {}
    assert(data_word(run[0]) == count) by {
        assert(word[0] == run[0][17] && word[1] == run[0][16]);
        assert(word[2] == run[0][15] && word[3] == run[0][14]);
        assert(word[4] == run[0][13] && word[5] == run[0][12]);
        assert(word[6] == run[0][11] && word[7] == run[0][10]);
    }
    assert forall|k: int| 1 <= k < run.len() implies {
        let p = #[trigger] run[k];
        &&& p.len() == 18
        &&& p[0] == if k + 1 < run.len() {
            2u8
        } else {
            0u8
        }
        &&& p[1] == 0xFF
        &&& p.subrange(2, 18).reverse() == bytes.subrange(16 * (k - 1), 16 * k)
    } by {
        let rest = bytes.skip(16 * (k - 1));
        assert(run[k] == flits(bytes)[k - 1]);
        law_burst_packet_wire(16 * k < bytes.len(), rest);
        assert(run[k].subrange(2, 18).reverse() =~= bytes.subrange(16 * (k - 1), 16 * k)) by {
            assert forall|j: int| 0 <= j < 16 implies #[trigger] run[k].subrange(2, 18).reverse()[j]
                == bytes[16 * (k - 1) + j] by {
                assert(rest[j] == run[k][17 - j]);
            }
        }
    }
}

/// What stands in packet `i` of the bursts that write `data`.
spec fn burst_at(p: Seq<u8>, target: FPGAModule, addr: int, data: Seq<u8>, i: int) -> bool {
    let count = data.len() as int / 16;
    let run = i / 2048;
    let flit = 2047 * run + i % 2048 - 1;
    if i % 2048 == 0 {
        &&& from_host(p, target, 2)
        &&& p[0] == 2
        &&& p[1] == 0xFF
        &&& address(p) == addr + 32752 * run
        &&& data_word(p) == if count - 2047 * run < 2047 {
            count - 2047 * run
        } else {
            2047
        }
    } else {
        &&& p.len() == 18
        &&& p[0] == if i % 2048 == 2047 || flit + 1 == count {
            0u8
        } else {
            2u8
        }
        &&& p[1] == 0xFF
        &&& p.subrange(2, 18).reverse() == data.subrange(16 * flit, 16 * flit + 16)
    }
}

/// What stands in the packets of the first burst.
proof fn lemma_first_run(target: FPGAModule, addr: int, data: Seq<u8>, i: int)
    requires
        0 <= addr,
        addr + data.len() as int / 16 * 16 <= u32::MAX,
        data.len() >= 16,
        0 <= i <= burst_len(data.len() as int) / 16,
    ensures
        ({
            let n = burst_len(data.len() as int);
            let run = burst_run(target, addr, data.take(n), Mode::WritePosted);
            burst_at(run[i], target, addr, data, i)
        }),
{
    let n = burst_len(data.len() as int);
    let bytes = data.take(n);
    let run = burst_run(target, addr, bytes, Mode::WritePosted);
    law_mode_numbers(0);
    law_run_wire(target, addr, bytes, Mode::WritePosted);
    if i > 0 {
        assert(bytes.subrange(16 * (i - 1), 16 * i) =~= data.subrange(16 * (i - 1), 16 * i));
        assert(run[i].len() == 18);
    }
}

/// What stands in the packets of the bursts.
proof fn lemma_runs_wire(target: FPGAModule, addr: int, data: Seq<u8>)
    requires
        0 <= addr,
        addr + data.len() as int / 16 * 16 <= u32::MAX,
    ensures
        ({
            let runs = burst_runs(target, addr, data);
            let count = data.len() as int / 16;
            &&& runs.len() == (count + 2046) / 2047 + count
            &&& forall|i: int|
                0 <= i < runs.len() ==> burst_at(#[trigger] runs[i], target, addr, data, i)
        }),
    decreases data.len(),
{
    if data.len() >= 16 {
        let runs = burst_runs(target, addr, data);
        let n = burst_len(data.len() as int);
        let run = burst_run(target, addr, data.take(n), Mode::WritePosted);
        let rest = data.skip(n);
        let more = burst_runs(target, addr + n, rest);
        law_run_wire(target, addr, data.take(n), Mode::WritePosted);
        lemma_runs_wire(target, addr + n, rest);
        assert forall|i: int| 0 <= i < runs.len() implies burst_at(
            #[trigger] runs[i],
            target,
            addr,
            data,
            i,
        ) by {
            if i < run.len() {
                assert(runs[i] == run[i]);
                lemma_first_run(target, addr, data, i);
            } else {
                let k = i - run.len();
                assert(runs[i] == more[k]);
                lemma_later_run(more[k], target, addr, data, k);
            }
        }
    }
}

/// What stands in a packet of a later burst does not depend on the bursts before it.
proof fn lemma_later_run(p: Seq<u8>, target: FPGAModule, addr: int, data: Seq<u8>, k: int)
    requires
        data.len() >= 32752,
        0 <= k < (data.len() as int / 16 - 2047 + 2046) / 2047 + data.len() as int / 16 - 2047,
        burst_at(p, target, addr + 32752, data.skip(32752), k),
    ensures
        burst_at(p, target, addr, data, k + 2048),
{
    let rest = data.skip(32752);
    let flit = 2047 * (k / 2048) + k % 2048 - 1;
    if k % 2048 != 0 {
        assert(rest.subrange(16 * flit, 16 * flit + 16) =~= data.subrange(
            16 * (flit + 2047),
            16 * (flit + 2047) + 16,
        ));
    }
}

/// The packets of a write with bursts.
///
/// As many bytes as fill packets of sixteen go in bursts of at most 2047 such packets, so that a new
/// burst starts at every packet whose index is a multiple of 2048. The packet that starts a burst
/// leads to the target, to the address of the first byte of the burst, and tells how many packets
/// follow. These carry the data in order, and the last one of a burst has no burst bit. What is left
/// is written without a burst, behind the rest.
pub proof fn law_burst_wire(target: FPGAModule, addr: u32, data: Seq<u8>)
    requires
        burst_ok(addr as int, data.len() as int),
    ensures
        ({
            let packets = burst_packets(target, addr as int, data);
            let count = data.len() as int / 16;
            let total = (count + 2046) / 2047 + count;
            &&& total <= packets.len()
            &&& forall|i: int|
                0 <= i < total ==> {
                    let p = #[trigger] packets[i];
                    let run = i / 2048;
                    let flit = 2047 * run + i % 2048 - 1;
                    if i % 2048 == 0 {
                        &&& from_host(p, target, 2)
                        &&& p[0] == 2
                        &&& p[1] == 0xFF
                        &&& address(p) == addr + 32752 * run
                        &&& data_word(p) == if count - 2047 * run < 2047 {
                            count - 2047 * run
                        } else {
                            2047
                        }
                    } else {
                        &&& p.len() == 18
                        &&& p[0] == if i % 2048 == 2047 || flit + 1 == count {
                            0u8
                        } else {
                            2u8
                        }
                        &&& p[1] == 0xFF
                        &&& p.subrange(2, 18).reverse() == data.subrange(16 * flit, 16 * flit + 16)
                    }
                }
            &&& packets.skip(total) == noburst_packets(
                target,
                addr + 16 * count,
                data.skip(16 * count),
                false,
            )
        }),
{
    let packets = burst_packets(target, addr as int, data);
    let runs = burst_runs(target, addr as int, data);
    let count = data.len() as int / 16;
    let rest = noburst_packets(target, addr + 16 * count, data.skip(16 * count), false);
    lemma_runs_wire(target, addr as int, data);
    assert(packets.skip(runs.len() as int) =~= rest);
    assert forall|i: int| 0 <= i < runs.len() implies burst_at(
        #[trigger] packets[i],
        target,
        addr as int,
        data,
        i,
    ) by {
        assert(packets[i] == runs[i]);
    }
}

/// What stands in packet `i` of a message, whose header takes up `head` packets.
spec fn message_at(p: Seq<u8>, data: Seq<u8>, head: int, i: int) -> bool {
    &&& p.len() == 18
    &&& p[0] == if i < head + (data.len() + 15) / 16 {
        2u8
    } else {
        0u8
    }
    &&& p[1] == 0xFF
    &&& i > head ==> p.subrange(2, 18).reverse() == Seq::new(
        16,
        |j: int|
            if 16 * (i - 1 - head) + j < data.len() {
                data[16 * (i - 1 - head) + j]
            } else {
                0u8
            },
    )
}

/// What stands in the packets of a message behind the first one.
proof fn lemma_message_flit(version: u8, target: FPGAModule, ep: u16, data: Seq<u8>, i: int)
    requires
        data.len() <= MAX_SEND_BURST_LEN,
        1 <= i < send_packets(version, target, ep, data).len(),
    ensures
        ({
            let header = message_header(version, data.len() as int);
            let head = header.len() as int / 16;
            message_at(send_packets(version, target, ep, data)[i], data, head, i)
        }),
{
    let header = message_header(version, data.len() as int);
    let packets = send_packets(version, target, ep, data);
    law_run_wire(target, ep as int, header + padded(data), Mode::TCUMsg);
    lemma_message_bytes(header, data);
    if i > header.len() / 16 {
        lemma_message_data(header, data, i);
    }
    assert(packets[i].len() == 18);
}

/// What stands in the packets of a message header.
proof fn lemma_message_head(version: u8, target: FPGAModule, ep: u16, data: Seq<u8>)
    requires
        data.len() <= MAX_SEND_BURST_LEN,
    ensures
        ({
            let packets = send_packets(version, target, ep, data);
            &&& packets.len() >= 2
            &&& packets[1][17] + packets[1][16] * 0x100 + packets[1][15] * 0x1_0000 + packets[1][14]
                * 0x100_0000 == data.len() * 0x8_0000 + (63 * 0x100 + 5) * 0x20 + 8
            &&& packets[1].subrange(10, 14) == Seq::new(4, |j: int| 0xFFu8)
            &&& packets[1].subrange(2, 10) == Seq::new(8, |j: int| 0u8)
            &&& version != 0 ==> packets.len() >= 3 && packets[2].subrange(2, 18) == Seq::new(
                16,
                |j: int| 0u8,
            )
        }),
{
    let len = data.len() as int;
    let header = message_header(version, len);
    let bytes = header + padded(data);
    let packets = send_packets(version, target, ep, data);
    law_run_wire(target, ep as int, bytes, Mode::TCUMsg);
    lemma_header(version, len);
    assert(packets[1].len() == 18);
    assert(bytes.subrange(0, 16) =~= header.subrange(0, 16));
    lemma_first_flit(packets[1], header, len);
    if version != 0 {
        assert(packets[2].len() == 18);
        assert(bytes.subrange(16, 32) =~= header.subrange(16, 32));
        lemma_zero_flit(packets[2], header);
    }
}

/// The packets of a message: a burst that starts with a packet for the endpoint of the target, a
/// header of sixteen bytes, or of thirty-two if the version is not zero, and the data, filled up with
/// fewer than sixteen zeros.
///
/// The header begins with a number that is made of the length of the data, the host and a constant.
/// Then come four bytes with all bits set, and zeros.
pub proof fn law_message_wire(version: u8, target: FPGAModule, ep: u16, data: Seq<u8>)
    requires
        data.len() <= MAX_SEND_BURST_LEN,
    ensures
        ({
            let packets = send_packets(version, target, ep, data);
            let len = data.len() as int;
            let head = if version == 0 {
                1int
            } else {
                2int
            };
            let count = head + (len + 15) / 16;
            &&& packets.len() == 1 + count
            &&& from_host(packets[0], target, 3)
            &&& packets[0][0] == 2
            &&& packets[0][1] == 0xFF
            &&& address(packets[0]) == ep
            &&& data_word(packets[0]) == count
            &&& forall|i: int|
                1 <= i < packets.len() ==> {
                    let p = #[trigger] packets[i];
                    &&& p.len() == 18
                    &&& p[0] == if i < count {
                        2u8
                    } else {
                        0u8
                    }
                    &&& p[1] == 0xFF
                    &&& i > head ==> p.subrange(2, 18).reverse() == Seq::new(
                        16,
                        |j: int|
                            if 16 * (i - 1 - head) + j < len {
                                data[16 * (i - 1 - head) + j]
                            } else {
                                0u8
                            },
                    )
                }
            &&& packets[1][17] + packets[1][16] * 0x100 + packets[1][15] * 0x1_0000 + packets[1][14]
                * 0x100_0000 == len * 0x8_0000 + (63 * 0x100 + 5) * 0x20 + 8
            &&& packets[1].subrange(10, 14) == Seq::new(4, |j: int| 0xFFu8)
            &&& packets[1].subrange(2, 10) == Seq::new(8, |j: int| 0u8)
            &&& head == 2 ==> packets[2].subrange(2, 18) == Seq::new(16, |j: int| 0u8)
        }),
{
    let packets = send_packets(version, target, ep, data);
    let header = message_header(version, data.len() as int);
    let head = header.len() as int / 16;
    law_mode_numbers(0);
    law_run_wire(target, ep as int, header + padded(data), Mode::TCUMsg);
    lemma_header(version, data.len() as int);
    lemma_message_bytes(header, data);
    lemma_message_head(version, target, ep, data);
    assert forall|i: int| 1 <= i < packets.len() implies message_at(
        #[trigger] packets[i],
        data,
        head,
        i,
    ) by {
        lemma_message_flit(version, target, ep, data, i);
    }
}

/// What stands in the packets with the data of a message.
proof fn lemma_message_data(header: Seq<u8>, data: Seq<u8>, i: int)
    requires
        header.len() % 16 == 0,
        header.len() / 16 < i <= (header.len() + padded(data).len()) / 16,
    ensures
        ({
            let head = header.len() as int / 16;
            (header + padded(data)).subrange(16 * (i - 1), 16 * i) == Seq::new(
                16,
                |j: int|
                    if 16 * (i - 1 - head) + j < data.len() {
                        data[16 * (i - 1 - head) + j]
                    } else {
                        0u8
                    },
            )
        }),
{
    let head = header.len() as int / 16;
    assert((header + padded(data)).subrange(16 * (i - 1), 16 * i) =~= Seq::new(
        16,
        |j: int|
            if 16 * (i - 1 - head) + j < data.len() {
                data[16 * (i - 1 - head) + j]
            } else {
                0u8
            },
    ));
}

/// What stands in the first packet of a message header.
proof fn lemma_first_flit(p: Seq<u8>, b: Seq<u8>, len: int)
    requires
        p.len() == 18,
        b.len() >= 16,
        p.subrange(2, 18).reverse() == b.subrange(0, 16),
        b[0] + b[1] * 0x100 + b[2] * 0x1_0000 + b[3] * 0x100_0000 == len * 0x8_0000 + (63 * 0x100
            + 5) * 0x20 + 8,
        forall|i: int| 4 <= i < 8 ==> #[trigger] b[i] == 0xFF,
        forall|i: int| 8 <= i < b.len() ==> #[trigger] b[i] == 0,
    ensures
        p[17] + p[16] * 0x100 + p[15] * 0x1_0000 + p[14] * 0x100_0000 == len * 0x8_0000 + (63
            * 0x100 + 5) * 0x20 + 8,
        p.subrange(10, 14) == Seq::new(4, |j: int| 0xFFu8),
        p.subrange(2, 10) == Seq::new(8, |j: int| 0u8),
{
    assert forall|i: int| 2 <= i < 18 implies #[trigger] p[i] == b[17 - i] by {
        let data = p.subrange(2, 18);
        assert(data.reverse()[17 - i] == data[i - 2]);
        assert(data.reverse()[17 - i] == b.subrange(0, 16)[17 - i]);
    }
    assert(p.subrange(10, 14) =~= Seq::new(4, |j: int| 0xFFu8));
    assert(p.subrange(2, 10) =~= Seq::new(8, |j: int| 0u8));
}

/// What stands in the second packet of a message header.
proof fn lemma_zero_flit(p: Seq<u8>, b: Seq<u8>)
    requires
        p.len() == 18,
        b.len() >= 32,
        p.subrange(2, 18).reverse() == b.subrange(16, 32),
        forall|i: int| 8 <= i < b.len() ==> #[trigger] b[i] == 0,
    ensures
        p.subrange(2, 18) == Seq::new(16, |j: int| 0u8),
{
    assert forall|i: int| 2 <= i < 18 implies #[trigger] p[i] == 0 by {
        let data = p.subrange(2, 18);
        assert(data.reverse()[17 - i] == data[i - 2]);
        assert(data.reverse()[17 - i] == b.subrange(16, 32)[17 - i]);
    }
    assert(p.subrange(2, 18) =~= Seq::new(16, |j: int| 0u8));
}

/// What stands in the header of a message.
proof fn lemma_header(version: u8, len: int)
    requires
        0 <= len <= MAX_SEND_BURST_LEN,
    ensures
        ({
            let b = message_header(version, len);
            &&& b.len() == if version == 0 {
                16int
            } else {
                32int
            }
            &&& b[0] + b[1] * 0x100 + b[2] * 0x1_0000 + b[3] * 0x100_0000 == len * 0x8_0000 + (63
                * 0x100 + 5) * 0x20 + 8
            &&& forall|i: int| 4 <= i < 8 ==> #[trigger] b[i] == 0xFF
            &&& forall|i: int| 8 <= i < b.len() ==> #[trigger] b[i] == 0
        }),
{
    let word = header_word(len) as u64;
    law_le_bytes(word);
    let b = message_header(version, len);
    let w = le_bytes(word);
    assert(b[0] == w[0] && b[1] == w[1] && b[2] == w[2] && b[3] == w[3]);
}

/// What a host receives of a message: the header, whose length depends on the version, the data, and
/// fewer than sixteen zeros, so that the length is a multiple of sixteen.
pub proof fn law_message_received(version: u8, target: FPGAModule, ep: u16, data: Seq<u8>)
    requires
        data.len() <= MAX_SEND_BURST_LEN,
    ensures
        ({
            let head = if version == 0 {
                16int
            } else {
                32int
            };
            let end = head + data.len();
            let got = received(None, send_packets(version, target, ep, data).flatten());
            &&& got.burst is None
            &&& got.out matches Ok(bytes) && {
                &&& end <= bytes.len() < end + 16
                &&& bytes.len() % 16 == 0
                &&& bytes.subrange(head, end) == data
                &&& forall|i: int| end <= i < bytes.len() ==> #[trigger] bytes[i] == 0
                &&& bytes[0] + bytes[1] * 0x100 + bytes[2] * 0x1_0000 + bytes[3] * 0x100_0000
                    == data.len() * 0x8_0000 + (63 * 0x100 + 5) * 0x20 + 8
                &&& forall|i: int| 4 <= i < 8 ==> #[trigger] bytes[i] == 0xFF
                &&& forall|i: int| 8 <= i < head ==> #[trigger] bytes[i] == 0
            }
        }),
{
    law_receive_message(version, target, ep, data);
    lemma_header(version, data.len() as int);
    lemma_message_bytes(message_header(version, data.len() as int), data);
}

/// The bytes of a message are those of its header, those of the data, and zeros.
proof fn lemma_message_bytes(header: Seq<u8>, data: Seq<u8>)
    requires
        header.len() % 16 == 0,
    ensures
        ({
            let bytes = header + padded(data);
            let end = header.len() + data.len();
            &&& end <= bytes.len() < end + 16
            &&& bytes.len() % 16 == 0
            &&& bytes.subrange(header.len() as int, end as int) == data
            &&& forall|i: int| end <= i < bytes.len() ==> #[trigger] bytes[i] == 0
            &&& forall|i: int| 0 <= i < header.len() ==> #[trigger] bytes[i] == header[i]
        }),
{
    let bytes = header + padded(data);
    let end = header.len() + data.len();
    assert(bytes.subrange(header.len() as int, end as int) =~= data);
}

/// The packet that resets a chip writes a one to address 0xF0003028 of module 5 of the chip.
pub proof fn law_reset_wire(chip_id: u8)
    ensures
        ({
            let target = FPGAModule { chip_id, mod_id: ETH_MOD_ID };
            let packets = noburst_packets(
                target,
                RESET_ADDR as int,
                seq![1u8, 0, 0, 0, 0, 0, 0, 0],
                false,
            );
            &&& packets.len() == 1
            &&& from_host(packets[0], FPGAModule { chip_id, mod_id: 5 }, 2)
            &&& packets[0][0] == 0
            &&& packets[0][1] == 0xFF
            &&& address(packets[0]) == 0xF000_3028
            &&& data_word(packets[0]) == 1
        }),
{
    let data = seq![1u8, 0, 0, 0, 0, 0, 0, 0];
    let target = FPGAModule { chip_id, mod_id: ETH_MOD_ID };
    law_noburst_wire(target, RESET_ADDR, data, false);
    let p = noburst_packets(target, RESET_ADDR as int, data, false)[0];
    assert(0xFFu8 >> 0u8 == 0xFF) by (bit_vector);
    assert forall|j: int| 0 <= j < 8 implies #[trigger] data[j] == p[17 - j] by {
        assert(p.subrange(10, 18).reverse()[j] == data[j]);
    }
    assert(p[17] == data[0] && p[16] == data[1] && p[15] == data[2] && p[14] == data[3]);
    assert(p[13] == data[4] && p[12] == data[5] && p[11] == data[6] && p[10] == data[7]);
}

} // verus!
