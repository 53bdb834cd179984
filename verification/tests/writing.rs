use nocrw::communicator::Communicator;
use nocrw::packet::{encode_packet, encode_packet_burst, FPGAModule, Mode};
use nocrw::transmit::{SendStep, Transmission};
use nocrw::write::{can_write_burst, can_write_noburst};

fn target() -> FPGAModule {
    FPGAModule::new(6, 0x24)
}

fn counting(n: usize) -> Vec<u8> {
    (0..n).map(|i| (i * 7 % 251) as u8).collect()
}

/// Sends everything, and returns the datagrams and the amount.
fn run(comm: &mut Communicator, mut tx: Transmission) -> (Vec<Vec<u8>>, usize) {
    let mut sent = vec![];
    loop {
        match comm.transmit(&mut tx) {
            SendStep::Send(datagram) => {
                sent.push(datagram);
                comm.packets_sent();
            }
            SendStep::Done(amount) => return (sent, amount),
        }
    }
}

fn packets(datagrams: &[Vec<u8>]) -> Vec<Vec<u8>> {
    datagrams
        .concat()
        .chunks(18)
        .map(|pkt| pkt.to_vec())
        .collect()
}

#[test]
fn write_aligned_words() {
    let mut comm = Communicator::new();
    let data = counting(16);
    let tx = comm.write_noburst(target(), 0x1000, &data, false);
    let (sent, amount) = run(&mut comm, tx);
    assert_eq!(amount, 16);
    assert_eq!(sent.len(), 1);
    assert_eq!(
        packets(&sent),
        vec![
            encode_packet(target(), false, 0xFF, 0x1000, &data, Mode::WritePosted).to_vec(),
            encode_packet(target(), false, 0xFF, 0x1008, &data[8..], Mode::WritePosted).to_vec(),
        ]
    );
}

#[test]
fn write_with_head_and_tail() {
    let mut comm = Communicator::new();
    let data = counting(5 + 8 + 3);
    let tx = comm.write_noburst(target(), 0x1003, &data, true);
    let (sent, amount) = run(&mut comm, tx);
    assert_eq!(amount, 16);
    let tail = [data[13], data[14], data[15], 0, 0, 0, 0, 0];
    assert_eq!(
        packets(&sent),
        vec![
            encode_packet(target(), false, 0x1F, 0x1003, &data, Mode::ARQWritePosted).to_vec(),
            encode_packet(target(), false, 0xFF, 0x1008, &data[5..], Mode::ARQWritePosted).to_vec(),
            // the last packet is a plain write and selects one byte more
            encode_packet(target(), false, 0x0F, 0x1010, &tail, Mode::WritePosted).to_vec(),
        ]
    );
}

#[test]
fn write_shorter_than_head() {
    let mut comm = Communicator::new();
    let tx = comm.write_noburst(target(), 0x1003, &[1, 2], false);
    let (sent, amount) = run(&mut comm, tx);
    assert_eq!(amount, 5);
    assert_eq!(
        packets(&sent),
        vec![encode_packet(
            target(),
            false,
            0x1F,
            0x1003,
            &[1, 2, 0, 0, 0, 0, 0, 0],
            Mode::WritePosted
        )
        .to_vec()]
    );
}

#[test]
fn write_nothing() {
    let mut comm = Communicator::new();
    let tx = comm.write_noburst(target(), 0x1000, &[], false);
    let (sent, amount) = run(&mut comm, tx);
    assert_eq!(amount, 0);
    assert!(sent.is_empty());
}

#[test]
fn tail_selects_one_more_byte() {
    for n in 1..8usize {
        let mut comm = Communicator::new();
        let data = counting(n);
        let tx = comm.write_noburst(target(), 0x1000, &data, false);
        let (sent, _) = run(&mut comm, tx);
        assert_eq!(sent[0][1], 0xFFu8 >> (7 - n));
    }
}

#[test]
fn write_limits() {
    assert!(can_write_noburst(0x1000, 0));
    assert!(!can_write_noburst(0x1001, 0));
    assert!(can_write_noburst(0x1001, 1));
    assert!(can_write_noburst(0xFFFF_FFF0, 8));
    assert!(can_write_noburst(0xFFFF_FFF8, 7));
    assert!(!can_write_noburst(0xFFFF_FFF8, 8));
    assert!(!can_write_noburst(0xFFFF_FFF9, 1));
    assert!(can_write_burst(0x1001, 15));
    assert!(!can_write_burst(0x1008, 16));
    assert!(can_write_burst(0x1010, 16));
    assert!(!can_write_burst(0x1001, 0));
    assert!(!can_write_burst(0xFFFF_FFF0, 16));
    assert!(can_write_burst(0xFFFF_FFE0, 16));
    assert!(!can_write_burst(0xFFFF_FFE0, 32));
}

#[test]
fn write_small_burst() {
    let mut comm = Communicator::new();
    let data = counting(36);
    let tx = comm.write_burst(target(), 0x2000, &data);
    let (sent, amount) = run(&mut comm, tx);
    // only what is written without a burst counts
    assert_eq!(amount, 4);
    let tail = [data[32], data[33], data[34], data[35], 0, 0, 0, 0];
    assert_eq!(
        packets(&sent),
        vec![
            encode_packet(
                target(),
                true,
                0xFF,
                0x2000,
                &[2, 0, 0, 0, 0, 0, 0, 0],
                Mode::WritePosted
            )
            .to_vec(),
            encode_packet_burst(true, &data).to_vec(),
            encode_packet_burst(false, &data[16..]).to_vec(),
            encode_packet(target(), false, 0x1F, 0x2020, &tail, Mode::WritePosted).to_vec(),
        ]
    );
}

#[test]
fn write_more_than_one_burst() {
    let mut comm = Communicator::new();
    let data = counting(2047 * 16 + 32);
    let tx = comm.write_burst(target(), 0x10_0000, &data);
    let (sent, amount) = run(&mut comm, tx);
    assert_eq!(amount, 0);
    let all = packets(&sent);
    assert_eq!(all.len(), 1 + 2047 + 1 + 2);
    assert_eq!(
        all[0],
        encode_packet(
            target(),
            true,
            0xFF,
            0x10_0000,
            &[0xFF, 0x07, 0, 0, 0, 0, 0, 0],
            Mode::WritePosted
        )
        .to_vec()
    );
    assert_eq!(all[2046][0], 2);
    assert_eq!(all[2047][0], 0);
    assert_eq!(
        all[2048],
        encode_packet(
            target(),
            true,
            0xFF,
            0x10_0000 + 2047 * 16,
            &[2, 0, 0, 0, 0, 0, 0, 0],
            Mode::WritePosted
        )
        .to_vec()
    );
    assert_eq!(all[2050], encode_packet_burst(false, &data[2048 * 16..]).to_vec());
    // full datagrams, in order
    for datagram in &sent[..sent.len() - 1] {
        assert_eq!(datagram.len(), 81 * 18);
    }
    assert_eq!(sent.len(), (all.len() + 80) / 81);
}

#[test]
fn short_burst_write_goes_without_burst() {
    let mut comm = Communicator::new();
    let tx = comm.write_burst(target(), 0x1004, &[9, 8, 7, 6]);
    let (sent, amount) = run(&mut comm, tx);
    assert_eq!(amount, 4);
    assert_eq!(packets(&sent).len(), 1);
    assert_eq!(sent[0][1], 0x0F);
}

#[test]
fn message_with_short_header() {
    let mut comm = Communicator::new();
    let data = counting(20);
    let tx = comm.send_bytes(0, target(), 7, &data);
    let (sent, amount) = run(&mut comm, tx);
    assert_eq!(amount, 0);
    // 20 << 19 | 0x3F05 << 5 | 4 << 1
    let header = [
        0xA8, 0xE0, 0xA7, 0x00, 0xFF, 0xFF, 0xFF, 0xFF, 0, 0, 0, 0, 0, 0, 0, 0,
    ];
    let mut last = data[16..].to_vec();
    last.resize(16, 0);
    assert_eq!(
        packets(&sent),
        vec![
            encode_packet(
                target(),
                true,
                0xFF,
                7,
                &[3, 0, 0, 0, 0, 0, 0, 0],
                Mode::TCUMsg
            )
            .to_vec(),
            encode_packet_burst(true, &header).to_vec(),
            encode_packet_burst(true, &data).to_vec(),
            encode_packet_burst(false, &last).to_vec(),
        ]
    );
}

#[test]
fn empty_message_with_long_header() {
    let mut comm = Communicator::new();
    let tx = comm.send_bytes(1, target(), 0x1234, &[]);
    let (sent, _) = run(&mut comm, tx);
    let header = [
        0xA8, 0xE0, 0x07, 0x00, 0xFF, 0xFF, 0xFF, 0xFF, 0, 0, 0, 0, 0, 0, 0, 0,
    ];
    assert_eq!(
        packets(&sent),
        vec![
            encode_packet(
                target(),
                true,
                0xFF,
                0x1234,
                &[2, 0, 0, 0, 0, 0, 0, 0],
                Mode::TCUMsg
            )
            .to_vec(),
            encode_packet_burst(true, &header).to_vec(),
            encode_packet_burst(false, &[0; 16]).to_vec(),
        ]
    );
}

#[test]
fn longest_message() {
    let mut comm = Communicator::new();
    let tx = comm.send_bytes(1, target(), 0, &counting(2048));
    let (sent, _) = run(&mut comm, tx);
    let all = packets(&sent);
    assert_eq!(all.len(), 1 + 2 + 128);
    assert_eq!(all[0][17], 130);
    // the length in the header
    assert_eq!(all[1][14..18], [0x40, 0x07, 0xE0, 0xA8]);
}

#[test]
fn reset_packet() {
    let mut comm = Communicator::new();
    let tx = comm.fpga_reset(9);
    let (sent, amount) = run(&mut comm, tx);
    assert_eq!(amount, 8);
    assert_eq!(
        sent,
        vec![encode_packet(
            FPGAModule::new(9, 5),
            false,
            0xFF,
            0xF000_3028,
            &[1, 0, 0, 0, 0, 0, 0, 0],
            Mode::WritePosted
        )
        .to_vec()]
    );
}

#[test]
fn unsent_packets_go_out_with_the_next_ones() {
    let mut comm = Communicator::new();
    let mut tx = comm.write_noburst(target(), 0x1000, &[1; 8], false);
    // sending fails: the transmission is dropped
    let lost = match comm.transmit(&mut tx) {
        SendStep::Send(datagram) => datagram,
        SendStep::Done(_) => panic!("nothing to send"),
    };
    let tx = comm.write_noburst(target(), 0x2000, &[2; 8], false);
    let (sent, _) = run(&mut comm, tx);
    assert_eq!(sent.len(), 1);
    assert_eq!(sent[0][..18], lost[..]);
    assert_eq!(sent[0].len(), 36);
}

#[test]
fn datagrams_are_filled() {
    let mut comm = Communicator::new();
    let data = counting(82 * 8);
    let tx = comm.write_noburst(target(), 0, &data, false);
    let (sent, amount) = run(&mut comm, tx);
    assert_eq!(amount, 82 * 8);
    assert_eq!(sent.len(), 2);
    assert_eq!(sent[0].len(), 81 * 18);
    assert_eq!(sent[1].len(), 18);
}
