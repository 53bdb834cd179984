use nocrw::communicator::Communicator;
use nocrw::decode::CommError;
use nocrw::packet::{encode_packet, encode_packet_burst, FPGAModule, Mode};
use nocrw::self_test::SelfTestStep;
use nocrw::transmit::{SendStep, Transmission};

fn target() -> FPGAModule {
    FPGAModule::new(6, 0x24)
}

fn counting(n: usize) -> Vec<u8> {
    (0..n).map(|i| (i * 5 % 253) as u8).collect()
}

fn run(comm: &mut Communicator, mut tx: Transmission) -> Vec<Vec<u8>> {
    let mut sent = vec![];
    loop {
        match comm.transmit(&mut tx) {
            SendStep::Send(datagram) => {
                sent.push(datagram);
                comm.packets_sent();
            }
            SendStep::Done(_) => return sent,
        }
    }
}

fn receive_all(comm: &mut Communicator, datagrams: &[Vec<u8>]) -> Vec<u8> {
    let mut all = vec![];
    for datagram in datagrams {
        all.extend(comm.do_receive(datagram).unwrap());
    }
    all
}

fn normal(bsel: u8, addr: u32, data: &[u8; 8], mode: Mode) -> Vec<u8> {
    encode_packet(target(), false, bsel, addr, data, mode).to_vec()
}

#[test]
fn receive_what_was_written() {
    for len in 1..40usize {
        for addr in 0x1000..0x1008u32 {
            let mut comm = Communicator::new();
            let data = counting(len);
            let tx = comm.write_noburst(target(), addr, &data, false);
            let sent = run(&mut comm, tx);
            let got = receive_all(&mut comm, &sent);
            let head = (8 - addr as usize % 8) % 8;
            let padding = if head > len {
                head - len
            } else if (len - head) % 8 != 0 {
                1
            } else {
                0
            };
            assert_eq!(got[..len], data[..]);
            assert_eq!(got[len..], vec![0; padding][..]);
            assert_eq!(comm.burst(), None);
        }
    }
}

#[test]
fn receive_bursts() {
    for len in [16, 32, 33, 4096, 2047 * 16, 2047 * 16 + 16, 70000usize] {
        let mut comm = Communicator::new();
        let data = counting(len);
        let tx = comm.write_burst(target(), 0x4000, &data);
        let sent = run(&mut comm, tx);
        let got = receive_all(&mut comm, &sent);
        assert_eq!(got[..len], data[..]);
        assert!(got.len() - len <= 1);
        assert_eq!(comm.burst(), None);
    }
}

#[test]
fn receive_message() {
    let mut comm = Communicator::new();
    let data = counting(20);
    let tx = comm.send_bytes(0, target(), 3, &data);
    let sent = run(&mut comm, tx);
    let got = receive_all(&mut comm, &sent);
    assert_eq!(got.len(), 16 + 32);
    assert_eq!(got[..8], [0xA8, 0xE0, 0xA7, 0x00, 0xFF, 0xFF, 0xFF, 0xFF]);
    assert_eq!(got[16..36], data[..]);
    assert_eq!(got[36..], [0; 12]);
}

#[test]
fn other_packets_are_ignored() {
    let mut comm = Communicator::new();
    let datagram = [
        normal(0xFF, 0, &[9; 8], Mode::ReadResp),
        normal(0xFF, 0, &[1, 2, 3, 4, 5, 6, 7, 8], Mode::WritePosted),
        normal(0xFF, 0, &[9; 8], Mode::ARQWritePosted),
        vec![0xFF; 17],
    ]
    .concat();
    assert_eq!(comm.do_receive(&datagram), Ok(vec![1, 2, 3, 4, 5, 6, 7, 8]));
}

#[test]
fn receive_errors() {
    let mut comm = Communicator::new();
    let mut unknown = normal(0xFF, 0, &[9; 8], Mode::WritePosted);
    unknown[5] = 13;
    assert_eq!(comm.do_receive(&unknown), Err(CommError::InvalidData));
    let none = normal(0, 0, &[9; 8], Mode::WritePosted);
    assert_eq!(comm.do_receive(&none), Err(CommError::Broken));
}

#[test]
fn burst_over_two_datagrams() {
    let mut comm = Communicator::new();
    let data = counting(32);
    let mut first = encode_packet(target(), true, 0xFF, 0, &[2; 8], Mode::WritePosted).to_vec();
    first.extend(encode_packet_burst(true, &data));
    assert_eq!(comm.do_receive(&first), Ok(data[..16].to_vec()));
    assert_eq!(comm.burst(), Some((0xFF, false)));
    assert_eq!(
        comm.do_receive(&encode_packet_burst(false, &data[16..])),
        Ok(data[16..].to_vec())
    );
    assert_eq!(comm.burst(), None);
}

#[test]
fn kept_datagrams_come_first_and_in_order() {
    let mut comm = Communicator::new();
    assert_eq!(comm.receive(), None);
    comm.keep_datagram(&normal(0xFF, 0, &[1; 8], Mode::WritePosted));
    comm.keep_datagram(&normal(0xFF, 0, &[2; 8], Mode::WritePosted));
    assert_eq!(comm.receive(), Some(Ok(vec![1; 8])));
    assert_eq!(comm.receive(), Some(Ok(vec![2; 8])));
    assert_eq!(comm.receive(), None);
}

#[test]
fn self_test_passes_on_echo() {
    let mut comm = Communicator::new();
    let (tx, mut test) = comm.self_test();
    let sent = run(&mut comm, tx);
    assert_eq!(
        sent,
        vec![encode_packet(
            FPGAModule::new(0x3F, 5),
            false,
            0xFF,
            0xDEAD_BEE0,
            &[0x12, 0x34, 0x56, 0x78, 0x9A, 0xBC, 0xDE, 0xFF],
            Mode::WritePosted
        )
        .to_vec()]
    );
    assert_eq!(comm.self_test_reply(&mut test, &[0; 17]), SelfTestStep::Receive);
    assert_eq!(comm.self_test_reply(&mut test, &sent[0]), SelfTestStep::Passed);
}

#[test]
fn self_test_gives_up() {
    let mut comm = Communicator::new();
    let (_, mut test) = comm.self_test();
    let other = encode_packet(target(), true, 0xFF, 0, &[0; 8], Mode::WritePosted);
    for _ in 0..99 {
        assert_eq!(comm.self_test_reply(&mut test, &other), SelfTestStep::Receive);
        // datagrams without a packet do not count
        assert_eq!(comm.self_test_reply(&mut test, &[]), SelfTestStep::Receive);
        assert_eq!(comm.burst(), None);
    }
    assert_eq!(comm.self_test_reply(&mut test, &other), SelfTestStep::TimedOut);
}

#[test]
fn self_test_failures() {
    let mut comm = Communicator::new();
    let (tx, mut test) = comm.self_test();
    let sent = run(&mut comm, tx).concat();

    let mut changed = sent.clone();
    changed[17] = 0x13;
    assert_eq!(comm.self_test_reply(&mut test, &changed), SelfTestStep::Broken);
    let mut other_mode = sent.clone();
    other_mode[5] = 0xF1;
    assert_eq!(comm.self_test_reply(&mut test, &other_mode), SelfTestStep::Broken);
    let mut other_source = sent.clone();
    other_source[2] = 6;
    assert_eq!(comm.self_test_reply(&mut test, &other_source), SelfTestStep::Broken);
    let mut fewer = sent.clone();
    fewer[1] = 0x7F;
    assert_eq!(comm.self_test_reply(&mut test, &fewer), SelfTestStep::Broken);
    let mut unknown = sent.clone();
    unknown[5] = 0xFF;
    assert_eq!(comm.self_test_reply(&mut test, &unknown), SelfTestStep::InvalidData);
    let mut nothing = sent.clone();
    nothing[1] = 0;
    assert_eq!(comm.self_test_reply(&mut test, &nothing), SelfTestStep::Broken);
    let mut burst = sent.clone();
    burst[0] = 2;
    assert_eq!(comm.self_test_reply(&mut test, &burst), SelfTestStep::Broken);
}
