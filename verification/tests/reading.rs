use nocrw::communicator::Communicator;
use nocrw::packet::{encode_packet, encode_packet_burst, FPGAModule, Mode};
use nocrw::read::{Read, ReadEvent, ReadFailure, ReadStep};

fn target() -> FPGAModule {
    FPGAModule::new(6, 0x24)
}

fn counting(n: usize) -> Vec<u8> {
    (0..n).map(|i| (i * 3 % 241) as u8).collect()
}

fn step(comm: &mut Communicator, read: &mut Read, event: ReadEvent) -> ReadStep {
    comm.read_step(read, event)
}

fn sent(step: ReadStep) -> Vec<u8> {
    match step {
        ReadStep::Send(datagram) => datagram,
        _ => panic!("expected to send"),
    }
}

fn done(step: ReadStep) -> Vec<u8> {
    match step {
        ReadStep::Done(bytes) => bytes,
        _ => panic!("expected to be done"),
    }
}

fn request(addr: u32, len: u32, id: u32, mode: Mode) -> Vec<u8> {
    let word = (len as u64) << 32 | id as u64;
    encode_packet(target(), false, 0xFF, addr, &word.to_le_bytes(), mode).to_vec()
}

/// Answers with a burst, cut into datagrams of at most 81 packets.
fn burst_answer(id: u32, data: &[u8]) -> Vec<Vec<u8>> {
    let count = (data.len() as u64 / 16).to_le_bytes();
    let mut all = encode_packet(target(), true, 0xFF, id, &count, Mode::ReadResp).to_vec();
    for (i, chunk) in data.chunks(16).enumerate() {
        all.extend(encode_packet_burst(16 * (i + 1) < data.len(), chunk));
    }
    all.chunks(81 * 18).map(|d| d.to_vec()).collect()
}

fn word_answer(id: u32, bsel: u8, data: &[u8; 8], mode: Mode) -> Vec<u8> {
    encode_packet(target(), false, bsel, id, data, mode).to_vec()
}

/// Begins a read, and sends its first request.
fn begin(comm: &mut Communicator, addr: u32, len: usize) -> Read {
    let mut read = comm.read(target(), addr, len, false);
    sent(step(comm, &mut read, ReadEvent::Start));
    assert!(matches!(step(comm, &mut read, ReadEvent::Sent), ReadStep::Receive));
    read
}

#[test]
fn read_nothing() {
    let mut comm = Communicator::new();
    let mut read = comm.read(target(), 0x1000, 0, false);
    assert_eq!(done(step(&mut comm, &mut read, ReadEvent::Start)), vec![]);
}

#[test]
fn read_one_word() {
    let mut comm = Communicator::new();
    let mut read = comm.read(target(), 0x1000, 8, false);
    assert_eq!(
        sent(step(&mut comm, &mut read, ReadEvent::Start)),
        request(0x1000, 8, 0, Mode::ReadReq)
    );
    assert!(matches!(
        step(&mut comm, &mut read, ReadEvent::Sent),
        ReadStep::Receive
    ));
    let answer = word_answer(0, 0xFF, &[1, 2, 3, 4, 5, 6, 7, 8], Mode::ReadResp);
    assert_eq!(
        done(step(&mut comm, &mut read, ReadEvent::Datagram(&answer))),
        vec![1, 2, 3, 4, 5, 6, 7, 8]
    );
}

#[test]
fn acknowledged_read_of_a_few_bytes() {
    let mut comm = Communicator::new();
    let mut read = comm.read(target(), 0x1000, 3, true);
    assert_eq!(
        sent(step(&mut comm, &mut read, ReadEvent::Start)),
        request(0x1000, 3, 0, Mode::ARQReadReq)
    );
    step(&mut comm, &mut read, ReadEvent::Sent);
    let answer = word_answer(0, 0x07, &[1, 2, 3, 4, 5, 6, 7, 8], Mode::ARQReadResp);
    assert_eq!(
        done(step(&mut comm, &mut read, ReadEvent::Datagram(&answer))),
        vec![1, 2, 3]
    );
}

#[test]
fn ids_of_a_response_count_bytes() {
    let mut comm = Communicator::new();
    let mut read = begin(&mut comm, 0x1000, 16);
    let answer = [
        word_answer(0, 0xFF, &[1; 8], Mode::ReadResp),
        word_answer(5, 0xFF, &[9; 8], Mode::TCUAck),
        word_answer(8, 0xFF, &[2; 8], Mode::ReadResp),
    ]
    .concat();
    let bytes = done(step(&mut comm, &mut read, ReadEvent::Datagram(&answer)));
    assert_eq!(bytes, [[1u8; 8], [2u8; 8]].concat());
}

#[test]
fn read_more_than_one_request() {
    let mut comm = Communicator::new();
    let data = counting(24576 + 4096);
    let mut read = comm.read(target(), 0x10_0000, data.len(), false);
    assert_eq!(
        sent(step(&mut comm, &mut read, ReadEvent::Start)),
        request(0x10_0000, 24576, 0, Mode::ReadReq)
    );
    step(&mut comm, &mut read, ReadEvent::Sent);
    let answer = burst_answer(0, &data[..24576]);
    for datagram in &answer[..answer.len() - 1] {
        assert!(matches!(
            step(&mut comm, &mut read, ReadEvent::Datagram(datagram)),
            ReadStep::Receive
        ));
    }
    let last = answer.last().unwrap();
    assert_eq!(
        sent(step(&mut comm, &mut read, ReadEvent::Datagram(last))),
        request(0x10_0000 + 24576, 4096, 1, Mode::ReadReq)
    );
    step(&mut comm, &mut read, ReadEvent::Sent);
    let answer = burst_answer(1, &data[24576..]);
    for datagram in &answer[..answer.len() - 1] {
        step(&mut comm, &mut read, ReadEvent::Datagram(datagram));
    }
    let last = answer.last().unwrap();
    assert_eq!(
        done(step(&mut comm, &mut read, ReadEvent::Datagram(last))),
        data
    );
}

#[test]
fn posted_writes_are_kept() {
    let mut comm = Communicator::new();
    let mut read = begin(&mut comm, 0x1000, 8);
    let write = word_answer(0, 0xFF, &[7; 8], Mode::WritePosted);
    assert!(matches!(
        step(&mut comm, &mut read, ReadEvent::Datagram(&write)),
        ReadStep::Receive
    ));
    assert!(matches!(
        step(&mut comm, &mut read, ReadEvent::Datagram(&[])),
        ReadStep::Receive
    ));
    let answer = word_answer(0, 0xFF, &[1; 8], Mode::ReadResp);
    assert_eq!(
        done(step(&mut comm, &mut read, ReadEvent::Datagram(&answer))),
        vec![1; 8]
    );
    assert_eq!(comm.receive(), Some(Ok(vec![7; 8])));
    assert_eq!(comm.receive(), None);
}

#[test]
fn posted_writes_during_a_long_read_are_received_in_order() {
    let mut comm = Communicator::new();
    let data = counting(24576 + 512);
    let mut read = begin(&mut comm, 0x2000, data.len());
    let mut posted = 0;
    let mut bytes = vec![];
    for (id, part) in data.chunks(24576).enumerate() {
        // a write before each answer, and one right after the second request
        let write = word_answer(0x40, 0xFF, &[posted; 8], Mode::WritePosted);
        posted += 1;
        assert!(matches!(
            step(&mut comm, &mut read, ReadEvent::Datagram(&write)),
            ReadStep::Receive
        ));
        for datagram in burst_answer(id as u32, part) {
            match step(&mut comm, &mut read, ReadEvent::Datagram(&datagram)) {
                ReadStep::Send(next) => {
                    assert_eq!(next, request(0x2000 + 24576, 512, 1, Mode::ReadReq));
                    step(&mut comm, &mut read, ReadEvent::Sent);
                    let write = word_answer(0x48, 0x0F, &[posted; 8], Mode::WritePosted);
                    posted += 1;
                    step(&mut comm, &mut read, ReadEvent::Datagram(&write));
                }
                ReadStep::Done(all) => bytes = all,
                _ => {}
            }
        }
    }
    assert_eq!(bytes, data);
    assert_eq!(posted, 3);
    assert_eq!(comm.receive(), Some(Ok(vec![0; 8])));
    assert_eq!(comm.receive(), Some(Ok(vec![1; 4])));
    assert_eq!(comm.receive(), Some(Ok(vec![2; 8])));
    assert_eq!(comm.receive(), None);
}

#[test]
fn requests_of_a_second_read_go_on_counting() {
    let mut comm = Communicator::new();
    let data = counting(2 * 24576 + 8);
    for round in 0..2u32 {
        let mut read = comm.read(target(), 0x8000, data.len(), false);
        let mut next = step(&mut comm, &mut read, ReadEvent::Start);
        for (i, part) in data.chunks(24576).enumerate() {
            let id = 3 * round + i as u32;
            assert_eq!(
                sent(next),
                request(0x8000 + 24576 * i as u32, part.len() as u32, id, Mode::ReadReq)
            );
            next = step(&mut comm, &mut read, ReadEvent::Sent);
            let answer = if part.len() == 8 {
                let mut word = [0; 8];
                word.copy_from_slice(part);
                vec![word_answer(id, 0xFF, &word, Mode::ReadResp)]
            } else {
                burst_answer(id, part)
            };
            for datagram in &answer {
                assert!(matches!(next, ReadStep::Receive));
                next = step(&mut comm, &mut read, ReadEvent::Datagram(datagram));
            }
        }
        assert_eq!(done(next), data);
    }
}

#[test]
fn gives_up_after_three_failures_at_the_start() {
    let mut comm = Communicator::new();
    let mut read = comm.read(target(), 0x1000, 8, false);
    sent(step(&mut comm, &mut read, ReadEvent::Start));
    for id in 1..3u32 {
        step(&mut comm, &mut read, ReadEvent::Sent);
        assert!(matches!(
            step(&mut comm, &mut read, ReadEvent::ReceiveFailed),
            ReadStep::Drain(ReadFailure::Io)
        ));
        assert_eq!(
            sent(step(&mut comm, &mut read, ReadEvent::Drained)),
            request(0x1000, 8, id, Mode::ReadReq)
        );
    }
    step(&mut comm, &mut read, ReadEvent::Sent);
    let stale = word_answer(0, 0xFF, &[1; 8], Mode::ReadResp);
    assert!(matches!(
        step(&mut comm, &mut read, ReadEvent::Datagram(&stale)),
        ReadStep::Drain(ReadFailure::InvalidData)
    ));
    assert!(matches!(
        step(&mut comm, &mut read, ReadEvent::Drained),
        ReadStep::Failed(ReadFailure::InvalidData)
    ));
}

#[test]
fn gives_up_after_four_failures_further_on() {
    let mut comm = Communicator::new();
    let data = counting(24576);
    let mut read = begin(&mut comm, 0x1000, data.len() + 8);
    for datagram in burst_answer(0, &data) {
        step(&mut comm, &mut read, ReadEvent::Datagram(&datagram));
    }
    for _ in 0..3 {
        step(&mut comm, &mut read, ReadEvent::Sent);
        step(&mut comm, &mut read, ReadEvent::ReceiveFailed);
        sent(step(&mut comm, &mut read, ReadEvent::Drained));
    }
    step(&mut comm, &mut read, ReadEvent::Sent);
    step(&mut comm, &mut read, ReadEvent::ReceiveFailed);
    assert!(matches!(
        step(&mut comm, &mut read, ReadEvent::Drained),
        ReadStep::Failed(ReadFailure::Io)
    ));
}

#[test]
fn unsent_request_goes_out_with_the_next_one() {
    let mut comm = Communicator::new();
    let mut read = comm.read(target(), 0x1000, 8, false);
    let first = sent(step(&mut comm, &mut read, ReadEvent::Start));
    assert!(matches!(
        step(&mut comm, &mut read, ReadEvent::SendFailed),
        ReadStep::Drain(ReadFailure::Io)
    ));
    let second = sent(step(&mut comm, &mut read, ReadEvent::Drained));
    assert_eq!(
        second,
        [first, request(0x1000, 8, 1, Mode::ReadReq)].concat()
    );
}

#[test]
fn bytes_of_a_failed_request_stay() {
    let mut comm = Communicator::new();
    let mut read = begin(&mut comm, 0x1000, 16);
    let half = word_answer(0, 0xFF, &[1; 8], Mode::ReadResp);
    step(&mut comm, &mut read, ReadEvent::Datagram(&half));
    step(&mut comm, &mut read, ReadEvent::ReceiveFailed);
    sent(step(&mut comm, &mut read, ReadEvent::Drained));
    step(&mut comm, &mut read, ReadEvent::Sent);
    let answer = burst_answer(1, &[2; 16]).concat();
    assert_eq!(
        done(step(&mut comm, &mut read, ReadEvent::Datagram(&answer))),
        [vec![1u8; 8], vec![2u8; 16]].concat()
    );
}

#[test]
fn broken_responses() {
    // too many bytes
    let mut comm = Communicator::new();
    let mut read = begin(&mut comm, 0x1000, 4);
    let long = word_answer(0, 0xFF, &[1; 8], Mode::ReadResp);
    assert!(matches!(
        step(&mut comm, &mut read, ReadEvent::Datagram(&long)),
        ReadStep::Broken
    ));

    // bytes behind the last packet
    let mut comm = Communicator::new();
    let mut read = begin(&mut comm, 0x1000, 8);
    let mut trailing = word_answer(0, 0xFF, &[1; 8], Mode::ReadResp);
    trailing.push(0);
    assert!(matches!(
        step(&mut comm, &mut read, ReadEvent::Datagram(&trailing)),
        ReadStep::Broken
    ));

    // no byte selected
    let mut comm = Communicator::new();
    let mut read = begin(&mut comm, 0x1000, 8);
    let nothing = word_answer(0, 0, &[1; 8], Mode::ReadResp);
    assert!(matches!(
        step(&mut comm, &mut read, ReadEvent::Datagram(&nothing)),
        ReadStep::Broken
    ));
}

#[test]
fn unknown_mode_fails_the_request() {
    let mut comm = Communicator::new();
    let mut read = begin(&mut comm, 0x1000, 8);
    let mut unknown = word_answer(0, 0xFF, &[1; 8], Mode::ReadResp);
    unknown[5] = 14;
    assert!(matches!(
        step(&mut comm, &mut read, ReadEvent::Datagram(&unknown)),
        ReadStep::Drain(ReadFailure::InvalidData)
    ));
}

#[test]
fn burst_that_leaves_out_bytes() {
    let mut comm = Communicator::new();
    let data = counting(32);
    let mut read = begin(&mut comm, 0x1004, 20);
    // four bytes are left out at the start, and eight at the end
    let start = encode_packet(target(), true, 0x7B, 0, &[2; 8], Mode::ReadResp).to_vec();
    let answer = [
        start,
        encode_packet_burst(true, &data).to_vec(),
        encode_packet_burst(false, &data[16..]).to_vec(),
    ]
    .concat();
    assert_eq!(
        done(step(&mut comm, &mut read, ReadEvent::Datagram(&answer))),
        data[4..24].to_vec()
    );
}
