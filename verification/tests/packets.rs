use nocrw::communicator::Communicator;
use nocrw::decode::{CommError, NocPacket};
use nocrw::packet::{
    encode_packet, encode_packet_burst, host_mod, to_le_bytes, FPGAModule, Mode,
};

const BYTES: [u8; 16] = [1, 2, 3, 4, 5, 6, 7, 8, 9, 10, 11, 12, 13, 14, 15, 16];

#[test]
fn module_keeps_its_ids() {
    let module = FPGAModule::new(6, 0x24);
    assert_eq!(module.chip_id, 6);
    assert_eq!(module.mod_id, 0x24);
    assert_eq!(host_mod(), FPGAModule::new(0x3F, 0x05));
}

#[test]
fn module_as_text() {
    assert_eq!(FPGAModule::new(0, 9).to_string(), "(chip=0, mod=9)");
    assert_eq!(FPGAModule::new(10, 63).to_string(), "(chip=10, mod=63)");
    assert_eq!(FPGAModule::new(255, 104).to_string(), "(chip=255, mod=104)");
    assert_eq!(FPGAModule::new(100, 200).to_string(), "(chip=100, mod=200)");
}

#[test]
fn modes_and_numbers() {
    let modes = [
        Mode::ReadReq,
        Mode::ReadResp,
        Mode::WritePosted,
        Mode::TCUMsg,
        Mode::TCUAck,
        Mode::ReadReq2,
        Mode::ReadResp2,
        Mode::WritePosted2,
        Mode::Error,
        Mode::ARQAck,
        Mode::ARQReadReq,
        Mode::ARQReadResp,
        Mode::ARQWritePosted,
    ];
    for (i, mode) in modes.iter().enumerate() {
        assert_eq!(mode.to_number(), i as u8);
        assert_eq!(Mode::from_number(i as u8), Some(*mode));
    }
    for number in 13..=255u8 {
        assert_eq!(Mode::from_number(number), None);
    }
}

#[test]
fn little_endian_bytes() {
    assert_eq!(
        to_le_bytes(0x0123_4567_89AB_CDEF),
        [0xEF, 0xCD, 0xAB, 0x89, 0x67, 0x45, 0x23, 0x01]
    );
}

#[test]
fn normal_packet_bytes() {
    let pkt = encode_packet(
        FPGAModule::new(0x16, 0xC5),
        true,
        0x7F,
        0x1234_5678,
        &BYTES,
        Mode::TCUMsg,
    );
    assert_eq!(
        pkt,
        [
            0x02, 0x7F, 0x05, 0xFF, 0x15, 0x63, 0x12, 0x34, 0x56, 0x78, 8, 7, 6, 5, 4, 3, 2, 1
        ]
    );
    let pkt = encode_packet(
        FPGAModule::new(0xFF, 0),
        false,
        0xFF,
        0,
        &BYTES,
        Mode::ARQWritePosted,
    );
    assert_eq!(pkt[0], 0);
    assert_eq!(pkt[3], 0xFC);
    // a chip id with more than six bits spills into the module id
    assert_eq!(pkt[4], 0x0F);
    assert_eq!(pkt[5], 0xFC);
}

#[test]
fn burst_packet_bytes() {
    assert_eq!(
        encode_packet_burst(true, &BYTES),
        [2, 0xFF, 16, 15, 14, 13, 12, 11, 10, 9, 8, 7, 6, 5, 4, 3, 2, 1]
    );
    assert_eq!(encode_packet_burst(false, &BYTES)[0], 0);
}

#[test]
fn decode_undoes_encode() {
    let mut comm = Communicator::new();
    let pkt = encode_packet(
        FPGAModule::new(6, 4),
        false,
        0x3F,
        0xDEAD_BEE0,
        &BYTES,
        Mode::WritePosted,
    );
    match comm.decode_packet(&pkt) {
        Ok(NocPacket::Normal((src, mode, addr, data))) => {
            assert_eq!(src, host_mod());
            assert_eq!(mode, Mode::WritePosted);
            assert_eq!(addr, 0xDEAD_BEE0);
            assert_eq!(data, &[6, 5, 4, 3, 2, 1]);
        }
        _ => panic!("not a normal packet"),
    }
    assert_eq!(comm.burst(), None);
}

#[test]
fn byte_selects_cut_both_ends() {
    let mut comm = Communicator::new();
    let pkt = encode_packet(
        FPGAModule::new(6, 4),
        false,
        0b0011_1100,
        0,
        &BYTES,
        Mode::ReadResp,
    );
    match comm.decode_packet(&pkt) {
        Ok(NocPacket::Normal((_, _, _, data))) => assert_eq!(data, &[6, 5, 4, 3]),
        _ => panic!("not a normal packet"),
    }
}

#[test]
fn bursts_are_tracked() {
    let mut comm = Communicator::new();
    // the first packet leaves out three bytes, the last one five
    let start = encode_packet(
        FPGAModule::new(6, 4),
        true,
        0xAC,
        0,
        &BYTES,
        Mode::ReadResp,
    );
    assert!(matches!(comm.decode_packet(&start), Ok(NocPacket::Normal(_))));
    assert_eq!(comm.burst(), Some((0xAC, true)));
    match comm.decode_packet(&encode_packet_burst(true, &BYTES)) {
        Ok(NocPacket::Burst(data)) => assert_eq!(data, &[16, 15, 14, 13, 12, 11, 10, 9, 8, 7, 6, 5, 4]),
        _ => panic!("not a burst packet"),
    }
    assert_eq!(comm.burst(), Some((0xAC, false)));
    match comm.decode_packet(&encode_packet_burst(false, &BYTES)) {
        Ok(NocPacket::Burst(data)) => assert_eq!(data, &[11, 10, 9, 8, 7, 6, 5, 4, 3, 2, 1]),
        _ => panic!("not a burst packet"),
    }
    assert_eq!(comm.burst(), None);
}

#[test]
fn unknown_mode_is_an_error_and_still_starts_the_burst() {
    let mut comm = Communicator::new();
    let mut pkt = encode_packet(FPGAModule::new(6, 4), true, 0xFF, 0, &BYTES, Mode::ReadResp);
    pkt[5] = 0x6D;
    assert!(matches!(comm.decode_packet(&pkt), Err(CommError::InvalidData)));
    assert_eq!(comm.burst(), Some((0xFF, true)));
}

#[test]
fn packets_without_a_meaning() {
    let mut comm = Communicator::new();
    let none = encode_packet(FPGAModule::new(6, 4), false, 0, 0, &BYTES, Mode::ReadResp);
    assert!(!comm.is_decodable(&none));
    let mut unknown = none;
    unknown[5] = 0x0F;
    assert!(comm.is_decodable(&unknown));
    let one = encode_packet(FPGAModule::new(6, 4), false, 0x10, 0, &BYTES, Mode::ReadResp);
    assert!(comm.is_decodable(&one));

    comm.restore_burst(Some((0x11, true)));
    assert!(!comm.is_decodable(&encode_packet_burst(false, &BYTES)));
    assert!(comm.is_decodable(&encode_packet_burst(true, &BYTES)));
    // begin 8 and end 8 leave nothing, which is still a range
    comm.restore_burst(Some((0x77, true)));
    assert!(comm.is_decodable(&encode_packet_burst(false, &BYTES)));
    comm.restore_burst(Some((0x67, true)));
    assert!(!comm.is_decodable(&encode_packet_burst(false, &BYTES)));
}
