use bbrdb::commands::{
    bad_block_list, dump_block, be32_bytes, check_block_read, check_card_size, check_cmd_response, check_status,
    count_zero_bits, get_response, num_blocks_result, set_time_result, TimeData,
};
use bbrdb::error::LibBBRDBError;
use bbrdb::rdb::{
    bbp_type, chunk_count, decode_rdb_bulk, decode_rdb_cmd_len, encode_rdb_block_packet, encode_rdb_hdr,
    encode_rdb_packet, frame_host_data, frame_rdb_data, frame_rdb_packets, is_ready_for_data, rdb_bulk_read_len,
    to_u32,
};
use bbrdb::{BBPlayer, CardError, Command, RDBCommand, RDBType};

#[test]
fn set_led_command_and_reply() {
    let payload = Command::SetLED.payload(4u32);
    assert_eq!(payload, vec![0x00, 0x00, 0x00, 0x1D, 0x00, 0x00, 0x00, 0x04]);
    let words = get_response(&[0xFF, 0xFF, 0xFF, 0xE2, 0x00, 0x00, 0x00, 0x00]);
    assert_eq!(words, vec![0xFFFF_FFE2, 0]);
    let status = check_cmd_response(Command::SetLED, &words).unwrap();
    assert_eq!(status, vec![0]);
    assert_eq!(check_status(status[0]), Ok(()));
}

#[test]
fn wrong_echo_is_refused() {
    let r = check_cmd_response(Command::SetLED, &[0xFFFF_FFE1, 0]);
    assert_eq!(r, Err(LibBBRDBError::IncorrectCmdResponse(0xFFFF_FFE1, 0xFFFF_FFE2)));
    let r = check_cmd_response(Command::Ping, &[]);
    assert_eq!(r, Err(LibBBRDBError::IncorrectCmdResponse(0, 0xFFFF_FFFE)));
}

#[test]
fn command_ids() {
    assert_eq!(Command::ReadBlockAndSpare.id(), 0x11);
    assert_eq!(Command::SignHash.id(), 0x20);
    assert_eq!(Command::ChksumFile.id(), 0x1C);
    assert_eq!(Command::WriteBlockAndSpare.echo(), 0xFFFF_FFEF);
    assert_eq!(Command::ReadBlock.payload(vec![1u8, 2, 3, 4]), vec![0, 0, 0, 7, 1, 2, 3, 4]);
    let args: &[u8] = &[9, 8];
    assert_eq!(Command::SetTime.payload(args), vec![0, 0, 0, 0x1E, 9, 8]);
    assert_eq!(be32_bytes(0x0102_0304), vec![1, 2, 3, 4]);
}

#[test]
fn card_error_codes() {
    assert_eq!(CardError::from_i32(-1), CardError::NotPresent);
    assert_eq!(CardError::from_i32(-7), CardError::CardFull);
    assert_eq!(CardError::from_i32(-10), CardError::StateLimit);
    assert_eq!(CardError::from_i32(-11), CardError::Unknown(-11));
    assert_eq!(CardError::from_i32(5), CardError::Unknown(5));
    assert_eq!(CardError::from_u32(0xFFFF_FFF8), CardError::NotFound);
    assert_eq!(check_status(0xFFFF_FFFE), Err(LibBBRDBError::CardError(CardError::Failure)));
}

#[test]
fn healthy_block_read() {
    let nand = vec![0x5Au8; 0x4000];
    let spare = vec![0xFFu8; 0x10];
    let r = check_block_read(0, nand.clone(), spare.clone());
    assert_eq!(r, Ok((nand, spare)));
}

#[test]
fn bad_block_read_carries_data() {
    let nand = vec![1u8; 0x4000];
    let mut spare = vec![0xFFu8; 0x10];
    spare[5] = 0xFC;
    let r = check_block_read(0, nand.clone(), spare.clone());
    assert_eq!(r, Err(LibBBRDBError::CardError(CardError::BadBlock(nand.clone(), spare))));
    let mut one_zero = vec![0xFFu8; 0x10];
    one_zero[5] = 0xFE;
    assert_eq!(check_block_read(0, nand.clone(), one_zero.clone()), Ok((nand.clone(), one_zero.clone())));
    assert_eq!(
        check_block_read(0xFFFF_FFFD, nand.clone(), one_zero),
        Err(LibBBRDBError::CardError(CardError::Invalid))
    );
    assert_eq!(
        check_block_read(0, nand, vec![0xFF; 4]),
        Err(LibBBRDBError::InvalidSpareSize(4, 0x10))
    );
}

#[test]
fn zero_bit_counts() {
    assert_eq!(count_zero_bits(0xFF), 0);
    assert_eq!(count_zero_bits(0x00), 8);
    assert_eq!(count_zero_bits(0xF0), 4);
    assert_eq!(count_zero_bits(0x7F), 1);
}

#[test]
fn scan_with_two_bad_blocks() {
    let mut raw = vec![0u8; 4096];
    raw[17] = 1;
    raw[4000] = 0xFF;
    let list = bad_block_list(&raw);
    assert_eq!(list.len(), 4096);
    assert_eq!(list.iter().filter(|b| **b).count(), 2);
    assert!(list[17] && list[4000]);
}

#[test]
fn card_sizes() {
    assert_eq!(check_card_size(4096), Ok(4096));
    assert_eq!(check_card_size(8192), Ok(8192));
    assert_eq!(check_card_size(0), Err(LibBBRDBError::UnhandledCardSize));
    assert_eq!(check_card_size(4000), Err(LibBBRDBError::UnhandledCardSize));
    assert_eq!(check_card_size(0xF000), Ok(0xF000));
    assert_eq!(check_card_size(0x10000), Err(LibBBRDBError::UnhandledCardSize));
    assert_eq!(num_blocks_result(4096), Ok(4096));
    assert_eq!(num_blocks_result(0xFFFF_FFFF), Err(LibBBRDBError::CardError(CardError::NotPresent)));
}

#[test]
fn set_time_bytes() {
    let t = TimeData { year: 2024, month: 3, day: 9, weekday: 5, hour: 13, minute: 45, second: 30 };
    assert_eq!(t.payload(), vec![24, 3, 9, 5, 0, 13, 45, 30]);
    assert_eq!(set_time_result(0), Ok(()));
    assert_eq!(set_time_result(0xFFFF_FFFF), Err(LibBBRDBError::SetTime(-1)));
}

#[test]
fn tags_follow_the_wire_values() {
    assert_eq!(RDBCommand::try_from(13), Ok(RDBCommand::HostLogDone));
    assert_eq!(RDBCommand::try_from(22), Ok(RDBCommand::DeviceProfData));
    assert_eq!(RDBCommand::try_from(23), Ok(RDBCommand::DeviceDataB));
    assert_eq!(RDBCommand::try_from(24), Ok(RDBCommand::HostDataB));
    assert_eq!(RDBCommand::try_from(27), Ok(RDBCommand::HostDebugDone));
    assert_eq!(RDBCommand::try_from(0), Err(0));
    assert_eq!(RDBCommand::try_from(28), Err(28));
    for v in 1u8..=27 {
        assert_eq!(RDBCommand::try_from(v).unwrap().tag(), v);
    }
}

#[test]
fn packet_headers() {
    assert_eq!(encode_rdb_hdr(RDBCommand::HostData, 3), 0x43);
    assert_eq!(encode_rdb_packet(RDBCommand::HostData, &[1, 2]), vec![0x42, 1, 2, 0]);
    assert_eq!(encode_rdb_block_packet(RDBCommand::HostDataB, &[7, 8, 9]), vec![0x60, 3, 7, 8, 9]);
    assert_eq!(decode_rdb_cmd_len(0x1F), Ok((RDBCommand::DeviceData, 3)));
    assert_eq!(decode_rdb_cmd_len(0x14), Ok((RDBCommand::DeviceReadyForData, 0)));
    assert_eq!(decode_rdb_cmd_len(0x02), Err(LibBBRDBError::RDBUnknown(0)));
    assert_eq!(decode_rdb_cmd_len(0xFC), Err(LibBBRDBError::RDBUnknown(63)));
    assert!(is_ready_for_data(RDBCommand::DeviceReadyForData));
    assert!(RDBCommand::DeviceDataB.has_explicit_length());
}

#[test]
fn short_frames() {
    let frames = frame_rdb_data(RDBCommand::HostData, &[1, 2, 3, 4, 5, 6, 7]);
    assert_eq!(frames, vec![vec![0x43, 1, 2, 3, 0x43, 4, 5, 6, 0x41, 7, 0, 0]]);
    let data: Vec<u8> = (0..241u32).map(|i| i as u8).collect();
    let frames = frame_rdb_data(RDBCommand::HostData, &data);
    assert_eq!(frames.len(), 2);
    assert_eq!(frames[0].len(), 320);
    assert_eq!(frames[1], vec![0x41, 240, 0, 0]);
    assert!(frame_rdb_data(RDBCommand::HostData, &[]).is_empty());
    assert_eq!(encode_rdb_packet(RDBCommand::HostDataDone, &[]), vec![0x44, 0, 0, 0]);
}

#[test]
fn host_data_over_sixteen_bytes_goes_in_blocks() {
    let data = vec![0xAAu8; 300];
    let frames = frame_host_data(RDBCommand::HostData, &data);
    assert_eq!(frames.len(), 1);
    assert_eq!(frames[0].len(), 2 + 254 + 2 + 46);
    assert_eq!(&frames[0][..2], &[0x60, 254]);
    assert_eq!(&frames[0][256..258], &[0x60, 46]);
    let small = frame_host_data(RDBCommand::HostData, &[1, 2, 3, 4, 5, 6, 7, 8]);
    assert_eq!(small, vec![vec![0x43, 1, 2, 3, 0x43, 4, 5, 6, 0x42, 7, 8, 0]]);
    let other = frame_host_data(RDBCommand::HostDebug, &vec![1u8; 20]);
    assert_eq!(other[0][0], 0x3B);
    let big = vec![0u8; 254 * 80 + 1];
    assert_eq!(frame_host_data(RDBCommand::HostData, &big).len(), 2);
}

#[test]
fn mixed_packets() {
    let frames = frame_rdb_packets(RDBCommand::HostDebugDone, &[0]);
    assert_eq!(frames, vec![vec![0x6D, 0, 0, 0]]);
    let frames = frame_rdb_packets(RDBCommand::HostDebug, &[1, 2, 3, 4, 5]);
    assert_eq!(frames, vec![vec![0x38, 5, 1, 2, 3, 4, 5]]);
}

#[test]
fn bulk_reads() {
    assert_eq!(rdb_bulk_read_len(4), 8);
    assert_eq!(rdb_bulk_read_len(3), 4);
    assert_eq!(rdb_bulk_read_len(0), 0);
    let r = decode_rdb_bulk(&[0x1F, 1, 2, 3, 0x1D, 4, 0, 0]);
    assert_eq!(r, Ok(vec![1, 2, 3, 4]));
    assert_eq!(decode_rdb_bulk(&[0x1F, 1, 2]), Err(LibBBRDBError::WrongDataLength));
    assert_eq!(
        decode_rdb_bulk(&[0x1F, 1, 2, 3, 0x43, 4, 0, 0]),
        Err(LibBBRDBError::RDBUnexpected(RDBCommand::HostData, vec![RDBCommand::DeviceData]))
    );
    assert_eq!(to_u32(&[0x12, 0x34]), 0x1234);
    assert_eq!(to_u32(&[9, 1, 2, 3, 4]), 0x0102_0304);
    assert_eq!(to_u32(&[]), 0);
    assert_eq!(chunk_count(RDBCommand::DeviceDataCT, &[0, 0x40, 0]), Ok(0x4000));
    assert!(chunk_count(RDBCommand::DeviceData, &[1]).is_err());
}

#[test]
fn device_types() {
    assert_eq!(bbp_type(0xBB3D, 0xBBDB), RDBType::Retail);
    assert_eq!(bbp_type(0x1527, 0xBBDB), RDBType::Emsmon);
    assert_eq!(bbp_type(0x1527, 0x0001), RDBType::Unknown);
    assert_eq!(bbp_type(0x1234, 0xBBDB), RDBType::Unknown);
}

#[test]
fn piecemeal_encoding() {
    assert_eq!(BBPlayer::send_piecemeal_data(&[1, 2, 3, 4]), vec![0x43, 1, 2, 3, 0x41, 4]);
    assert_eq!(BBPlayer::encode_piecemeal_data(&[]), Vec::<u8>::new());
    let chunks = BBPlayer::send_chunked_data(&[1, 2, 3, 4, 5], 5);
    assert_eq!(chunks, vec![vec![0x63, 3, 1, 2, 3], vec![0x63, 2, 4, 5]]);
}

#[test]
fn piecemeal_decoding() {
    assert_eq!(BBPlayer::decode_piecemeal_data(&[0x1F, 1, 2, 3, 0x1D, 4], 4), Ok(vec![1, 2, 3, 4]));
    assert_eq!(
        BBPlayer::decode_piecemeal_data(&[0x20, 1], 1),
        Err(LibBBRDBError::UnexpectedPiecemealChunkType(0x20))
    );
    assert_eq!(
        BBPlayer::decode_piecemeal_data(&[0x1F, 1], 3),
        Err(LibBBRDBError::PiecemealChunkTooShort(0x1F, 0x1D))
    );
    assert_eq!(BBPlayer::decode_piecemeal_data(&[0x1F, 1, 2, 3], 2), Err(LibBBRDBError::TransferLength(2, 3)));
}

#[test]
fn ready_and_length_replies() {
    assert_eq!(BBPlayer::wait_ready(&[0x15, 0, 0, 0]), Ok(true));
    assert_eq!(BBPlayer::wait_ready(&[0x16, 0, 0, 0]), Ok(false));
    assert_eq!(BBPlayer::wait_ready(&[0x15]), Err(LibBBRDBError::TransferLength(4, 1)));
    assert_eq!(BBPlayer::receive_unknown_reply(&[0x15, 0, 0, 0]), Ok(None));
    assert_eq!(BBPlayer::receive_unknown_reply(&[0x1B, 0, 1, 2]), Ok(Some(0x102)));
    assert_eq!(
        BBPlayer::receive_unknown_reply(&[0x1C, 0, 1, 2]),
        Err(LibBBRDBError::IncorrectDataLengthReply(Some(0x1C), 4))
    );
    assert_eq!(BBPlayer::receive_reply(8, &[0x1B, 0, 0, 8]), Ok(Some(8)));
    assert_eq!(BBPlayer::receive_reply(8, &[0x1B, 0, 0, 9]), Err(LibBBRDBError::InvalidReplyLength(8, 9)));
    assert_eq!(BBPlayer::receive_reply(8, &[0x1B, 0, 0, 0]), Err(LibBBRDBError::InvalidReplyLength(8, 0)));
}

#[test]
fn retry_only_transport_errors() {
    assert!(LibBBRDBError::Timeout.should_retry(0));
    assert!(LibBBRDBError::WrongDataLength.should_retry(4));
    assert!(!LibBBRDBError::Timeout.should_retry(5));
    assert!(!LibBBRDBError::CardError(CardError::NotFound).should_retry(0));
}

#[test]
fn piecemeal_command() {
    assert_eq!(
        BBPlayer::send_command(0x1D, 4),
        vec![0x43, 0, 0, 0, 0x43, 0x1D, 0, 0, 0x42, 0, 4]
    );
    assert_eq!(BBPlayer::send_ack(), vec![0x44]);
}

#[test]
fn dump_records_bad_blocks_and_zeros() {
    let n = vec![7u8; 0x4000];
    let s = vec![0xF0u8; 0x10];
    assert_eq!(dump_block(Ok((n.clone(), s.clone()))), (n.clone(), s.clone()));
    let bad = Err(LibBBRDBError::CardError(CardError::BadBlock(n.clone(), s.clone())));
    assert_eq!(dump_block(bad), (n, s));
    assert_eq!(dump_block(Err(LibBBRDBError::Timeout)), (vec![0u8; 0x4000], vec![0u8; 0x10]));
}
