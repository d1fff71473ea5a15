use idevice::afc::{
    check_reply, file_descriptor, parse_device_info, parse_file_info, payload_strings, AfcClient,
    AfcError, AfcOpcode, AfcPacketHeader, HEADER_LEN, MAGIC,
};

fn status_header() -> AfcPacketHeader {
    AfcPacketHeader {
        magic: MAGIC,
        entire_len: 48,
        header_payload_len: 48,
        packet_num: 0,
        operation: AfcOpcode::Status,
    }
}

#[test]
fn requests_are_numbered_in_order() {
    let mut client = AfcClient::new();
    let first = client.list_dir_request("/var");
    assert_eq!(first.header.magic, MAGIC);
    assert_eq!(first.header.packet_num, 0);
    assert_eq!(first.header.operation, AfcOpcode::ReadDir);
    assert_eq!(first.header_payload, b"/var".to_vec());
    assert_eq!(first.header.entire_len, 4 + HEADER_LEN);
    assert_eq!(first.header.header_payload_len, 4 + HEADER_LEN);
    assert!(first.payload.is_empty());
    let second = client.get_device_info_request();
    assert_eq!(second.header.packet_num, 1);
    assert_eq!(second.header.entire_len, HEADER_LEN);
    assert_eq!(second.header.operation, AfcOpcode::GetDevInfo);
}

#[test]
fn open_link_and_rename_payloads() {
    let mut client = AfcClient::new();
    let open = client.open_request("/f", 3);
    assert_eq!(open.header_payload, vec![3, 0, 0, 0, 0, 0, 0, 0, b'/', b'f']);
    assert_eq!(open.header.operation, AfcOpcode::FileOpen);
    let link = client.link_request("t", "s", 2);
    assert_eq!(link.header_payload, vec![2, 0, 0, 0, 0, 0, 0, 0, b't', 0, b's', 0]);
    assert_eq!(link.header.packet_num, 1);
    let rename = client.rename_request("a", "bc");
    assert_eq!(rename.header_payload, vec![b'a', 0, b'b', b'c', 0]);
    assert_eq!(rename.header.operation, AfcOpcode::RenamePath);
}

#[test]
fn splits_reply_payloads_on_nul() {
    assert_eq!(payload_strings(b"a\0\0bc\0"), vec!["a".to_string(), "bc".to_string()]);
    assert_eq!(payload_strings(b""), Vec::<String>::new());
    assert_eq!(payload_strings(b"x"), vec!["x".to_string()]);
    assert_eq!(payload_strings(b"\xff\0"), vec!["\u{fffd}".to_string()]);
}

#[test]
fn status_replies() {
    let h = status_header();
    assert_eq!(check_reply(&h, &[0; 8]), Ok(()));
    assert_eq!(check_reply(&h, &[7, 0, 0, 0, 0, 0, 0, 0]), Err(AfcError::Status(7)));
    assert_eq!(check_reply(&h, &[0; 4]), Err(AfcError::StatusTooShort));
    let mut other = h;
    other.operation = AfcOpcode::ReadDir;
    assert_eq!(check_reply(&other, &[]), Ok(()));
}

#[test]
fn file_descriptors() {
    assert_eq!(file_descriptor(&[5, 1, 0, 0, 0, 0, 0, 0, 9]), Ok(261));
    assert_eq!(file_descriptor(&[5]), Err(AfcError::FileDescriptorTooShort));
}

#[test]
fn parses_file_info() {
    let payload = b"st_size\x0012\x00st_blocks\x008\x00st_nlink\x001\x00st_ifmt\x00S_IFLNK\x00st_mtime\x00-5\x00st_birthtime\x00+7\x00LinkTarget\x00/x\x00";
    let info = parse_file_info(payload).unwrap();
    assert_eq!(info.size, 12);
    assert_eq!(info.blocks, 8);
    assert_eq!(info.creation.and_utc().timestamp_nanos_opt(), Some(7));
    assert_eq!(info.modified.and_utc().timestamp_nanos_opt(), Some(-5));
    assert_eq!(info.creation.to_string(), "1970-01-01 00:00:00.000000007");
    let copy = info.clone();
    assert_eq!(copy.creation, info.creation);
    assert_eq!(copy.st_link_target, info.st_link_target);
    assert_eq!(info.st_nlink, "1");
    assert_eq!(info.st_ifmt, "S_IFLNK");
    assert_eq!(info.st_link_target, Some("/x".to_string()));
}

#[test]
fn later_attributes_win_and_link_target_falls_back() {
    let payload = b"st_size\x001\x00st_size\x002\x00st_blocks\x000\x00st_nlink\x001\x00st_ifmt\x00S_IFREG\x00st_mtime\x000\x00st_birthtime\x000\x00st_link_target\x00t\x00odd";
    let info = parse_file_info(payload).unwrap();
    assert_eq!(info.size, 2);
    assert_eq!(info.st_link_target, Some("t".to_string()));
}

#[test]
fn file_info_needs_every_attribute() {
    let payload = b"st_size\x00x\x00st_blocks\x000\x00st_nlink\x001\x00st_ifmt\x00S_IFREG\x00st_mtime\x000\x00st_birthtime\x000\x00";
    assert_eq!(parse_file_info(payload).err(), Some(AfcError::MissingAttribute));
    assert_eq!(parse_file_info(b"").err(), Some(AfcError::MissingAttribute));
}

#[test]
fn parses_device_info() {
    let payload = b"Model\x00iPhone1,1\x00FSTotalBytes\x001000\x00FSFreeBytes\x00400\x00FSBlockSize\x004096\x00";
    let info = parse_device_info(payload).unwrap();
    assert_eq!(info.model, "iPhone1,1");
    assert_eq!(info.total_bytes, 1000);
    assert_eq!(info.free_bytes, 400);
    assert_eq!(info.block_size, 4096);
    assert_eq!(
        parse_device_info(b"Model\x00m\x00").err(),
        Some(AfcError::MissingAttribute)
    );
}

#[test]
fn service_names() {
    assert_eq!(AfcClient::service_name(), "com.apple.afc");
    assert_eq!(AfcClient::afc2_service_name(), "com.apple.afc2");
    assert_eq!(AfcClient::rsd_service_name(), "com.apple.afc.shim.remote");
}

#[test]
fn numbers_in_file_info_must_fit() {
    let fits = b"st_size\x0018446744073709551615\x00st_blocks\x00+0\x00st_nlink\x001\x00st_ifmt\x00S_IFREG\x00st_mtime\x00-9223372036854775808\x00st_birthtime\x009223372036854775807\x00";
    let info = parse_file_info(fits).unwrap();
    assert_eq!(info.size, usize::MAX);
    assert_eq!(info.blocks, 0);
    assert_eq!(info.modified.and_utc().timestamp_nanos_opt(), Some(i64::MIN));
    assert_eq!(info.creation.and_utc().timestamp_nanos_opt(), Some(i64::MAX));
    let too_big = b"st_size\x0018446744073709551616\x00st_blocks\x000\x00st_nlink\x001\x00st_ifmt\x00S_IFREG\x00st_mtime\x000\x00st_birthtime\x000\x00";
    assert_eq!(parse_file_info(too_big).err(), Some(AfcError::MissingAttribute));
    let too_small = b"st_size\x001\x00st_blocks\x000\x00st_nlink\x001\x00st_ifmt\x00S_IFREG\x00st_mtime\x00-9223372036854775809\x00st_birthtime\x000\x00";
    assert_eq!(parse_file_info(too_small).err(), Some(AfcError::MissingAttribute));
    let bare_sign = b"st_size\x00+\x00st_blocks\x000\x00st_nlink\x001\x00st_ifmt\x00S_IFREG\x00st_mtime\x000\x00st_birthtime\x000\x00";
    assert_eq!(parse_file_info(bare_sign).err(), Some(AfcError::MissingAttribute));
    let minus_size = b"st_size\x00-1\x00st_blocks\x000\x00st_nlink\x001\x00st_ifmt\x00S_IFREG\x00st_mtime\x000\x00st_birthtime\x000\x00";
    assert_eq!(parse_file_info(minus_size).err(), Some(AfcError::MissingAttribute));
}
