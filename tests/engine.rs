//! The request engine, driven through its completions.

use tock_bootloader::crc::crc32_of;
use tock_bootloader::engine::{Action, Bootloader, Layout, State};
use tock_bootloader::protocol::{Command, CommandEncoder, Response, ResponseDecoder};

const ESC: u8 = 0xFC;

fn layout() -> Layout {
    Layout {
        page_size: 512,
        flags_address: 0x400,
        attributes_address: 0x600,
        bootloader_address: 0x0000,
        bootloader_end_address: 0x8000,
    }
}

fn engine() -> Bootloader {
    let mut b = Bootloader::new(layout());
    assert_eq!(b.start(), Action::Receive);
    b
}

fn wire(cmd: &Command) -> Vec<u8> {
    let mut e = CommandEncoder::new(cmd).unwrap();
    let mut out = Vec::new();
    while let Some(b) = e.next() {
        out.push(b);
    }
    out
}

fn transmitted(a: Action) -> Vec<u8> {
    match a {
        Action::Transmit { data } => data,
        other => panic!("expected a transmit, got {:?}", other),
    }
}

fn unescape(s: &[u8]) -> Vec<u8> {
    let mut out = Vec::new();
    let mut i = 0;
    while i < s.len() {
        out.push(s[i]);
        if s[i] == ESC {
            assert_eq!(s[i + 1], ESC);
            i += 1;
        }
        i += 1;
    }
    out
}

#[test]
fn ping_replies_pong() {
    let mut b = engine();
    assert_eq!(b.received_buffer(&[ESC, 0x01], true), Action::Transmit { data: vec![ESC, 0x11] });
    assert_eq!(b.transmitted_buffer(true), Action::Receive);
    assert_eq!(b.state(), State::Idle);
}

#[test]
fn bad_write_size_replies_badargs() {
    let mut b = engine();
    let rx = [0x00, 0x00, 0x01, 0x00, 1, 2, 3, 4, ESC, 0x07];
    assert_eq!(b.received_buffer(&rx, true), Action::Transmit { data: vec![ESC, 0x14] });
}

#[test]
fn self_write_is_blocked() {
    let mut b = engine();
    let data: Vec<u8> = (0..512).map(|i| i as u8).collect();
    let rx = wire(&Command::WritePage { address: 0x4000, data });
    assert_eq!(b.received_buffer(&rx, true), Action::Transmit { data: vec![ESC, 0x12] });
    assert_eq!(b.state(), State::Idle);
}

#[test]
fn write_outside_bootloader_reaches_flash() {
    let mut b = engine();
    let data: Vec<u8> = (0..512).map(|i| (i * 7) as u8).collect();
    let rx = wire(&Command::WritePage { address: 0x10000, data: data.clone() });
    assert_eq!(b.received_buffer(&rx, true), Action::WritePage { page: 0x80, data });
    assert_eq!(b.write_complete(true), Action::Transmit { data: vec![ESC, 0x15] });
    assert_eq!(b.transmitted_buffer(true), Action::Receive);
}

#[test]
fn attribute_read_modify_write() {
    let mut b = engine();
    let set = Command::SetAttr { index: 2, key: b"board\0\0\0".to_vec(), value: b"hail".to_vec() };
    // Slot 2 is at 0x600 + 128 = 0x680: page 3, offset 128.
    assert_eq!(b.received_buffer(&wire(&set), true), Action::ReadPage { page: 3 });
    let old_page = vec![0xAAu8; 512];
    let written = match b.read_complete(&old_page, true) {
        Action::WritePage { page, data } => {
            assert_eq!(page, 3);
            data
        }
        other => panic!("expected a page write, got {:?}", other),
    };
    // Only the 64 bytes of slot 2 changed.
    for k in 0..512 {
        if !(128..192).contains(&k) {
            assert_eq!(written[k], 0xAA);
        }
    }
    assert_eq!(b.write_complete(true), Action::Transmit { data: vec![ESC, 0x15] });
    assert_eq!(b.transmitted_buffer(true), Action::Receive);

    let get = Command::GetAttr { index: 2 };
    assert_eq!(b.received_buffer(&wire(&get), true), Action::ReadPage { page: 3 });
    let reply = transmitted(b.read_complete(&written, true));
    assert_eq!(&reply[0..2], &[ESC, 0x22]);
    let slot = unescape(&reply[2..]);
    assert_eq!(slot.len(), 64);
    assert_eq!(&slot[0..8], b"board\0\0\0");
    assert_eq!(slot[8], 0x04);
    assert_eq!(&slot[9..13], b"hail");
    assert!(slot[13..64].iter().all(|&x| x == 0));
}

#[test]
fn other_slots_read_back_unchanged() {
    let mut b = engine();
    let mut page: Vec<u8> = (0..512).map(|i| (i % 251) as u8).collect();
    page[200] = ESC;
    let get3 = Command::GetAttr { index: 3 };
    assert_eq!(b.received_buffer(&wire(&get3), true), Action::ReadPage { page: 3 });
    let before = transmitted(b.read_complete(&page, true));
    b.transmitted_buffer(true);

    let set = Command::SetAttr { index: 2, key: b"name\0\0\0\0".to_vec(), value: vec![ESC, 1, 2] };
    b.received_buffer(&wire(&set), true);
    let written = match b.read_complete(&page, true) {
        Action::WritePage { data, .. } => data,
        other => panic!("expected a page write, got {:?}", other),
    };
    b.write_complete(true);
    b.transmitted_buffer(true);

    b.received_buffer(&wire(&get3), true);
    let after = transmitted(b.read_complete(&written, true));
    assert_eq!(before, after);
    assert_eq!(unescape(&before[2..]), page[192..256].to_vec());
}

#[test]
fn read_range_over_page_boundary() {
    let mut b = engine();
    let page0: Vec<u8> = (0..512).map(|i| if i == 511 { ESC } else { (i % 200) as u8 }).collect();
    let page1: Vec<u8> = (0..512).map(|i| (i + 1) as u8).collect();
    let cmd = Command::ReadRange { address: 0x1FE, length: 6 };
    assert_eq!(b.received_buffer(&wire(&cmd), true), Action::ReadPage { page: 0 });
    let first = transmitted(b.read_complete(&page0, true));
    assert_eq!(first, vec![ESC, 0x20, page0[510], ESC, ESC]);
    assert_eq!(b.transmitted_buffer(true), Action::ReadPage { page: 1 });
    let second = transmitted(b.read_complete(&page1, true));
    // No header on later chunks.
    assert_eq!(second, vec![1, 2, 3, 4]);
    assert_eq!(b.transmitted_buffer(true), Action::Receive);
    let mut payload = unescape(&first[2..]);
    payload.extend(unescape(&second));
    assert_eq!(payload.len(), 6);
}

fn test_flash() -> Vec<u8> {
    (0..1024).map(|i| if (i / 256) % 2 == 0 { (i % 256) as u8 } else { (255 - i % 256) as u8 }).collect()
}

fn run_crc(b: &mut Bootloader, flash: &[u8], address: u32, length: u32) -> Vec<u8> {
    let cmd = Command::CrcIntFlash { address, length };
    let mut action = b.received_buffer(&wire(&cmd), true);
    loop {
        match action {
            Action::ReadPage { page } => {
                action = b.read_complete(&flash[page * 512..page * 512 + 512], true);
            }
            Action::Transmit { data } => {
                assert_eq!(b.transmitted_buffer(true), Action::Receive);
                return data;
            }
            other => panic!("unexpected {:?}", other),
        }
    }
}

#[test]
fn crc_idempotence() {
    let flash = test_flash();
    let mut b = engine();
    let first = run_crc(&mut b, &flash, 0, 1024);
    let second = run_crc(&mut b, &flash, 0, 1024);
    assert_eq!(first, second);
    assert_eq!(unescape(&first[2..]).len(), 4);
    assert_eq!(&first[0..2], &[ESC, 0x23]);
}

#[test]
fn crc_agrees_with_crc32_of_range() {
    let flash = test_flash();
    let mut b = engine();
    let reply = run_crc(&mut b, &flash, 0x1F0, 0x30);
    let crc = crc32_of(&flash[0x1F0..0x220]);
    assert_eq!(unescape(&reply[2..]), crc.to_le_bytes().to_vec());
    let whole = run_crc(&mut b, &flash, 0, 1024);
    assert_eq!(unescape(&whole[2..]), crc32_of(&flash).to_le_bytes().to_vec());
}

#[test]
fn crc_of_empty_range_is_zero() {
    let flash = test_flash();
    let mut b = engine();
    let reply = run_crc(&mut b, &flash, 0x100, 0);
    assert_eq!(reply, vec![ESC, 0x23, 0, 0, 0, 0]);
}

#[test]
fn crc32_check_value() {
    assert_eq!(crc32_of(b"123456789"), 0xCBF4_3926);
    assert_eq!(crc32_of(b""), 0);
}

#[test]
fn info_reply() {
    let mut b = engine();
    let mut page = vec![0u8; 512];
    page[0..14].copy_from_slice(b"TOCKBOOTLOADER");
    page[14..19].copy_from_slice(b"1.1.0");
    page[32..36].copy_from_slice(&0x0001_0000u32.to_le_bytes());
    assert_eq!(b.received_buffer(&[ESC, 0x03], true), Action::ReadPage { page: 2 });
    let frame = transmitted(b.read_complete(&page, true));
    let json = br#"{"version":"1.1.0", "start_address":"0x00010000", "name":"Tock Bootloader"}"#;
    assert_eq!(frame.len(), 195);
    assert_eq!(&frame[0..2], &[ESC, 0x25]);
    assert_eq!(frame[2] as usize, json.len());
    assert_eq!(&frame[3..3 + json.len()], &json[..]);
    assert!(frame[3 + json.len()..].iter().all(|&x| x == 0));
}

#[test]
fn info_hex_digits_are_upper_case() {
    let mut b = engine();
    let mut page = vec![0u8; 512];
    page[14..22].copy_from_slice(b"12345678");
    page[32..36].copy_from_slice(&0xDEAD_BEEFu32.to_le_bytes());
    b.received_buffer(&[ESC, 0x03], true);
    let frame = transmitted(b.read_complete(&page, true));
    let json = br#"{"version":"12345678", "start_address":"0xDEADBEEF", "name":"Tock Bootloader"}"#;
    assert_eq!(&frame[3..3 + json.len()], &json[..]);
}

#[test]
fn set_start_address_rewrites_four_bytes() {
    let mut b = engine();
    let cmd = Command::SetStartAddress { address: 0x0004_0000 };
    assert_eq!(b.received_buffer(&wire(&cmd), true), Action::ReadPage { page: 2 });
    let page = vec![0x11u8; 512];
    match b.read_complete(&page, true) {
        Action::WritePage { page: p, data } => {
            assert_eq!(p, 2);
            assert_eq!(&data[32..36], &[0x00, 0x00, 0x04, 0x00]);
            assert!(data[..32].iter().all(|&x| x == 0x11));
            assert!(data[36..].iter().all(|&x| x == 0x11));
        }
        other => panic!("expected a page write, got {:?}", other),
    }
    assert_eq!(b.write_complete(true), Action::Transmit { data: vec![ESC, 0x15] });
}

#[test]
fn erase_page_replies_ok() {
    let mut b = engine();
    let cmd = Command::ErasePage { address: 0x10000 };
    assert_eq!(b.received_buffer(&wire(&cmd), true), Action::ErasePage { page: 0x80 });
    assert_eq!(b.erase_complete(true), Action::Transmit { data: vec![ESC, 0x15] });
}

#[test]
fn failed_flash_operations_reply_internal_error() {
    let mut b = engine();
    b.received_buffer(&[ESC, 0x03], true);
    assert_eq!(b.read_complete(&[0u8; 512], false), Action::Transmit { data: vec![ESC, 0x13] });
    b.transmitted_buffer(true);
    let cmd = Command::ErasePage { address: 0x10000 };
    b.received_buffer(&wire(&cmd), true);
    assert_eq!(b.erase_complete(false), Action::Transmit { data: vec![ESC, 0x13] });
}

#[test]
fn unknown_and_malformed_commands() {
    let mut b = engine();
    // A command the bootloader does not serve.
    assert_eq!(b.received_buffer(&[ESC, 0x04], true), Action::Transmit { data: vec![ESC, 0x16] });
    b.transmitted_buffer(true);
    // An opcode outside the protocol.
    assert_eq!(b.received_buffer(&[ESC, 0x30], true), Action::Transmit { data: vec![ESC, 0x16] });
    b.transmitted_buffer(true);
    // An erase with three address bytes.
    assert_eq!(b.received_buffer(&[1, 2, 3, ESC, 0x06], true), Action::Transmit { data: vec![ESC, 0x14] });
}

#[test]
fn reset_mid_chunk_continues_parsing() {
    let mut b = engine();
    assert_eq!(b.received_buffer(&[9, 9, ESC, 0x05, ESC, 0x01], true), Action::Transmit { data: vec![ESC, 0x11] });
}

#[test]
fn reset_or_partial_chunk_rearms_receive() {
    let mut b = engine();
    assert_eq!(b.received_buffer(&[ESC, 0x05], true), Action::Receive);
    assert_eq!(b.received_buffer(&[1, 2, 3], true), Action::Receive);
    assert_eq!(b.received_buffer(&[ESC, 0x01], false), Action::Receive);
}

#[test]
fn exit_resets_the_chip() {
    let mut b = engine();
    assert_eq!(b.received_buffer(&[ESC, 0x22], true), Action::ResetChip);
}

#[test]
fn completions_out_of_turn_are_ignored() {
    let mut b = engine();
    assert_eq!(b.transmitted_buffer(true), Action::Wait);
    assert_eq!(b.read_complete(&[0u8; 512], true), Action::Wait);
    assert_eq!(b.write_complete(true), Action::Wait);
    assert_eq!(b.erase_complete(true), Action::Wait);
    b.received_buffer(&[ESC, 0x01], true);
    assert_eq!(b.received_buffer(&[ESC, 0x01], true), Action::Wait);
}

#[test]
fn transmit_failure_rearms_receive() {
    let mut b = engine();
    b.received_buffer(&[ESC, 0x01], true);
    assert_eq!(b.transmitted_buffer(false), Action::Receive);
    assert_eq!(b.state(), State::Idle);
}

#[test]
fn crc_reply_escapes_its_bytes() {
    let flash = test_flash();
    // Find a range whose CRC holds an escape byte.
    let mut found = None;
    'search: for start in 0..64usize {
        for len in 1..64usize {
            let crc = crc32_of(&flash[start..start + len]);
            if crc.to_le_bytes().contains(&ESC) {
                found = Some((start, len, crc));
                break 'search;
            }
        }
    }
    let (start, len, crc) = found.unwrap();
    let mut b = engine();
    let reply = run_crc(&mut b, &flash, start as u32, len as u32);
    assert!(reply.len() > 6);
    let mut d = ResponseDecoder::new();
    for &x in &reply[..reply.len() - 1] {
        assert_eq!(d.receive(x), Ok(None));
    }
    assert_eq!(d.receive(reply[reply.len() - 1]), Ok(Some(Response::CrcIntFlash { crc })));
}
