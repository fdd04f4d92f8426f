//! The codec laws on concrete values, and the flash image helpers.

use tock_bootloader::attributes::{write_attribute, write_flags};
use tock_bootloader::protocol::{
    BaudMode, Command, CommandDecoder, CommandEncoder, Encoder, Error, Response, ResponseDecoder, ResponseEncoder,
};

fn encode_cmd(c: &Command) -> Vec<u8> {
    let mut e = CommandEncoder::new(c).unwrap();
    let mut buf = [0u8; 2048];
    let n = e.write(&mut buf);
    assert_eq!(e.next(), None);
    buf[..n].to_vec()
}

fn decode_cmd(bytes: &[u8]) -> Command {
    let mut d = CommandDecoder::new();
    for &b in &bytes[..bytes.len() - 1] {
        assert_eq!(d.receive(b), Ok(None));
    }
    d.receive(bytes[bytes.len() - 1]).unwrap().unwrap()
}

#[test]
fn commands_round_trip() {
    let page: Vec<u8> = (0..512).map(|i| if i % 3 == 0 { 0xFC } else { i as u8 }).collect();
    let ext: Vec<u8> = vec![0xFC; 256];
    let cmds = vec![
        Command::Ping,
        Command::Info,
        Command::Id,
        Command::Reset,
        Command::ErasePage { address: 0xFCFC_FCFC },
        Command::WritePage { address: 0x0001_00FC, data: page },
        Command::EraseExBlock { address: 7 },
        Command::WriteExPage { address: 0xFC, data: ext },
        Command::CrcRxBuffer,
        Command::ReadRange { address: 0x1FE, length: 0xFCFC },
        Command::ExReadRange { address: 1, length: 2 },
        Command::SetAttr { index: 15, key: vec![0xFC; 8], value: vec![0xFC; 55] },
        Command::SetAttr { index: 0, key: b"board\0\0\0".to_vec(), value: vec![] },
        Command::GetAttr { index: 0 },
        Command::CrcIntFlash { address: 0, length: 1024 },
        Command::CrcExtFlash { address: 0xFC, length: 0xFC00 },
        Command::EraseExPage { address: 9 },
        Command::ExtFlashInit,
        Command::ClockOut,
        Command::WriteFlashUserPages { page1: 1, page2: 0xFC },
        Command::ChangeBaud { mode: BaudMode::SetRate, baud: 115200 },
        Command::ChangeBaud { mode: BaudMode::Verify, baud: 0xFC },
        Command::Exit,
        Command::SetStartAddress { address: 0x0004_0000 },
    ];
    for c in cmds {
        assert_eq!(decode_cmd(&encode_cmd(&c)), c);
    }
}

#[test]
fn inadmissible_commands_are_refused() {
    let short = Command::WritePage { address: 0, data: vec![0; 4] };
    assert_eq!(CommandEncoder::new(&short).err(), Some(Error::BadArguments));
    let long_value = Command::SetAttr { index: 1, key: vec![0; 8], value: vec![0; 56] };
    assert_eq!(CommandEncoder::new(&long_value).err(), Some(Error::BadArguments));
    let short_key = Command::SetAttr { index: 1, key: vec![0; 7], value: vec![] };
    assert_eq!(CommandEncoder::new(&short_key).err(), Some(Error::BadArguments));
}

#[test]
fn escape_transparency() {
    // A payload of nothing but escape bytes comes out as it went in.
    let data = vec![0xFCu8; 512];
    let c = Command::WritePage { address: 0xFCFC_FCFC, data: data.clone() };
    let wire = encode_cmd(&c);
    assert_eq!(wire.len(), 2 * 516 + 2);
    match decode_cmd(&wire) {
        Command::WritePage { address, data: got } => {
            assert_eq!(address, 0xFCFC_FCFC);
            assert_eq!(got, data);
        }
        other => panic!("Did not expect: {:?}", other),
    }
}

#[test]
fn decoder_errors() {
    let mut d = CommandDecoder::new();
    assert_eq!(d.read(&[1, 2, 0xFC, 0x06], |_| {}), Err(Error::BadArguments));
    assert_eq!(d.read(&[0xFC, 0x30], |_| {}), Err(Error::UnknownCommand));
    assert_eq!(d.read(&[5, 0, 0, 0, 0, 0xFC, 0x21], |_| {}), Err(Error::BadArguments));
    assert_eq!(d.read(&[2, 8, 0, 0, 0, 0, 0, 0, 0, 56, 0xFC, 0x13], |_| {}), Err(Error::BadArguments));
    assert_eq!(d.read(&[0xFC, 0x01], |_| {}), Ok(()));
}

fn encode_rsp(r: &Response) -> Vec<u8> {
    let mut e = ResponseEncoder::new(r).unwrap();
    let mut out = Vec::new();
    while let Some(b) = e.next() {
        out.push(b);
    }
    out
}

#[test]
fn responses_round_trip() {
    let rsps = vec![
        Response::Overflow,
        Response::Pong,
        Response::BadAddress,
        Response::InternalError,
        Response::BadArguments,
        Response::Okay,
        Response::Unknown,
        Response::ExtFlashTimeout,
        Response::ExtFlashPageError,
        Response::ChangeBaudFail,
        Response::CrcRxBuffer { length: 0xFCFC, crc: 0xFC00_00FC },
        Response::GetAttr { key: vec![0xFC; 8], value: vec![0xFC, 1, 0xFC] },
        Response::CrcIntFlash { crc: 0xFCFC_FCFC },
        Response::CrcExtFlash { crc: 1 },
        Response::Info { info: b"{\"version\":\"1\"}".to_vec() },
    ];
    for r in rsps {
        let wire = encode_rsp(&r);
        let mut d = ResponseDecoder::new();
        for &b in &wire[..wire.len() - 1] {
            assert_eq!(d.receive(b), Ok(None));
        }
        assert_eq!(d.receive(wire[wire.len() - 1]), Ok(Some(r)));
    }
    let data = vec![0xFC, 0, 0xFC, 0xFC, 9];
    let r = Response::ReadRange { data: data.clone() };
    let wire = encode_rsp(&r);
    let mut d = ResponseDecoder::new();
    d.set_payload_len(data.len()).unwrap();
    assert_eq!(d.set_payload_len(3), Err(Error::SetLength));
    for &b in &wire[..wire.len() - 1] {
        assert_eq!(d.receive(b), Ok(None));
    }
    assert_eq!(d.receive(wire[wire.len() - 1]), Ok(Some(Response::ReadRange { data })));
}

#[test]
fn response_decoder_errors() {
    let mut d = ResponseDecoder::new();
    assert_eq!(d.receive(0xFC), Ok(None));
    assert_eq!(d.receive(0x20), Err(Error::UnsetLength));
    let info = Response::Info { info: vec![0; 193] };
    assert_eq!(ResponseEncoder::new(&info).err(), Some(Error::BadArguments));
    let attr = Response::GetAttr { key: vec![0; 8], value: vec![0; 56] };
    assert_eq!(ResponseEncoder::new(&attr).err(), Some(Error::BadArguments));
}

#[test]
fn flags_region_bytes() {
    let mut out = vec![0xEE];
    write_flags(&mut out, b"1.2.3");
    assert_eq!(out.len(), 1 + 512);
    assert_eq!(&out[1..15], b"TOCKBOOTLOADER");
    assert_eq!(&out[15..23], b"1.2.3\0\0\0");
    assert!(out[23..].iter().all(|&x| x == 0));
    let mut long = Vec::new();
    write_flags(&mut long, b"123456789");
    assert_eq!(&long[14..22], b"12345678");
    assert_eq!(long[22], 0);
}

#[test]
fn attribute_slot_bytes() {
    let mut out = Vec::new();
    assert_eq!(write_attribute(&mut out, b"board", b"hail"), Ok(()));
    assert_eq!(out.len(), 64);
    assert_eq!(&out[0..8], b"board\0\0\0");
    assert_eq!(out[8], 4);
    assert_eq!(&out[9..13], b"hail");
    assert!(out[13..].iter().all(|&x| x == 0));
    let mut none = Vec::new();
    assert_eq!(write_attribute(&mut none, b"k", &[1u8; 56]), Err(Error::BadArguments));
    assert!(none.is_empty());
}

#[test]
fn empty_read_range_round_trips() {
    let r = Response::ReadRange { data: vec![] };
    let wire = encode_rsp(&r);
    assert_eq!(wire, vec![0xFC, 0x20]);
    let mut d = ResponseDecoder::new();
    d.set_payload_len(0).unwrap();
    assert_eq!(d.receive(wire[0]), Ok(None));
    assert_eq!(d.receive(wire[1]), Ok(Some(r)));
}

#[test]
fn encoder_trait_writes_in_pieces() {
    let r = Response::Pong;
    let mut e = ResponseEncoder::new(&r).unwrap();
    let mut buffer = [0xFFu8; 4];
    assert_eq!(Encoder::write(&mut e, &mut buffer), 2);
    assert_eq!(buffer, [0xFC, 0x11, 0xFF, 0xFF]);
    Encoder::reset(&mut e);
    assert_eq!(Encoder::write(&mut e, &mut buffer[0..1]), 1);
    assert_eq!(buffer[0], 0xFC);
    assert_eq!(Encoder::write(&mut e, &mut buffer[0..1]), 1);
    assert_eq!(buffer[0], 0x11);
    assert_eq!(Encoder::write(&mut e, &mut buffer[0..1]), 0);
}
