//! The framed wire protocol between a flashing host and the bootloader.
//!
//! A message is a payload followed by `ESCAPE_CHAR, opcode` (commands) or
//! `ESCAPE_CHAR, code` followed by a body (responses). A literal
//! `ESCAPE_CHAR` inside a payload or body is sent twice.
use vstd::prelude::*;

use crate::bytes::{le_u16, le_u32, read_u16, read_u32, u16_le_bytes, u32_le_bytes};
use crate::bytes::{lemma_le_u16_round_trip, lemma_le_u32_round_trip};

verus! {

/// Delimits frames; doubled when it stands for itself inside a payload.
pub const ESCAPE_CHAR: u8 = 0xFC;

pub const CMD_PING: u8 = 0x01;
pub const CMD_INFO: u8 = 0x03;
pub const CMD_ID: u8 = 0x04;
pub const CMD_RESET: u8 = 0x05;
pub const CMD_EPAGE: u8 = 0x06;
pub const CMD_WPAGE: u8 = 0x07;
pub const CMD_XEBLOCK: u8 = 0x08;
pub const CMD_XWPAGE: u8 = 0x09;
pub const CMD_CRCRX: u8 = 0x10;
pub const CMD_RRANGE: u8 = 0x11;
pub const CMD_XRRANGE: u8 = 0x12;
pub const CMD_SATTR: u8 = 0x13;
pub const CMD_GATTR: u8 = 0x14;
pub const CMD_CRCIF: u8 = 0x15;
pub const CMD_CRCEF: u8 = 0x16;
pub const CMD_XEPAGE: u8 = 0x17;
pub const CMD_XFINIT: u8 = 0x18;
pub const CMD_CLKOUT: u8 = 0x19;
pub const CMD_WUSER: u8 = 0x20;
pub const CMD_CHANGE_BAUD: u8 = 0x21;
pub const CMD_EXIT: u8 = 0x22;
pub const CMD_SET_START_ADDRESS: u8 = 0x23;

pub const RES_OVERFLOW: u8 = 0x10;
pub const RES_PONG: u8 = 0x11;
pub const RES_BADADDR: u8 = 0x12;
pub const RES_INTERROR: u8 = 0x13;
pub const RES_BADARGS: u8 = 0x14;
pub const RES_OK: u8 = 0x15;
pub const RES_UNKNOWN: u8 = 0x16;
pub const RES_XFTIMEOUT: u8 = 0x17;
pub const RES_XFEPE: u8 = 0x18;
pub const RES_CRCRX: u8 = 0x19;
pub const RES_RRANGE: u8 = 0x20;
pub const RES_XRRANGE: u8 = 0x21;
pub const RES_GATTR: u8 = 0x22;
pub const RES_CRCIF: u8 = 0x23;
pub const RES_CRCXF: u8 = 0x24;
pub const RES_INFO: u8 = 0x25;
pub const RES_CHANGE_BAUD_FAIL: u8 = 0x26;

/// Number of attribute slots; an attribute index is below this.
pub const MAX_INDEX: u8 = 16;
/// Length of an attribute key.
pub const KEY_LEN: usize = 8;
/// Longest attribute value.
pub const MAX_ATTR_LEN: usize = 55;
/// Size of an internal flash page as the protocol sees it.
pub const INT_PAGE_SIZE: usize = 512;
/// Size of an external flash page.
pub const EXT_PAGE_SIZE: usize = 256;
/// Longest info string.
pub const MAX_INFO_LEN: usize = 192;
/// How many payload bytes a decoder holds at most; further bytes are dropped.
pub const BUFFER_LEN: usize = 4224;

/// Mode of a baud rate change.
#[derive(Debug, PartialEq, Eq, Clone, Copy, Structural)]
pub enum BaudMode {
    /// Switch to the new rate (sent as 0x01).
    SetRate,
    /// Confirm that the new rate works (sent as 0x02).
    Verify,
}

/// Errors of the decoders and encoders.
#[derive(Debug, PartialEq, Eq, Clone, Copy, Structural)]
pub enum Error {
    /// An opcode or response code outside the protocol.
    UnknownCommand,
    /// Arguments of the wrong length or out of range.
    BadArguments,
    /// A response of unbounded length arrived before `set_payload_len`.
    UnsetLength,
    /// `set_payload_len` was called while a length was already set.
    SetLength,
    /// The caller's buffer was too small.
    BufferTooSmall,
}

/// Commands from a host to the bootloader.
#[derive(Debug, PartialEq)]
#[allow(inconsistent_fields)]
pub enum Command {
    Ping,
    Info,
    Id,
    Reset,
    ErasePage { address: u32 },
    WritePage { address: u32, data: Vec<u8> },
    EraseExBlock { address: u32 },
    WriteExPage { address: u32, data: Vec<u8> },
    CrcRxBuffer,
    ReadRange { address: u32, length: u16 },
    ExReadRange { address: u32, length: u16 },
    SetAttr { index: u8, key: Vec<u8>, value: Vec<u8> },
    GetAttr { index: u8 },
    CrcIntFlash { address: u32, length: u32 },
    CrcExtFlash { address: u32, length: u32 },
    EraseExPage { address: u32 },
    ExtFlashInit,
    ClockOut,
    WriteFlashUserPages { page1: u32, page2: u32 },
    ChangeBaud { mode: BaudMode, baud: u32 },
    Exit,
    SetStartAddress { address: u32 },
}

/// A command as a mathematical value.
#[allow(inconsistent_fields)]
pub ghost enum CommandView {
    Ping,
    Info,
    Id,
    Reset,
    ErasePage { address: u32 },
    WritePage { address: u32, data: Seq<u8> },
    EraseExBlock { address: u32 },
    WriteExPage { address: u32, data: Seq<u8> },
    CrcRxBuffer,
    ReadRange { address: u32, length: u16 },
    ExReadRange { address: u32, length: u16 },
    SetAttr { index: u8, key: Seq<u8>, value: Seq<u8> },
    GetAttr { index: u8 },
    CrcIntFlash { address: u32, length: u32 },
    CrcExtFlash { address: u32, length: u32 },
    EraseExPage { address: u32 },
    ExtFlashInit,
    ClockOut,
    WriteFlashUserPages { page1: u32, page2: u32 },
    ChangeBaud { mode: BaudMode, baud: u32 },
    Exit,
    SetStartAddress { address: u32 },
}

impl View for Command {
    type V = CommandView;

    open spec fn view(&self) -> CommandView {
        match self {
            Command::Ping => CommandView::Ping,
            Command::Info => CommandView::Info,
            Command::Id => CommandView::Id,
            Command::Reset => CommandView::Reset,
            Command::ErasePage { address } => CommandView::ErasePage { address: *address },
            Command::WritePage { address, data } => CommandView::WritePage { address: *address, data: data@ },
            Command::EraseExBlock { address } => CommandView::EraseExBlock { address: *address },
            Command::WriteExPage { address, data } => CommandView::WriteExPage { address: *address, data: data@ },
            Command::CrcRxBuffer => CommandView::CrcRxBuffer,
            Command::ReadRange { address, length } => CommandView::ReadRange { address: *address, length: *length },
            Command::ExReadRange { address, length } => CommandView::ExReadRange { address: *address, length: *length },
            Command::SetAttr { index, key, value } => CommandView::SetAttr { index: *index, key: key@, value: value@ },
            Command::GetAttr { index } => CommandView::GetAttr { index: *index },
            Command::CrcIntFlash { address, length } => CommandView::CrcIntFlash { address: *address, length: *length },
            Command::CrcExtFlash { address, length } => CommandView::CrcExtFlash { address: *address, length: *length },
            Command::EraseExPage { address } => CommandView::EraseExPage { address: *address },
            Command::ExtFlashInit => CommandView::ExtFlashInit,
            Command::ClockOut => CommandView::ClockOut,
            Command::WriteFlashUserPages { page1, page2 } => CommandView::WriteFlashUserPages { page1: *page1, page2: *page2 },
            Command::ChangeBaud { mode, baud } => CommandView::ChangeBaud { mode: *mode, baud: *baud },
            Command::Exit => CommandView::Exit,
            Command::SetStartAddress { address } => CommandView::SetStartAddress { address: *address },
        }
    }
}

/// What a decoder reports for one byte: nothing yet, a message, or an error.
pub open spec fn cmd_result_view(r: Result<Option<Command>, Error>) -> Result<Option<CommandView>, Error> {
    match r {
        Ok(Some(c)) => Ok(Some(c@)),
        Ok(None) => Ok(None),
        Err(e) => Err(e),
    }
}

/// Responses from the bootloader to a host.
#[derive(Debug, PartialEq)]
pub enum Response {
    Overflow,
    Pong,
    BadAddress,
    InternalError,
    BadArguments,
    Okay,
    Unknown,
    ExtFlashTimeout,
    ExtFlashPageError,
    CrcRxBuffer { length: u16, crc: u32 },
    ReadRange { data: Vec<u8> },
    ExReadRange { data: Vec<u8> },
    GetAttr { key: Vec<u8>, value: Vec<u8> },
    CrcIntFlash { crc: u32 },
    CrcExtFlash { crc: u32 },
    Info { info: Vec<u8> },
    ChangeBaudFail,
}

/// A response as a mathematical value.
pub ghost enum ResponseView {
    Overflow,
    Pong,
    BadAddress,
    InternalError,
    BadArguments,
    Okay,
    Unknown,
    ExtFlashTimeout,
    ExtFlashPageError,
    CrcRxBuffer { length: u16, crc: u32 },
    ReadRange { data: Seq<u8> },
    ExReadRange { data: Seq<u8> },
    GetAttr { key: Seq<u8>, value: Seq<u8> },
    CrcIntFlash { crc: u32 },
    CrcExtFlash { crc: u32 },
    Info { info: Seq<u8> },
    ChangeBaudFail,
}

impl View for Response {
    type V = ResponseView;

    open spec fn view(&self) -> ResponseView {
        match self {
            Response::Overflow => ResponseView::Overflow,
            Response::Pong => ResponseView::Pong,
            Response::BadAddress => ResponseView::BadAddress,
            Response::InternalError => ResponseView::InternalError,
            Response::BadArguments => ResponseView::BadArguments,
            Response::Okay => ResponseView::Okay,
            Response::Unknown => ResponseView::Unknown,
            Response::ExtFlashTimeout => ResponseView::ExtFlashTimeout,
            Response::ExtFlashPageError => ResponseView::ExtFlashPageError,
            Response::CrcRxBuffer { length, crc } => ResponseView::CrcRxBuffer { length: *length, crc: *crc },
            Response::ReadRange { data } => ResponseView::ReadRange { data: data@ },
            Response::ExReadRange { data } => ResponseView::ExReadRange { data: data@ },
            Response::GetAttr { key, value } => ResponseView::GetAttr { key: key@, value: value@ },
            Response::CrcIntFlash { crc } => ResponseView::CrcIntFlash { crc: *crc },
            Response::CrcExtFlash { crc } => ResponseView::CrcExtFlash { crc: *crc },
            Response::Info { info } => ResponseView::Info { info: info@ },
            Response::ChangeBaudFail => ResponseView::ChangeBaudFail,
        }
    }
}

/// What a response decoder reports for one byte.
pub open spec fn resp_result_view(r: Result<Option<Response>, Error>) -> Result<Option<ResponseView>, Error> {
    match r {
        Ok(Some(c)) => Ok(Some(c@)),
        Ok(None) => Ok(None),
        Err(e) => Err(e),
    }
}

// ---------------------------------------------------------------------------
// Framing
// ---------------------------------------------------------------------------

/// How one payload byte goes on the wire.
pub open spec fn escape_byte(b: u8) -> Seq<u8> {
    if b == ESCAPE_CHAR { seq![ESCAPE_CHAR, ESCAPE_CHAR] } else { seq![b] }
}

/// A payload as it goes on the wire: every `ESCAPE_CHAR` doubled.
pub open spec fn escape(s: Seq<u8>) -> Seq<u8>
    decreases s.len(),
{
    if s.len() == 0 { seq![] } else { escape(s.drop_last()) + escape_byte(s.last()) }
}

/// The unpadded `s` padded with zeros (or cut) to length `n`.
pub open spec fn pad(s: Seq<u8>, n: nat) -> Seq<u8> {
    Seq::new(n, |i: int| if i < s.len() { s[i] } else { 0u8 })
}

/// Escaping a concatenation escapes each part.
pub proof fn lemma_escape_append(a: Seq<u8>, b: Seq<u8>)
    ensures
        escape(a + b) == escape(a) + escape(b),
    decreases b.len(),
{
    if b.len() == 0 {
        assert(a + b =~= a);
        assert(escape(a) + escape(b) =~= escape(a));
    } else {
        let b0 = b.drop_last();
        lemma_escape_append(a, b0);
        assert((a + b).drop_last() =~= a + b0);
        assert((a + b).last() == b.last());
        assert(escape(a) + escape(b0) + escape_byte(b.last()) =~= escape(a) + (escape(b0) + escape_byte(b.last())));
    }
}

// ---------------------------------------------------------------------------
// Commands on the wire
// ---------------------------------------------------------------------------

/// The opcode that ends a command.
pub open spec fn command_opcode(c: CommandView) -> u8 {
    match c {
        CommandView::Ping => CMD_PING,
        CommandView::Info => CMD_INFO,
        CommandView::Id => CMD_ID,
        CommandView::Reset => CMD_RESET,
        CommandView::ErasePage { .. } => CMD_EPAGE,
        CommandView::WritePage { .. } => CMD_WPAGE,
        CommandView::EraseExBlock { .. } => CMD_XEBLOCK,
        CommandView::WriteExPage { .. } => CMD_XWPAGE,
        CommandView::CrcRxBuffer => CMD_CRCRX,
        CommandView::ReadRange { .. } => CMD_RRANGE,
        CommandView::ExReadRange { .. } => CMD_XRRANGE,
        CommandView::SetAttr { .. } => CMD_SATTR,
        CommandView::GetAttr { .. } => CMD_GATTR,
        CommandView::CrcIntFlash { .. } => CMD_CRCIF,
        CommandView::CrcExtFlash { .. } => CMD_CRCEF,
        CommandView::EraseExPage { .. } => CMD_XEPAGE,
        CommandView::ExtFlashInit => CMD_XFINIT,
        CommandView::ClockOut => CMD_CLKOUT,
        CommandView::WriteFlashUserPages { .. } => CMD_WUSER,
        CommandView::ChangeBaud { .. } => CMD_CHANGE_BAUD,
        CommandView::Exit => CMD_EXIT,
        CommandView::SetStartAddress { .. } => CMD_SET_START_ADDRESS,
    }
}

/// The byte that encodes a baud mode.
pub open spec fn baud_mode_byte(m: BaudMode) -> u8 {
    match m {
        BaudMode::SetRate => 0x01u8,
        BaudMode::Verify => 0x02u8,
    }
}

/// The argument bytes of a command, before escaping.
pub open spec fn command_args(c: CommandView) -> Seq<u8> {
    match c {
        CommandView::ErasePage { address } => u32_le_bytes(address),
        CommandView::WritePage { address, data } => u32_le_bytes(address) + data,
        CommandView::EraseExBlock { address } => u32_le_bytes(address),
        CommandView::WriteExPage { address, data } => u32_le_bytes(address) + data,
        CommandView::ReadRange { address, length } => u32_le_bytes(address) + u16_le_bytes(length),
        CommandView::ExReadRange { address, length } => u32_le_bytes(address) + u16_le_bytes(length),
        CommandView::SetAttr { index, key, value } => seq![index] + key + seq![value.len() as u8] + value,
        CommandView::GetAttr { index } => seq![index],
        CommandView::CrcIntFlash { address, length } => u32_le_bytes(address) + u32_le_bytes(length),
        CommandView::CrcExtFlash { address, length } => u32_le_bytes(address) + u32_le_bytes(length),
        CommandView::EraseExPage { address } => u32_le_bytes(address),
        CommandView::WriteFlashUserPages { page1, page2 } => u32_le_bytes(page1) + u32_le_bytes(page2),
        CommandView::ChangeBaud { mode, baud } => seq![baud_mode_byte(mode)] + u32_le_bytes(baud),
        CommandView::SetStartAddress { address } => u32_le_bytes(address),
        _ => seq![],
    }
}

/// The commands that can be encoded: full pages, keys of 8 bytes, values of
/// at most 55 bytes, attribute indices below 16.
pub open spec fn command_admissible(c: CommandView) -> bool {
    match c {
        CommandView::WritePage { data, .. } => data.len() == INT_PAGE_SIZE,
        CommandView::WriteExPage { data, .. } => data.len() == EXT_PAGE_SIZE,
        CommandView::SetAttr { index, key, value } => index < MAX_INDEX && key.len() == KEY_LEN
            && value.len() <= MAX_ATTR_LEN,
        CommandView::GetAttr { index } => index < MAX_INDEX,
        _ => true,
    }
}

/// The commands the encoder takes: full pages, keys of 8 bytes, values of
/// at most 55 bytes, attribute slots below 16 for a write.
pub open spec fn command_encodable(c: CommandView) -> bool {
    match c {
        CommandView::GetAttr { .. } => true,
        _ => command_admissible(c),
    }
}

/// A command on the wire.
pub open spec fn encode_command(c: CommandView) -> Seq<u8> {
    escape(command_args(c)) + seq![ESCAPE_CHAR, command_opcode(c)]
}

/// The command that an opcode and its unescaped argument bytes stand for.
pub open spec fn decode_command(op: u8, a: Seq<u8>) -> Result<Option<CommandView>, Error> {
    let n = a.len();
    if op == CMD_PING {
        Ok(Some(CommandView::Ping))
    } else if op == CMD_INFO {
        Ok(Some(CommandView::Info))
    } else if op == CMD_ID {
        Ok(Some(CommandView::Id))
    } else if op == CMD_RESET {
        Ok(Some(CommandView::Reset))
    } else if op == CMD_CRCRX {
        Ok(Some(CommandView::CrcRxBuffer))
    } else if op == CMD_XFINIT {
        Ok(Some(CommandView::ExtFlashInit))
    } else if op == CMD_CLKOUT {
        Ok(Some(CommandView::ClockOut))
    } else if op == CMD_EXIT {
        Ok(Some(CommandView::Exit))
    } else if op == CMD_EPAGE || op == CMD_XEBLOCK || op == CMD_XEPAGE || op == CMD_SET_START_ADDRESS {
        if n == 4 {
            let address = le_u32(a[0], a[1], a[2], a[3]);
            Ok(Some(
                if op == CMD_EPAGE {
                    CommandView::ErasePage { address }
                } else if op == CMD_XEBLOCK {
                    CommandView::EraseExBlock { address }
                } else if op == CMD_XEPAGE {
                    CommandView::EraseExPage { address }
                } else {
                    CommandView::SetStartAddress { address }
                },
            ))
        } else {
            Err(Error::BadArguments)
        }
    } else if op == CMD_WPAGE {
        if n >= 4 {
            Ok(Some(CommandView::WritePage { address: le_u32(a[0], a[1], a[2], a[3]), data: a.subrange(4, n as int) }))
        } else {
            Err(Error::BadArguments)
        }
    } else if op == CMD_XWPAGE {
        if n == EXT_PAGE_SIZE + 4 {
            Ok(Some(CommandView::WriteExPage { address: le_u32(a[0], a[1], a[2], a[3]), data: a.subrange(4, n as int) }))
        } else {
            Err(Error::BadArguments)
        }
    } else if op == CMD_RRANGE || op == CMD_XRRANGE {
        if n == 6 {
            let address = le_u32(a[0], a[1], a[2], a[3]);
            let length = le_u16(a[4], a[5]);
            Ok(Some(
                if op == CMD_RRANGE {
                    CommandView::ReadRange { address, length }
                } else {
                    CommandView::ExReadRange { address, length }
                },
            ))
        } else {
            Err(Error::BadArguments)
        }
    } else if op == CMD_SATTR {
        if n >= 10 && a[0] < MAX_INDEX && a[9] <= MAX_ATTR_LEN && n == 10 + a[9] {
            Ok(Some(CommandView::SetAttr { index: a[0], key: a.subrange(1, 9), value: a.subrange(10, n as int) }))
        } else {
            Err(Error::BadArguments)
        }
    } else if op == CMD_GATTR {
        if n == 1 && a[0] < MAX_INDEX {
            Ok(Some(CommandView::GetAttr { index: a[0] }))
        } else {
            Err(Error::BadArguments)
        }
    } else if op == CMD_CRCIF || op == CMD_CRCEF || op == CMD_WUSER {
        if n == 8 {
            let x = le_u32(a[0], a[1], a[2], a[3]);
            let y = le_u32(a[4], a[5], a[6], a[7]);
            Ok(Some(
                if op == CMD_CRCIF {
                    CommandView::CrcIntFlash { address: x, length: y }
                } else if op == CMD_CRCEF {
                    CommandView::CrcExtFlash { address: x, length: y }
                } else {
                    CommandView::WriteFlashUserPages { page1: x, page2: y }
                },
            ))
        } else {
            Err(Error::BadArguments)
        }
    } else if op == CMD_CHANGE_BAUD {
        if n == 5 && (a[0] == 1 || a[0] == 2) {
            let mode = if a[0] == 1 { BaudMode::SetRate } else { BaudMode::Verify };
            Ok(Some(CommandView::ChangeBaud { mode, baud: le_u32(a[1], a[2], a[3], a[4]) }))
        } else {
            Err(Error::BadArguments)
        }
    } else {
        Err(Error::UnknownCommand)
    }
}

// ---------------------------------------------------------------------------
// The command decoder as a state machine
// ---------------------------------------------------------------------------

/// State of a command decoder: whether the last byte was an unpaired escape,
/// and the argument bytes gathered so far.
pub ghost struct CmdDecoderView {
    pub escaped: bool,
    pub buffer: Seq<u8>,
}

/// A decoder that has seen nothing.
pub open spec fn cmd_fresh() -> CmdDecoderView {
    CmdDecoderView { escaped: false, buffer: seq![] }
}

/// Appends a byte to a decoder buffer, unless the buffer is full.
pub open spec fn load(buf: Seq<u8>, ch: u8) -> Seq<u8> {
    if buf.len() < BUFFER_LEN { buf.push(ch) } else { buf }
}

/// What a command decoder does with one byte.
pub open spec fn cmd_step(d: CmdDecoderView, ch: u8) -> (CmdDecoderView, Result<Option<CommandView>, Error>) {
    if !d.escaped {
        if ch == ESCAPE_CHAR {
            (CmdDecoderView { escaped: true, buffer: d.buffer }, Ok(None))
        } else {
            (CmdDecoderView { escaped: false, buffer: load(d.buffer, ch) }, Ok(None))
        }
    } else if ch == ESCAPE_CHAR {
        (CmdDecoderView { escaped: false, buffer: load(d.buffer, ch) }, Ok(None))
    } else {
        (cmd_fresh(), decode_command(ch, d.buffer))
    }
}

/// The decoder state after a run of bytes.
pub open spec fn cmd_feed(d: CmdDecoderView, s: Seq<u8>) -> CmdDecoderView
    decreases s.len(),
{
    if s.len() == 0 { d } else { cmd_step(cmd_feed(d, s.drop_last()), s.last()).0 }
}

/// Whether every byte of a run leaves the decoder silent (`Ok(None)`).
pub open spec fn cmd_quiet(d: CmdDecoderView, s: Seq<u8>) -> bool
    decreases s.len(),
{
    s.len() == 0 || (cmd_quiet(d, s.drop_last()) && cmd_step(cmd_feed(d, s.drop_last()), s.last()).1 == Ok::<
        Option<CommandView>,
        Error,
    >(None))
}

/// What `read` does with a run of bytes: the state it leaves, and the first
/// error, if any (bytes after an error are not looked at).
pub open spec fn cmd_read(d: CmdDecoderView, s: Seq<u8>) -> (CmdDecoderView, Result<(), Error>)
    decreases s.len(),
{
    if s.len() == 0 {
        (d, Ok(()))
    } else {
        let (d1, r1) = cmd_read(d, s.drop_last());
        if r1 is Err {
            (d1, r1)
        } else {
            let (d2, o) = cmd_step(d1, s.last());
            match o {
                Err(e) => (d2, Err(e)),
                Ok(_) => (d2, Ok(())),
            }
        }
    }
}

/// Once `read` has met an error, the bytes after it change nothing.
pub proof fn lemma_cmd_read_stops(d: CmdDecoderView, s: Seq<u8>, k: int)
    requires
        0 <= k <= s.len(),
        cmd_read(d, s.subrange(0, k)).1 is Err,
    ensures
        cmd_read(d, s) == cmd_read(d, s.subrange(0, k)),
    decreases s.len(),
{
    if s.len() == k {
        assert(s.subrange(0, k) =~= s);
    } else {
        assert(s.drop_last().subrange(0, k) =~= s.subrange(0, k));
        lemma_cmd_read_stops(d, s.drop_last(), k);
    }
}

/// Feeding two runs one after the other is feeding their concatenation.
pub proof fn lemma_cmd_feed_append(d: CmdDecoderView, a: Seq<u8>, b: Seq<u8>)
    ensures
        cmd_feed(d, a + b) == cmd_feed(cmd_feed(d, a), b),
        cmd_quiet(d, a + b) == (cmd_quiet(d, a) && cmd_quiet(cmd_feed(d, a), b)),
    decreases b.len(),
{
    if b.len() == 0 {
        assert(a + b =~= a);
    } else {
        let b0 = b.drop_last();
        lemma_cmd_feed_append(d, a, b0);
        assert((a + b).drop_last() =~= a + b0);
        assert((a + b).last() == b.last());
    }
}

/// Escape transparency: feeding an escaped payload to a decoder in its
/// loading state appends exactly the payload to its buffer, silently, however
/// many escape bytes the payload holds.
pub proof fn lemma_cmd_escape_transparent(buf: Seq<u8>, s: Seq<u8>)
    requires
        buf.len() + s.len() <= BUFFER_LEN,
    ensures
        cmd_feed(CmdDecoderView { escaped: false, buffer: buf }, escape(s)) == (CmdDecoderView {
            escaped: false,
            buffer: buf + s,
        }),
        cmd_quiet(CmdDecoderView { escaped: false, buffer: buf }, escape(s)),
    decreases s.len(),
{
    let d = CmdDecoderView { escaped: false, buffer: buf };
    if s.len() == 0 {
        assert(buf + s =~= buf);
    } else {
        let s0 = s.drop_last();
        let x = s.last();
        lemma_cmd_escape_transparent(buf, s0);
        lemma_cmd_feed_append(d, escape(s0), escape_byte(x));
        let mid = CmdDecoderView { escaped: false, buffer: buf + s0 };
        let e = escape_byte(x);
        assert(buf + s0 + seq![x] =~= buf + s);
        assert((buf + s0).push(x) =~= buf + s);
        assert(cmd_feed(mid, Seq::<u8>::empty()) == mid);
        assert(cmd_quiet(mid, Seq::<u8>::empty()));
        if x == ESCAPE_CHAR {
            let one = seq![ESCAPE_CHAR];
            assert(one.drop_last() =~= Seq::<u8>::empty());
            assert(e.drop_last() =~= one);
            let esc = CmdDecoderView { escaped: true, buffer: buf + s0 };
            assert(cmd_feed(mid, one) == esc);
            assert(cmd_quiet(mid, one));
            assert(cmd_step(esc, ESCAPE_CHAR).0 == CmdDecoderView { escaped: false, buffer: buf + s });
            assert(cmd_feed(mid, e) == CmdDecoderView { escaped: false, buffer: buf + s });
            assert(cmd_quiet(mid, e));
        } else {
            assert(e.drop_last() =~= Seq::<u8>::empty());
            assert(cmd_feed(mid, e) == CmdDecoderView { escaped: false, buffer: buf + s });
            assert(cmd_quiet(mid, e));
        }
        assert(escape(s) == escape(s0) + e);
    }
}

/// Escape transparency from a fresh decoder: after `escape(s)` the decoder
/// holds exactly `s` and has reported nothing.
pub proof fn lemma_escape_transparency(s: Seq<u8>)
    requires
        s.len() <= BUFFER_LEN,
    ensures
        cmd_feed(cmd_fresh(), escape(s)) == (CmdDecoderView { escaped: false, buffer: s }),
        cmd_quiet(cmd_fresh(), escape(s)),
{
    lemma_cmd_escape_transparent(seq![], s);
    assert(Seq::<u8>::empty() + s =~= s);
}


// ---------------------------------------------------------------------------
// Executable decoders
// ---------------------------------------------------------------------------

#[derive(PartialEq, Eq, Clone, Copy, Structural)]
enum DecoderState {
    Loading,
    Escape,
}

/// Copies `v[lo..hi]` into a new vector.
fn copy_range(v: &Vec<u8>, lo: usize, hi: usize) -> (r: Vec<u8>)
    requires
        lo <= hi <= v@.len(),
    ensures
        r@ == v@.subrange(lo as int, hi as int),
{
    let mut r: Vec<u8> = Vec::new();
    let mut i: usize = lo;
    while i < hi
        invariant
            lo <= i <= hi <= v@.len(),
            r@ == v@.subrange(lo as int, i as int),
        decreases hi - i,
    {
        r.push(v[i]);
        i = i + 1;
        assert(r@ =~= v@.subrange(lo as int, i as int));
    }
    r
}

/// Takes bytes and gives `Command`s.
pub struct CommandDecoder {
    state: DecoderState,
    buffer: Vec<u8>,
}

impl View for CommandDecoder {
    type V = CmdDecoderView;

    closed spec fn view(&self) -> CmdDecoderView {
        CmdDecoderView { escaped: self.state == DecoderState::Escape, buffer: self.buffer@ }
    }
}

impl CommandDecoder {
    /// A decoder that has seen nothing.
    pub fn new() -> (r: CommandDecoder)
        ensures
            r@ == cmd_fresh(),
    {
        let r = CommandDecoder { state: DecoderState::Loading, buffer: Vec::new() };
        assert(r@.buffer =~= Seq::<u8>::empty());
        r
    }

    /// Feeds a whole buffer, handing each decoded command to `callback`, and
    /// stops at the first error.
    pub fn read<F: Fn(&Command)>(&mut self, buffer: &[u8], callback: F) -> (r: Result<(), Error>)
        requires
            forall|c: &Command| callback.requires((c,)),
        ensures
            (final(self)@, r) == cmd_read(old(self)@, buffer@),
    {
        let mut i: usize = 0;
        while i < buffer.len()
            invariant
                i <= buffer@.len(),
                forall|c: &Command| callback.requires((c,)),
                (self@, Ok::<(), Error>(())) == cmd_read(old(self)@, buffer@.subrange(0, i as int)),
            decreases buffer@.len() - i,
        {
            let ghost before = self@;
            let res = self.receive(buffer[i]);
            proof {
                assert(buffer@.subrange(0, i + 1).drop_last() =~= buffer@.subrange(0, i as int));
            }
            match res {
                Err(e) => {
                    proof {
                        lemma_cmd_read_stops(old(self)@, buffer@, i + 1);
                    }
                    return Err(e);
                },
                Ok(None) => {},
                Ok(Some(cmd)) => {
                    callback(&cmd);
                },
            }
            i = i + 1;
        }
        assert(buffer@.subrange(0, i as int) =~= buffer@);
        Ok(())
    }

    /// Empties the argument buffer.
    pub fn reset(&mut self)
        ensures
            final(self)@ == (CmdDecoderView { escaped: old(self)@.escaped, buffer: seq![] }),
    {
        self.buffer = Vec::new();
        assert(self.buffer@ =~= Seq::<u8>::empty());
    }

    /// Processes one incoming byte: `Ok(None)` until a command is complete,
    /// then the command, or an error for a malformed one.
    pub fn receive(&mut self, ch: u8) -> (r: Result<Option<Command>, Error>)
        ensures
            (final(self)@, cmd_result_view(r)) == cmd_step(old(self)@, ch),
    {
        match self.state {
            DecoderState::Loading => self.handle_loading(ch),
            DecoderState::Escape => self.handle_escape(ch),
        }
    }

    fn load_char(&mut self, ch: u8)
        ensures
            final(self).state == old(self).state,
            final(self).buffer@ == load(old(self).buffer@, ch),
    {
        if self.buffer.len() < BUFFER_LEN {
            self.buffer.push(ch);
        }
    }

    fn handle_loading(&mut self, ch: u8) -> (r: Result<Option<Command>, Error>)
        requires
            old(self).state == DecoderState::Loading,
        ensures
            (final(self)@, cmd_result_view(r)) == cmd_step(old(self)@, ch),
    {
        if ch == ESCAPE_CHAR {
            self.state = DecoderState::Escape;
        } else {
            self.load_char(ch);
        }
        Ok(None)
    }

    fn handle_escape(&mut self, ch: u8) -> (r: Result<Option<Command>, Error>)
        requires
            old(self).state == DecoderState::Escape,
        ensures
            (final(self)@, cmd_result_view(r)) == cmd_step(old(self)@, ch),
    {
        self.state = DecoderState::Loading;
        if ch == ESCAPE_CHAR {
            // A doubled escape stands for one escape byte.
            self.load_char(ch);
            return Ok(None);
        }
        let result = decode_args(ch, &self.buffer);
        self.buffer = Vec::new();
        assert(self.buffer@ =~= Seq::<u8>::empty());
        result
    }
}

/// Decodes the command that ends with opcode `op`, from its argument bytes.
fn decode_args(op: u8, a: &Vec<u8>) -> (r: Result<Option<Command>, Error>)
    ensures
        cmd_result_view(r) == decode_command(op, a@),
{
    let n = a.len();
    let s = a.as_slice();
    if op == CMD_PING {
        Ok(Some(Command::Ping))
    } else if op == CMD_INFO {
        Ok(Some(Command::Info))
    } else if op == CMD_ID {
        Ok(Some(Command::Id))
    } else if op == CMD_RESET {
        Ok(Some(Command::Reset))
    } else if op == CMD_CRCRX {
        Ok(Some(Command::CrcRxBuffer))
    } else if op == CMD_XFINIT {
        Ok(Some(Command::ExtFlashInit))
    } else if op == CMD_CLKOUT {
        Ok(Some(Command::ClockOut))
    } else if op == CMD_EXIT {
        Ok(Some(Command::Exit))
    } else if op == CMD_EPAGE || op == CMD_XEBLOCK || op == CMD_XEPAGE || op == CMD_SET_START_ADDRESS {
        if n == 4 {
            let address = read_u32(s, 0);
            Ok(Some(
                if op == CMD_EPAGE {
                    Command::ErasePage { address }
                } else if op == CMD_XEBLOCK {
                    Command::EraseExBlock { address }
                } else if op == CMD_XEPAGE {
                    Command::EraseExPage { address }
                } else {
                    Command::SetStartAddress { address }
                },
            ))
        } else {
            Err(Error::BadArguments)
        }
    } else if op == CMD_WPAGE {
        if n >= 4 {
            let address = read_u32(s, 0);
            Ok(Some(Command::WritePage { address, data: copy_range(a, 4, n) }))
        } else {
            Err(Error::BadArguments)
        }
    } else if op == CMD_XWPAGE {
        if n == EXT_PAGE_SIZE + 4 {
            let address = read_u32(s, 0);
            Ok(Some(Command::WriteExPage { address, data: copy_range(a, 4, n) }))
        } else {
            Err(Error::BadArguments)
        }
    } else if op == CMD_RRANGE || op == CMD_XRRANGE {
        if n == 6 {
            let address = read_u32(s, 0);
            let length = read_u16(s, 4);
            Ok(Some(
                if op == CMD_RRANGE {
                    Command::ReadRange { address, length }
                } else {
                    Command::ExReadRange { address, length }
                },
            ))
        } else {
            Err(Error::BadArguments)
        }
    } else if op == CMD_SATTR {
        if n >= 10 && a[0] < MAX_INDEX && (a[9] as usize) <= MAX_ATTR_LEN && n == 10 + a[9] as usize {
            Ok(Some(Command::SetAttr { index: a[0], key: copy_range(a, 1, 9), value: copy_range(a, 10, n) }))
        } else {
            Err(Error::BadArguments)
        }
    } else if op == CMD_GATTR {
        if n == 1 && a[0] < MAX_INDEX {
            Ok(Some(Command::GetAttr { index: a[0] }))
        } else {
            Err(Error::BadArguments)
        }
    } else if op == CMD_CRCIF || op == CMD_CRCEF || op == CMD_WUSER {
        if n == 8 {
            let x = read_u32(s, 0);
            let y = read_u32(s, 4);
            Ok(Some(
                if op == CMD_CRCIF {
                    Command::CrcIntFlash { address: x, length: y }
                } else if op == CMD_CRCEF {
                    Command::CrcExtFlash { address: x, length: y }
                } else {
                    Command::WriteFlashUserPages { page1: x, page2: y }
                },
            ))
        } else {
            Err(Error::BadArguments)
        }
    } else if op == CMD_CHANGE_BAUD {
        if n == 5 && (a[0] == 1 || a[0] == 2) {
            let mode = if a[0] == 1 { BaudMode::SetRate } else { BaudMode::Verify };
            Ok(Some(Command::ChangeBaud { mode, baud: read_u32(s, 1) }))
        } else {
            Err(Error::BadArguments)
        }
    } else {
        Err(Error::UnknownCommand)
    }
}

// ---------------------------------------------------------------------------
// Round trip of commands
// ---------------------------------------------------------------------------

/// The argument bytes of an admissible command decode back to the command.
proof fn lemma_decode_command_args(c: CommandView)
    requires
        command_admissible(c),
    ensures
        decode_command(command_opcode(c), command_args(c)) == Ok::<Option<CommandView>, Error>(Some(c)),
{
    let a = command_args(c);
    match c {
        CommandView::ErasePage { address } => lemma_le_u32_round_trip(address),
        CommandView::EraseExBlock { address } => lemma_le_u32_round_trip(address),
        CommandView::EraseExPage { address } => lemma_le_u32_round_trip(address),
        CommandView::SetStartAddress { address } => lemma_le_u32_round_trip(address),
        CommandView::WritePage { address, data } => {
            lemma_le_u32_round_trip(address);
            assert(a.subrange(4, a.len() as int) =~= data);
        },
        CommandView::WriteExPage { address, data } => {
            lemma_le_u32_round_trip(address);
            assert(a.subrange(4, a.len() as int) =~= data);
        },
        CommandView::ReadRange { address, length } => {
            lemma_le_u32_round_trip(address);
            lemma_le_u16_round_trip(length);
        },
        CommandView::ExReadRange { address, length } => {
            lemma_le_u32_round_trip(address);
            lemma_le_u16_round_trip(length);
        },
        CommandView::SetAttr { index, key, value } => {
            assert(a[9] == value.len() as u8);
            assert(a.subrange(1, 9) =~= key);
            assert(a.subrange(10, a.len() as int) =~= value);
        },
        CommandView::CrcIntFlash { address, length } => {
            lemma_le_u32_round_trip(address);
            lemma_le_u32_round_trip(length);
        },
        CommandView::CrcExtFlash { address, length } => {
            lemma_le_u32_round_trip(address);
            lemma_le_u32_round_trip(length);
        },
        CommandView::WriteFlashUserPages { page1, page2 } => {
            lemma_le_u32_round_trip(page1);
            lemma_le_u32_round_trip(page2);
        },
        CommandView::ChangeBaud { mode, baud } => {
            lemma_le_u32_round_trip(baud);
        },
        _ => {},
    }
}

/// Round trip of commands: a fresh decoder fed the encoding of an
/// admissible command stays silent until the last byte, and on the last
/// byte reports exactly that command and is fresh again.
pub proof fn lemma_command_round_trip(c: CommandView)
    requires
        command_admissible(c),
    ensures
        ({
            let s = encode_command(c);
            let d = cmd_feed(cmd_fresh(), s.drop_last());
            &&& cmd_quiet(cmd_fresh(), s.drop_last())
            &&& cmd_step(d, s.last()) == (cmd_fresh(), Ok::<Option<CommandView>, Error>(Some(c)))
        }),
{
    let a = command_args(c);
    let s = encode_command(c);
    assert(a.len() <= BUFFER_LEN);
    assert(s.drop_last() =~= escape(a) + seq![ESCAPE_CHAR]);
    assert(s.last() == command_opcode(c));
    lemma_escape_transparency(a);
    lemma_cmd_feed_append(cmd_fresh(), escape(a), seq![ESCAPE_CHAR]);
    let loaded = CmdDecoderView { escaped: false, buffer: a };
    assert(seq![ESCAPE_CHAR].drop_last() =~= Seq::<u8>::empty());
    assert(cmd_feed(loaded, Seq::<u8>::empty()) == loaded);
    assert(cmd_quiet(loaded, Seq::<u8>::empty()));
    assert(cmd_feed(loaded, seq![ESCAPE_CHAR]) == CmdDecoderView { escaped: true, buffer: a });
    assert(cmd_quiet(loaded, seq![ESCAPE_CHAR]));
    lemma_decode_command_args(c);
}

// ---------------------------------------------------------------------------
// Encoders
// ---------------------------------------------------------------------------

/// State of an encoder: the whole message, and how much of it was handed out.
pub ghost struct EncoderView {
    pub bytes: Seq<u8>,
    pub count: nat,
}

/// Appends the escaped form of one byte.
pub(crate) fn push_escaped(out: &mut Vec<u8>, b: u8)
    ensures
        final(out)@ == old(out)@ + escape_byte(b),
{
    if b == ESCAPE_CHAR {
        out.push(ESCAPE_CHAR);
        out.push(ESCAPE_CHAR);
        assert(final(out)@ =~= old(out)@ + escape_byte(b));
    } else {
        out.push(b);
        assert(final(out)@ =~= old(out)@ + escape_byte(b));
    }
}

/// Appends the escaped form of `s`.
fn push_escaped_all(out: &mut Vec<u8>, s: &[u8])
    ensures
        final(out)@ == old(out)@ + escape(s@),
{
    let mut i: usize = 0;
    while i < s.len()
        invariant
            i <= s@.len(),
            out@ == old(out)@ + escape(s@.subrange(0, i as int)),
        decreases s@.len() - i,
    {
        push_escaped(out, s[i]);
        proof {
            let t = s@.subrange(0, i + 1);
            assert(t.drop_last() =~= s@.subrange(0, i as int));
            assert(t.last() == s@[i as int]);
        }
        i = i + 1;
    }
    assert(s@.subrange(0, i as int) =~= s@);
}

/// Appends the four little-endian bytes of `v`.
fn push_u32(out: &mut Vec<u8>, v: u32)
    ensures
        final(out)@ == old(out)@ + u32_le_bytes(v),
{
    out.push(v as u8);
    out.push((v >> 8u32) as u8);
    out.push((v >> 16u32) as u8);
    out.push((v >> 24u32) as u8);
    assert(final(out)@ =~= old(out)@ + u32_le_bytes(v));
}

/// Appends the two little-endian bytes of `v`.
fn push_u16(out: &mut Vec<u8>, v: u16)
    ensures
        final(out)@ == old(out)@ + u16_le_bytes(v),
{
    out.push(v as u8);
    out.push((v >> 8u16) as u8);
    assert(final(out)@ =~= old(out)@ + u16_le_bytes(v));
}

/// Appends all of `s`.
pub(crate) fn push_all(out: &mut Vec<u8>, s: &[u8])
    ensures
        final(out)@ == old(out)@ + s@,
{
    let mut i: usize = 0;
    while i < s.len()
        invariant
            i <= s@.len(),
            out@ == old(out)@ + s@.subrange(0, i as int),
        decreases s@.len() - i,
    {
        out.push(s[i]);
        i = i + 1;
        assert(out@ =~= old(out)@ + s@.subrange(0, i as int));
    }
    assert(s@.subrange(0, i as int) =~= s@);
}

/// The argument bytes of a command, before escaping.
fn command_args_of(c: &Command) -> (r: Vec<u8>)
    ensures
        r@ == command_args(c@),
{
    let mut out: Vec<u8> = Vec::new();
    match c {
        Command::ErasePage { address } => push_u32(&mut out, *address),
        Command::WritePage { address, data } => {
            push_u32(&mut out, *address);
            push_all(&mut out, data.as_slice());
        },
        Command::EraseExBlock { address } => push_u32(&mut out, *address),
        Command::WriteExPage { address, data } => {
            push_u32(&mut out, *address);
            push_all(&mut out, data.as_slice());
        },
        Command::ReadRange { address, length } => {
            push_u32(&mut out, *address);
            push_u16(&mut out, *length);
        },
        Command::ExReadRange { address, length } => {
            push_u32(&mut out, *address);
            push_u16(&mut out, *length);
        },
        Command::SetAttr { index, key, value } => {
            out.push(*index);
            push_all(&mut out, key.as_slice());
            out.push(value.len() as u8);
            push_all(&mut out, value.as_slice());
        },
        Command::GetAttr { index } => out.push(*index),
        Command::CrcIntFlash { address, length } => {
            push_u32(&mut out, *address);
            push_u32(&mut out, *length);
        },
        Command::CrcExtFlash { address, length } => {
            push_u32(&mut out, *address);
            push_u32(&mut out, *length);
        },
        Command::EraseExPage { address } => push_u32(&mut out, *address),
        Command::WriteFlashUserPages { page1, page2 } => {
            push_u32(&mut out, *page1);
            push_u32(&mut out, *page2);
        },
        Command::ChangeBaud { mode, baud } => {
            out.push(
                match mode {
                    BaudMode::SetRate => 0x01u8,
                    BaudMode::Verify => 0x02u8,
                },
            );
            push_u32(&mut out, *baud);
        },
        Command::SetStartAddress { address } => push_u32(&mut out, *address),
        _ => {},
    }
    assert(out@ =~= command_args(c@));
    out
}

/// The opcode that ends a command.
fn command_opcode_of(c: &Command) -> (r: u8)
    ensures
        r == command_opcode(c@),
{
    match c {
        Command::Ping => CMD_PING,
        Command::Info => CMD_INFO,
        Command::Id => CMD_ID,
        Command::Reset => CMD_RESET,
        Command::ErasePage { .. } => CMD_EPAGE,
        Command::WritePage { .. } => CMD_WPAGE,
        Command::EraseExBlock { .. } => CMD_XEBLOCK,
        Command::WriteExPage { .. } => CMD_XWPAGE,
        Command::CrcRxBuffer => CMD_CRCRX,
        Command::ReadRange { .. } => CMD_RRANGE,
        Command::ExReadRange { .. } => CMD_XRRANGE,
        Command::SetAttr { .. } => CMD_SATTR,
        Command::GetAttr { .. } => CMD_GATTR,
        Command::CrcIntFlash { .. } => CMD_CRCIF,
        Command::CrcExtFlash { .. } => CMD_CRCEF,
        Command::EraseExPage { .. } => CMD_XEPAGE,
        Command::ExtFlashInit => CMD_XFINIT,
        Command::ClockOut => CMD_CLKOUT,
        Command::WriteFlashUserPages { .. } => CMD_WUSER,
        Command::ChangeBaud { .. } => CMD_CHANGE_BAUD,
        Command::Exit => CMD_EXIT,
        Command::SetStartAddress { .. } => CMD_SET_START_ADDRESS,
    }
}

/// Encodes byte sequences; implemented by both encoders.
pub trait Encoder {
    /// The message, and how much of it was handed out.
    spec fn encoder_state(&self) -> EncoderView;

    /// Starts the message over from its first byte.
    fn reset(&mut self)
        ensures
            final(self).encoder_state() == (EncoderView { bytes: old(self).encoder_state().bytes, count: 0 }),
    ;

    /// Copies the next bytes of the message into `buffer` and returns how
    /// many: as many as fit, or as many as are left. The rest of `buffer`
    /// is left as it was.
    fn write(&mut self, buffer: &mut [u8]) -> (n: usize)
        ensures
            is_min(
                n as int,
                old(buffer)@.len() as int,
                old(self).encoder_state().bytes.len() - old(self).encoder_state().count,
            ),
            final(self).encoder_state() == (EncoderView {
                bytes: old(self).encoder_state().bytes,
                count: (old(self).encoder_state().count + n) as nat,
            }),
            final(buffer)@.len() == old(buffer)@.len(),
            final(buffer)@.subrange(0, n as int) == old(self).encoder_state().bytes.subrange(
                old(self).encoder_state().count as int,
                old(self).encoder_state().count + n,
            ),
            final(buffer)@.subrange(n as int, final(buffer)@.len() as int) == old(buffer)@.subrange(
                n as int,
                old(buffer)@.len() as int,
            ),
    ;
}

/// Whether `n` is the smaller of `a` and `b`.
pub open spec fn is_min(n: int, a: int, b: int) -> bool {
    n == if a < b { a } else { b }
}

/// Copies the bytes of a message from `start` on into `buffer`, as many
/// as fit; returns how many.
fn write_of(bytes: &Vec<u8>, start: usize, buffer: &mut [u8]) -> (n: usize)
    requires
        start <= bytes@.len(),
    ensures
        is_min(n as int, old(buffer)@.len() as int, bytes@.len() - start),
        start + n <= bytes@.len(),
        final(buffer)@.len() == old(buffer)@.len(),
        final(buffer)@.subrange(0, n as int) == bytes@.subrange(start as int, start + n),
        final(buffer)@.subrange(n as int, final(buffer)@.len() as int) == old(buffer)@.subrange(
            n as int,
            old(buffer)@.len() as int,
        ),
{
    let mut i: usize = 0;
    while i < buffer.len() && i < bytes.len() - start
        invariant
            start <= bytes@.len(),
            start + i <= bytes@.len(),
            i <= buffer@.len(),
            buffer@.len() == old(buffer)@.len(),
            forall|k: int| 0 <= k < i ==> buffer@[k] == bytes@[start + k],
            forall|k: int| i <= k < buffer@.len() ==> buffer@[k] == old(buffer)@[k],
        decreases buffer@.len() - i,
    {
        buffer[i] = bytes[start + i];
        i = i + 1;
    }
    assert(buffer@.subrange(0, i as int) =~= bytes@.subrange(start as int, start + i));
    assert(buffer@.subrange(i as int, buffer@.len() as int) =~= old(buffer)@.subrange(
        i as int,
        old(buffer)@.len() as int,
    ));
    i
}

/// Takes a `Command` and gives its bytes.
pub struct CommandEncoder {
    bytes: Vec<u8>,
    count: usize,
}

impl View for CommandEncoder {
    type V = EncoderView;

    closed spec fn view(&self) -> EncoderView {
        EncoderView { bytes: self.bytes@, count: self.count as nat }
    }
}

impl CommandEncoder {
    #[verifier::type_invariant]
    spec fn inv(self) -> bool {
        self.count <= self.bytes@.len()
    }

    /// An encoder for `command`; `BadArguments` unless the command is
    /// admissible (a full page to write, an 8-byte key, a value of at most
    /// 55 bytes, an attribute index below 16 for a write).
    pub fn new(command: &Command) -> (r: Result<CommandEncoder, Error>)
        ensures
            command_encodable(command@) ==> (r matches Ok(e) && e@ == (EncoderView {
                bytes: encode_command(command@),
                count: 0,
            })),
            !command_encodable(command@) ==> r == Err::<CommandEncoder, Error>(Error::BadArguments),
    {
        match command {
            Command::WritePage { address: _, data } => {
                if data.len() != INT_PAGE_SIZE {
                    return Err(Error::BadArguments);
                }
            },
            Command::WriteExPage { address: _, data } => {
                if data.len() != EXT_PAGE_SIZE {
                    return Err(Error::BadArguments);
                }
            },
            Command::SetAttr { index, key, value } => {
                if *index >= MAX_INDEX || key.len() != KEY_LEN || value.len() > MAX_ATTR_LEN {
                    return Err(Error::BadArguments);
                }
            },
            _ => {},
        }
        let args = command_args_of(command);
        let mut bytes: Vec<u8> = Vec::new();
        push_escaped_all(&mut bytes, args.as_slice());
        bytes.push(ESCAPE_CHAR);
        bytes.push(command_opcode_of(command));
        assert(bytes@ =~= encode_command(command@));
        Ok(CommandEncoder { bytes, count: 0 })
    }

    /// Starts over from the first byte.
    pub fn reset(&mut self)
        ensures
            final(self)@ == (EncoderView { bytes: old(self)@.bytes, count: 0 }),
    {
        self.count = 0;
    }

    /// The next byte of the message; `None` once all were handed out.
    pub fn next(&mut self) -> (r: Option<u8>)
        ensures
            old(self)@.count < old(self)@.bytes.len() ==> r == Some(old(self)@.bytes[old(self)@.count as int])
                && final(self)@ == (EncoderView { bytes: old(self)@.bytes, count: old(self)@.count + 1 }),
            old(self)@.count >= old(self)@.bytes.len() ==> r is None && final(self)@ == old(self)@,
    {
        proof {
            use_type_invariant(&*self);
        }
        if self.count < self.bytes.len() {
            let b = self.bytes[self.count];
            self.count = self.count + 1;
            Some(b)
        } else {
            None
        }
    }

    /// Copies the next bytes into `buffer` and returns how many: as many as
    /// fit, or as many as are left.
    pub fn write(&mut self, buffer: &mut [u8]) -> (n: usize)
        ensures
            is_min(n as int, old(buffer)@.len() as int, old(self)@.bytes.len() - old(self)@.count),
            final(self)@ == (EncoderView { bytes: old(self)@.bytes, count: (old(self)@.count + n) as nat }),
            final(buffer)@.len() == old(buffer)@.len(),
            final(buffer)@.subrange(0, n as int) == old(self)@.bytes.subrange(
                old(self)@.count as int,
                old(self)@.count + n,
            ),
            final(buffer)@.subrange(n as int, final(buffer)@.len() as int) == old(buffer)@.subrange(
                n as int,
                old(buffer)@.len() as int,
            ),
    {
        proof {
            use_type_invariant(&*self);
        }
        let total = self.bytes.len();
        let n = write_of(&self.bytes, self.count, buffer);
        assert(self.count + n <= total);
        self.count = self.count + n;
        n
    }
}

impl Encoder for CommandEncoder {
    open spec fn encoder_state(&self) -> EncoderView {
        self@
    }

    fn reset(&mut self) {
        self.count = 0;
    }

    fn write(&mut self, buffer: &mut [u8]) -> (n: usize) {
        proof {
            use_type_invariant(&*self);
        }
        let total = self.bytes.len();
        let n = write_of(&self.bytes, self.count, buffer);
        assert(self.count + n <= total);
        self.count = self.count + n;
        n
    }
}

// ---------------------------------------------------------------------------
// Responses on the wire
// ---------------------------------------------------------------------------

/// The code that follows the escape at the head of a response.
pub open spec fn response_code(r: ResponseView) -> u8 {
    match r {
        ResponseView::Overflow => RES_OVERFLOW,
        ResponseView::Pong => RES_PONG,
        ResponseView::BadAddress => RES_BADADDR,
        ResponseView::InternalError => RES_INTERROR,
        ResponseView::BadArguments => RES_BADARGS,
        ResponseView::Okay => RES_OK,
        ResponseView::Unknown => RES_UNKNOWN,
        ResponseView::ExtFlashTimeout => RES_XFTIMEOUT,
        ResponseView::ExtFlashPageError => RES_XFEPE,
        ResponseView::CrcRxBuffer { .. } => RES_CRCRX,
        ResponseView::ReadRange { .. } => RES_RRANGE,
        ResponseView::ExReadRange { .. } => RES_XRRANGE,
        ResponseView::GetAttr { .. } => RES_GATTR,
        ResponseView::CrcIntFlash { .. } => RES_CRCIF,
        ResponseView::CrcExtFlash { .. } => RES_CRCXF,
        ResponseView::Info { .. } => RES_INFO,
        ResponseView::ChangeBaudFail => RES_CHANGE_BAUD_FAIL,
    }
}

/// The body of a response, before escaping: fixed-size bodies are padded
/// with zeros.
pub open spec fn response_body(r: ResponseView) -> Seq<u8> {
    match r {
        ResponseView::CrcRxBuffer { length, crc } => u16_le_bytes(length) + u32_le_bytes(crc),
        ResponseView::ReadRange { data } => data,
        ResponseView::ExReadRange { data } => data,
        ResponseView::GetAttr { key, value } => key + seq![value.len() as u8] + pad(value, MAX_ATTR_LEN as nat),
        ResponseView::CrcIntFlash { crc } => u32_le_bytes(crc),
        ResponseView::CrcExtFlash { crc } => u32_le_bytes(crc),
        ResponseView::Info { info } => seq![info.len() as u8] + pad(info, MAX_INFO_LEN as nat),
        _ => seq![],
    }
}

/// The responses that can be encoded: keys of 8 bytes, values of at most 55
/// bytes, info strings of at most 192 bytes.
pub open spec fn response_admissible(r: ResponseView) -> bool {
    match r {
        ResponseView::GetAttr { key, value } => key.len() == KEY_LEN && value.len() <= MAX_ATTR_LEN,
        ResponseView::Info { info } => info.len() <= MAX_INFO_LEN,
        _ => true,
    }
}

/// A response on the wire.
pub open spec fn encode_response(r: ResponseView) -> Seq<u8> {
    seq![ESCAPE_CHAR, response_code(r)] + escape(response_body(r))
}

/// The response with no body that a code stands for, if any.
pub open spec fn bodiless_response(code: u8) -> Option<ResponseView> {
    if code == RES_PONG {
        Some(ResponseView::Pong)
    } else if code == RES_OVERFLOW {
        Some(ResponseView::Overflow)
    } else if code == RES_BADADDR {
        Some(ResponseView::BadAddress)
    } else if code == RES_INTERROR {
        Some(ResponseView::InternalError)
    } else if code == RES_BADARGS {
        Some(ResponseView::BadArguments)
    } else if code == RES_OK {
        Some(ResponseView::Okay)
    } else if code == RES_UNKNOWN {
        Some(ResponseView::Unknown)
    } else if code == RES_XFTIMEOUT {
        Some(ResponseView::ExtFlashTimeout)
    } else if code == RES_XFEPE {
        Some(ResponseView::ExtFlashPageError)
    } else if code == RES_CHANGE_BAUD_FAIL {
        Some(ResponseView::ChangeBaudFail)
    } else {
        None
    }
}

/// The body length of a response whose length the code fixes, if any.
pub open spec fn fixed_body_len(code: u8) -> Option<nat> {
    if code == RES_CRCRX {
        Some(6)
    } else if code == RES_GATTR {
        Some((1 + KEY_LEN + MAX_ATTR_LEN) as nat)
    } else if code == RES_CRCIF || code == RES_CRCXF {
        Some(4)
    } else if code == RES_INFO {
        Some((1 + MAX_INFO_LEN) as nat)
    } else {
        None
    }
}

/// The response that a full buffer (code, then body) stands for.
pub open spec fn parse_response(b: Seq<u8>) -> Result<Option<ResponseView>, Error> {
    let n = b.len();
    if n == 0 {
        Err(Error::UnknownCommand)
    } else if b[0] == RES_CRCRX {
        if n >= 7 {
            Ok(Some(ResponseView::CrcRxBuffer { length: le_u16(b[1], b[2]), crc: le_u32(b[3], b[4], b[5], b[6]) }))
        } else {
            Err(Error::BadArguments)
        }
    } else if b[0] == RES_RRANGE {
        Ok(Some(ResponseView::ReadRange { data: b.subrange(1, n as int) }))
    } else if b[0] == RES_XRRANGE {
        Ok(Some(ResponseView::ExReadRange { data: b.subrange(1, n as int) }))
    } else if b[0] == RES_GATTR {
        if n >= 10 && 10 + b[9] <= n {
            Ok(Some(ResponseView::GetAttr { key: b.subrange(1, 9), value: b.subrange(10, 10 + b[9]) }))
        } else {
            Err(Error::BadArguments)
        }
    } else if b[0] == RES_CRCIF || b[0] == RES_CRCXF {
        if n >= 5 {
            let crc = le_u32(b[1], b[2], b[3], b[4]);
            Ok(Some(
                if b[0] == RES_CRCIF {
                    ResponseView::CrcIntFlash { crc }
                } else {
                    ResponseView::CrcExtFlash { crc }
                },
            ))
        } else {
            Err(Error::BadArguments)
        }
    } else if b[0] == RES_INFO {
        if n >= 2 && b[1] + 2 <= n {
            Ok(Some(ResponseView::Info { info: b.subrange(2, 2 + b[1]) }))
        } else {
            Err(Error::BadArguments)
        }
    } else {
        Err(Error::UnknownCommand)
    }
}

/// State of a response decoder: an unpaired escape, the bytes gathered
/// (code first), and how many bytes complete the message, if known.
pub ghost struct RespDecoderView {
    pub escaped: bool,
    pub buffer: Seq<u8>,
    pub needed: Option<nat>,
}

/// A response decoder that has seen nothing and expects no length.
pub open spec fn resp_fresh() -> RespDecoderView {
    RespDecoderView { escaped: false, buffer: seq![], needed: None }
}

/// Stores one byte; once the buffer holds `needed` bytes, parses it.
pub open spec fn resp_load(d: RespDecoderView, ch: u8) -> (RespDecoderView, Result<Option<ResponseView>, Error>) {
    let buf = load(d.buffer, ch);
    if d.needed == Some(buf.len()) {
        (RespDecoderView { escaped: d.escaped, buffer: seq![], needed: None }, parse_response(buf))
    } else {
        (RespDecoderView { escaped: d.escaped, buffer: buf, needed: d.needed }, Ok(None))
    }
}

/// Keeps an error, and silences anything else.
pub open spec fn silenced(r: Result<Option<ResponseView>, Error>) -> Result<Option<ResponseView>, Error> {
    match r {
        Err(e) => Err(e),
        Ok(_) => Ok(None),
    }
}

/// What a response decoder does with one byte.
pub open spec fn resp_step(d: RespDecoderView, ch: u8) -> (RespDecoderView, Result<Option<ResponseView>, Error>) {
    if !d.escaped {
        if ch == ESCAPE_CHAR {
            (RespDecoderView { escaped: true, ..d }, Ok(None))
        } else {
            resp_load(d, ch)
        }
    } else {
        let d0 = RespDecoderView { escaped: false, ..d };
        if ch == ESCAPE_CHAR {
            resp_load(d0, ch)
        } else if bodiless_response(ch) is Some {
            (resp_fresh(), Ok(bodiless_response(ch)))
        } else if fixed_body_len(ch) is Some {
            if d.needed is Some {
                (d0, Err(Error::SetLength))
            } else {
                let (d1, r) = resp_load(
                    RespDecoderView { needed: Some(fixed_body_len(ch)->0 + 1), ..d0 },
                    ch,
                );
                (d1, silenced(r))
            }
        } else if ch == RES_RRANGE || ch == RES_XRRANGE {
            if d.needed is None {
                (d0, Err(Error::UnsetLength))
            } else {
                // With an empty body the code completes the frame.
                resp_load(d0, ch)
            }
        } else {
            (d0, Ok(None))
        }
    }
}

/// What `read` does with a run of bytes on a response decoder.
pub open spec fn resp_read(d: RespDecoderView, s: Seq<u8>) -> (RespDecoderView, Result<(), Error>)
    decreases s.len(),
{
    if s.len() == 0 {
        (d, Ok(()))
    } else {
        let (d1, r1) = resp_read(d, s.drop_last());
        if r1 is Err {
            (d1, r1)
        } else {
            let (d2, o) = resp_step(d1, s.last());
            match o {
                Err(e) => (d2, Err(e)),
                Ok(_) => (d2, Ok(())),
            }
        }
    }
}

/// Once `read` has met an error, the bytes after it change nothing.
pub proof fn lemma_resp_read_stops(d: RespDecoderView, s: Seq<u8>, k: int)
    requires
        0 <= k <= s.len(),
        resp_read(d, s.subrange(0, k)).1 is Err,
    ensures
        resp_read(d, s) == resp_read(d, s.subrange(0, k)),
    decreases s.len(),
{
    if s.len() == k {
        assert(s.subrange(0, k) =~= s);
    } else {
        assert(s.drop_last().subrange(0, k) =~= s.subrange(0, k));
        lemma_resp_read_stops(d, s.drop_last(), k);
    }
}

/// The response decoder state after a run of bytes.
pub open spec fn resp_feed(d: RespDecoderView, s: Seq<u8>) -> RespDecoderView
    decreases s.len(),
{
    if s.len() == 0 { d } else { resp_step(resp_feed(d, s.drop_last()), s.last()).0 }
}

/// Whether every byte of a run leaves the response decoder silent.
pub open spec fn resp_quiet(d: RespDecoderView, s: Seq<u8>) -> bool
    decreases s.len(),
{
    s.len() == 0 || (resp_quiet(d, s.drop_last()) && resp_step(resp_feed(d, s.drop_last()), s.last()).1 == Ok::<
        Option<ResponseView>,
        Error,
    >(None))
}

/// Feeding two runs one after the other is feeding their concatenation.
pub proof fn lemma_resp_feed_append(d: RespDecoderView, a: Seq<u8>, b: Seq<u8>)
    ensures
        resp_feed(d, a + b) == resp_feed(resp_feed(d, a), b),
        resp_quiet(d, a + b) == (resp_quiet(d, a) && resp_quiet(resp_feed(d, a), b)),
    decreases b.len(),
{
    if b.len() == 0 {
        assert(a + b =~= a);
    } else {
        let b0 = b.drop_last();
        lemma_resp_feed_append(d, a, b0);
        assert((a + b).drop_last() =~= a + b0);
        assert((a + b).last() == b.last());
    }
}

/// An escaped body fed to a response decoder that expects more bytes than
/// it will hold afterwards is stored as it was before escaping, silently.
proof fn lemma_resp_escape_transparent(buf: Seq<u8>, n: nat, s: Seq<u8>)
    requires
        buf.len() + s.len() < n,
        buf.len() + s.len() <= BUFFER_LEN,
    ensures
        resp_feed(RespDecoderView { escaped: false, buffer: buf, needed: Some(n) }, escape(s)) == (RespDecoderView {
            escaped: false,
            buffer: buf + s,
            needed: Some(n),
        }),
        resp_quiet(RespDecoderView { escaped: false, buffer: buf, needed: Some(n) }, escape(s)),
    decreases s.len(),
{
    let d = RespDecoderView { escaped: false, buffer: buf, needed: Some(n) };
    if s.len() == 0 {
        assert(buf + s =~= buf);
    } else {
        let s0 = s.drop_last();
        let x = s.last();
        lemma_resp_escape_transparent(buf, n, s0);
        lemma_resp_feed_append(d, escape(s0), escape_byte(x));
        let mid = RespDecoderView { escaped: false, buffer: buf + s0, needed: Some(n) };
        let e = escape_byte(x);
        assert((buf + s0).push(x) =~= buf + s);
        assert(resp_feed(mid, Seq::<u8>::empty()) == mid);
        assert(resp_quiet(mid, Seq::<u8>::empty()));
        if x == ESCAPE_CHAR {
            let one = seq![ESCAPE_CHAR];
            assert(one.drop_last() =~= Seq::<u8>::empty());
            assert(e.drop_last() =~= one);
            assert(resp_feed(mid, one) == RespDecoderView { escaped: true, ..mid });
            assert(resp_quiet(mid, one));
            assert(resp_feed(mid, e) == RespDecoderView { escaped: false, buffer: buf + s, needed: Some(n) });
            assert(resp_quiet(mid, e));
        } else {
            assert(e.drop_last() =~= Seq::<u8>::empty());
            assert(resp_feed(mid, e) == RespDecoderView { escaped: false, buffer: buf + s, needed: Some(n) });
            assert(resp_quiet(mid, e));
        }
    }
}

/// The decoder state in which a response's encoding is expected: fresh,
/// with the body length set beforehand for a read range.
pub open spec fn resp_start(r: ResponseView) -> RespDecoderView {
    match r {
        ResponseView::ReadRange { data } => RespDecoderView { escaped: false, buffer: seq![], needed: Some(data.len() + 1) },
        ResponseView::ExReadRange { data } => RespDecoderView {
            escaped: false,
            buffer: seq![],
            needed: Some(data.len() + 1),
        },
        _ => resp_fresh(),
    }
}

/// The code and body of an admissible response parse back to it.
proof fn lemma_parse_response_body(r: ResponseView)
    requires
        response_admissible(r),
        bodiless_response(response_code(r)) is None,
    ensures
        parse_response(seq![response_code(r)] + response_body(r)) == Ok::<Option<ResponseView>, Error>(Some(r)),
{
    let b = seq![response_code(r)] + response_body(r);
    match r {
        ResponseView::CrcRxBuffer { length, crc } => {
            lemma_le_u16_round_trip(length);
            lemma_le_u32_round_trip(crc);
        },
        ResponseView::ReadRange { data } => {
            assert(b.subrange(1, b.len() as int) =~= data);
        },
        ResponseView::ExReadRange { data } => {
            assert(b.subrange(1, b.len() as int) =~= data);
        },
        ResponseView::GetAttr { key, value } => {
            assert(b[9] == value.len() as u8);
            assert(b.subrange(1, 9) =~= key);
            assert(b.subrange(10, 10 + value.len() as int) =~= value);
        },
        ResponseView::CrcIntFlash { crc } => lemma_le_u32_round_trip(crc),
        ResponseView::CrcExtFlash { crc } => lemma_le_u32_round_trip(crc),
        ResponseView::Info { info } => {
            assert(b[1] == info.len() as u8);
            assert(b.subrange(2, 2 + info.len() as int) =~= info);
        },
        _ => {},
    }
}

/// Round trip of responses: a decoder in the state that expects a response
/// (fresh; for a read range, with its length set) fed the response's
/// encoding stays silent until the last byte, and on the last byte reports
/// exactly that response and is fresh again. A read range must fit the
/// decoder's buffer.
pub proof fn lemma_response_round_trip(r: ResponseView)
    requires
        response_admissible(r),
        r is ReadRange ==> r->ReadRange_data.len() < BUFFER_LEN,
        r is ExReadRange ==> r->ExReadRange_data.len() < BUFFER_LEN,
    ensures
        ({
            let s = encode_response(r);
            let d = resp_feed(resp_start(r), s.drop_last());
            &&& resp_quiet(resp_start(r), s.drop_last())
            &&& resp_step(d, s.last()) == (resp_fresh(), Ok::<Option<ResponseView>, Error>(Some(r)))
        }),
{
    let d0 = resp_start(r);
    let code = response_code(r);
    let body = response_body(r);
    let s = encode_response(r);
    let hdr = seq![ESCAPE_CHAR, code];
    assert(hdr.drop_last() =~= seq![ESCAPE_CHAR]);
    assert(seq![ESCAPE_CHAR].drop_last() =~= Seq::<u8>::empty());
    assert(resp_feed(d0, Seq::<u8>::empty()) == d0);
    assert(resp_quiet(d0, Seq::<u8>::empty()));
    let esc = RespDecoderView { escaped: true, ..d0 };
    assert(resp_feed(d0, seq![ESCAPE_CHAR]) == esc);
    assert(resp_quiet(d0, seq![ESCAPE_CHAR]));
    if bodiless_response(code) is Some {
        assert(body.len() == 0);
        assert(s =~= hdr);
    } else if body.len() == 0 {
        // An empty read range: the code itself completes the frame.
        assert(s =~= hdr);
        assert(seq![code] =~= Seq::<u8>::empty().push(code));
        assert(seq![code].subrange(1, 1) =~= body);
        lemma_parse_response_body(r);
        assert(seq![code] + body =~= seq![code]);
    } else {
        let n = body.len();
        assert(n >= 1);
        assert(n + 1 <= BUFFER_LEN);
        let d1 = RespDecoderView { escaped: false, buffer: seq![code], needed: Some(n + 1) };
        assert(seq![code] =~= Seq::<u8>::empty().push(code));
        assert(resp_step(esc, code) == (d1, Ok::<Option<ResponseView>, Error>(None)));
        assert(resp_feed(d0, hdr) == d1);
        assert(resp_quiet(d0, hdr));
        let b0 = body.drop_last();
        let x = body.last();
        lemma_resp_escape_transparent(seq![code], n + 1, b0);
        lemma_escape_append(b0, seq![x]);
        assert(body =~= b0 + seq![x]);
        assert(escape(seq![x]) =~= escape_byte(x)) by {
            assert(seq![x].drop_last() =~= Seq::<u8>::empty());
        }
        let d2 = RespDecoderView { escaped: false, buffer: seq![code] + b0, needed: Some(n + 1) };
        lemma_parse_response_body(r);
        assert((seq![code] + b0).push(x) =~= seq![code] + body);
        if x == ESCAPE_CHAR {
            assert(s.drop_last() =~= hdr + escape(b0) + seq![ESCAPE_CHAR]);
            lemma_resp_feed_append(d0, hdr, escape(b0));
            lemma_resp_feed_append(d0, hdr + escape(b0), seq![ESCAPE_CHAR]);
            assert(resp_feed(d2, Seq::<u8>::empty()) == d2);
            assert(resp_quiet(d2, Seq::<u8>::empty()));
            assert(resp_feed(d2, seq![ESCAPE_CHAR]) == RespDecoderView { escaped: true, ..d2 });
            assert(resp_quiet(d2, seq![ESCAPE_CHAR]));
        } else {
            assert(s.drop_last() =~= hdr + escape(b0));
            lemma_resp_feed_append(d0, hdr, escape(b0));
        }
    }
}

/// Takes bytes and gives `Response`s.
pub struct ResponseDecoder {
    state: DecoderState,
    buffer: Vec<u8>,
    needed: Option<usize>,
}

impl View for ResponseDecoder {
    type V = RespDecoderView;

    closed spec fn view(&self) -> RespDecoderView {
        RespDecoderView {
            escaped: self.state == DecoderState::Escape,
            buffer: self.buffer@,
            needed: match self.needed {
                Some(n) => Some(n as nat),
                None => None,
            },
        }
    }
}

impl ResponseDecoder {
    /// A decoder that has seen nothing.
    pub fn new() -> (r: ResponseDecoder)
        ensures
            r@ == resp_fresh(),
    {
        let r = ResponseDecoder { state: DecoderState::Loading, buffer: Vec::new(), needed: None };
        assert(r@.buffer =~= Seq::<u8>::empty());
        r
    }

    /// Feeds a whole buffer, handing each decoded response to `callback`,
    /// and stops at the first error.
    pub fn read<F: Fn(&Response)>(&mut self, buffer: &[u8], callback: F) -> (r: Result<(), Error>)
        requires
            forall|c: &Response| callback.requires((c,)),
        ensures
            (final(self)@, r) == resp_read(old(self)@, buffer@),
    {
        let mut i: usize = 0;
        while i < buffer.len()
            invariant
                i <= buffer@.len(),
                forall|c: &Response| callback.requires((c,)),
                (self@, Ok::<(), Error>(())) == resp_read(old(self)@, buffer@.subrange(0, i as int)),
            decreases buffer@.len() - i,
        {
            let res = self.receive(buffer[i]);
            proof {
                assert(buffer@.subrange(0, i + 1).drop_last() =~= buffer@.subrange(0, i as int));
            }
            match res {
                Err(e) => {
                    proof {
                        lemma_resp_read_stops(old(self)@, buffer@, i + 1);
                    }
                    return Err(e);
                },
                Ok(None) => {},
                Ok(Some(rsp)) => {
                    callback(&rsp);
                },
            }
            i = i + 1;
        }
        assert(buffer@.subrange(0, i as int) =~= buffer@);
        Ok(())
    }

    /// Empties the buffer.
    pub fn reset(&mut self)
        ensures
            final(self)@ == (RespDecoderView { buffer: seq![], ..old(self)@ }),
    {
        self.buffer = Vec::new();
        assert(self.buffer@ =~= Seq::<u8>::empty());
    }

    /// Processes one incoming byte: `Ok(None)` until a response is
    /// complete, then the response, or an error.
    pub fn receive(&mut self, ch: u8) -> (r: Result<Option<Response>, Error>)
        ensures
            (final(self)@, resp_result_view(r)) == resp_step(old(self)@, ch),
    {
        match self.state {
            DecoderState::Loading => self.handle_loading(ch),
            DecoderState::Escape => self.handle_escape(ch),
        }
    }

    /// Sets the length of the next response whose length the code does not
    /// fix (a read range): the body holds `length` bytes.
    pub fn set_payload_len(&mut self, length: usize) -> (r: Result<(), Error>)
        requires
            length < usize::MAX,
        ensures
            old(self)@.needed is Some ==> r == Err::<(), Error>(Error::SetLength) && final(self)@ == old(self)@,
            old(self)@.needed is None ==> r == Ok::<(), Error>(()) && final(self)@ == (RespDecoderView {
                needed: Some((length + 1) as nat),
                ..old(self)@
            }),
    {
        match self.needed {
            Some(_) => Err(Error::SetLength),
            None => {
                self.needed = Some(length + 1);
                Ok(())
            },
        }
    }

    fn load_char(&mut self, ch: u8) -> (r: Result<Option<Response>, Error>)
        ensures
            (final(self)@, resp_result_view(r)) == resp_load(old(self)@, ch),
            final(self).state == old(self).state,
    {
        if self.buffer.len() < BUFFER_LEN {
            self.buffer.push(ch);
        }
        let complete = match self.needed {
            Some(n) => n == self.buffer.len(),
            None => false,
        };
        if complete {
            let result = parse_buffer(&self.buffer);
            self.needed = None;
            self.buffer = Vec::new();
            assert(self.buffer@ =~= Seq::<u8>::empty());
            result
        } else {
            Ok(None)
        }
    }

    fn handle_loading(&mut self, ch: u8) -> (r: Result<Option<Response>, Error>)
        requires
            old(self).state == DecoderState::Loading,
        ensures
            (final(self)@, resp_result_view(r)) == resp_step(old(self)@, ch),
    {
        if ch == ESCAPE_CHAR {
            self.state = DecoderState::Escape;
            Ok(None)
        } else {
            self.load_char(ch)
        }
    }

    fn handle_escape(&mut self, ch: u8) -> (r: Result<Option<Response>, Error>)
        requires
            old(self).state == DecoderState::Escape,
        ensures
            (final(self)@, resp_result_view(r)) == resp_step(old(self)@, ch),
    {
        self.state = DecoderState::Loading;
        if ch == ESCAPE_CHAR {
            // A doubled escape stands for one escape byte.
            return self.load_char(ch);
        }
        let bodiless = bodiless_response_of(ch);
        if let Some(rsp) = bodiless {
            self.buffer = Vec::new();
            self.needed = None;
            assert(self.buffer@ =~= Seq::<u8>::empty());
            return Ok(Some(rsp));
        }
        let fixed: Option<usize> = if ch == RES_CRCRX {
            Some(6)
        } else if ch == RES_GATTR {
            Some(1 + KEY_LEN + MAX_ATTR_LEN)
        } else if ch == RES_CRCIF || ch == RES_CRCXF {
            Some(4)
        } else if ch == RES_INFO {
            Some(1 + MAX_INFO_LEN)
        } else {
            None
        };
        if let Some(len) = fixed {
            if self.needed.is_some() {
                return Err(Error::SetLength);
            }
            self.needed = Some(len + 1);
            match self.load_char(ch) {
                Err(e) => Err(e),
                Ok(_) => Ok(None),
            }
        } else if ch == RES_RRANGE || ch == RES_XRRANGE {
            if self.needed.is_none() {
                return Err(Error::UnsetLength);
            }
            // With an empty body the code completes the frame.
            self.load_char(ch)
        } else {
            Ok(None)
        }
    }
}

/// The bodiless response that a code stands for, if any.
fn bodiless_response_of(code: u8) -> (r: Option<Response>)
    ensures
        match r {
            Some(x) => bodiless_response(code) == Some(x@),
            None => bodiless_response(code) is None,
        },
{
    if code == RES_PONG {
        Some(Response::Pong)
    } else if code == RES_OVERFLOW {
        Some(Response::Overflow)
    } else if code == RES_BADADDR {
        Some(Response::BadAddress)
    } else if code == RES_INTERROR {
        Some(Response::InternalError)
    } else if code == RES_BADARGS {
        Some(Response::BadArguments)
    } else if code == RES_OK {
        Some(Response::Okay)
    } else if code == RES_UNKNOWN {
        Some(Response::Unknown)
    } else if code == RES_XFTIMEOUT {
        Some(Response::ExtFlashTimeout)
    } else if code == RES_XFEPE {
        Some(Response::ExtFlashPageError)
    } else if code == RES_CHANGE_BAUD_FAIL {
        Some(Response::ChangeBaudFail)
    } else {
        None
    }
}

/// Parses a full response buffer: its code, then its body.
fn parse_buffer(b: &Vec<u8>) -> (r: Result<Option<Response>, Error>)
    ensures
        resp_result_view(r) == parse_response(b@),
{
    let n = b.len();
    let s = b.as_slice();
    if n == 0 {
        Err(Error::UnknownCommand)
    } else if b[0] == RES_CRCRX {
        if n >= 7 {
            Ok(Some(Response::CrcRxBuffer { length: read_u16(s, 1), crc: read_u32(s, 3) }))
        } else {
            Err(Error::BadArguments)
        }
    } else if b[0] == RES_RRANGE {
        Ok(Some(Response::ReadRange { data: copy_range(b, 1, n) }))
    } else if b[0] == RES_XRRANGE {
        Ok(Some(Response::ExReadRange { data: copy_range(b, 1, n) }))
    } else if b[0] == RES_GATTR {
        if n >= 10 && 10 + (b[9] as usize) <= n {
            let len = b[9] as usize;
            Ok(Some(Response::GetAttr { key: copy_range(b, 1, 9), value: copy_range(b, 10, 10 + len) }))
        } else {
            Err(Error::BadArguments)
        }
    } else if b[0] == RES_CRCIF || b[0] == RES_CRCXF {
        if n >= 5 {
            let crc = read_u32(s, 1);
            Ok(Some(
                if b[0] == RES_CRCIF {
                    Response::CrcIntFlash { crc }
                } else {
                    Response::CrcExtFlash { crc }
                },
            ))
        } else {
            Err(Error::BadArguments)
        }
    } else if b[0] == RES_INFO {
        if n >= 2 && (b[1] as usize) + 2 <= n {
            let len = b[1] as usize;
            Ok(Some(Response::Info { info: copy_range(b, 2, 2 + len) }))
        } else {
            Err(Error::BadArguments)
        }
    } else {
        Err(Error::UnknownCommand)
    }
}

/// Appends `s` padded with zeros to length `n`.
fn push_padded(out: &mut Vec<u8>, s: &[u8], n: usize)
    requires
        s@.len() <= n,
    ensures
        final(out)@ == old(out)@ + pad(s@, n as nat),
{
    let mut i: usize = 0;
    while i < n
        invariant
            s@.len() <= n,
            i <= n,
            out@ == old(out)@ + pad(s@, n as nat).subrange(0, i as int),
        decreases n - i,
    {
        if i < s.len() {
            out.push(s[i]);
        } else {
            out.push(0u8);
        }
        i = i + 1;
        assert(out@ =~= old(out)@ + pad(s@, n as nat).subrange(0, i as int));
    }
    assert(pad(s@, n as nat).subrange(0, i as int) =~= pad(s@, n as nat));
}

/// The body of an admissible response, before escaping.
fn response_body_of(r: &Response) -> (b: Vec<u8>)
    requires
        response_admissible(r@),
    ensures
        b@ == response_body(r@),
{
    let mut out: Vec<u8> = Vec::new();
    match r {
        Response::CrcRxBuffer { length, crc } => {
            push_u16(&mut out, *length);
            push_u32(&mut out, *crc);
        },
        Response::ReadRange { data } => push_all(&mut out, data.as_slice()),
        Response::ExReadRange { data } => push_all(&mut out, data.as_slice()),
        Response::GetAttr { key, value } => {
            push_all(&mut out, key.as_slice());
            out.push(value.len() as u8);
            push_padded(&mut out, value.as_slice(), MAX_ATTR_LEN);
        },
        Response::CrcIntFlash { crc } => push_u32(&mut out, *crc),
        Response::CrcExtFlash { crc } => push_u32(&mut out, *crc),
        Response::Info { info } => {
            out.push(info.len() as u8);
            push_padded(&mut out, info.as_slice(), MAX_INFO_LEN);
        },
        _ => {},
    }
    assert(out@ =~= response_body(r@));
    out
}

/// The code at the head of a response.
fn response_code_of(r: &Response) -> (c: u8)
    ensures
        c == response_code(r@),
{
    match r {
        Response::Overflow => RES_OVERFLOW,
        Response::Pong => RES_PONG,
        Response::BadAddress => RES_BADADDR,
        Response::InternalError => RES_INTERROR,
        Response::BadArguments => RES_BADARGS,
        Response::Okay => RES_OK,
        Response::Unknown => RES_UNKNOWN,
        Response::ExtFlashTimeout => RES_XFTIMEOUT,
        Response::ExtFlashPageError => RES_XFEPE,
        Response::CrcRxBuffer { .. } => RES_CRCRX,
        Response::ReadRange { .. } => RES_RRANGE,
        Response::ExReadRange { .. } => RES_XRRANGE,
        Response::GetAttr { .. } => RES_GATTR,
        Response::CrcIntFlash { .. } => RES_CRCIF,
        Response::CrcExtFlash { .. } => RES_CRCXF,
        Response::Info { .. } => RES_INFO,
        Response::ChangeBaudFail => RES_CHANGE_BAUD_FAIL,
    }
}

/// Takes a `Response` and gives its bytes.
pub struct ResponseEncoder {
    bytes: Vec<u8>,
    count: usize,
}

impl View for ResponseEncoder {
    type V = EncoderView;

    closed spec fn view(&self) -> EncoderView {
        EncoderView { bytes: self.bytes@, count: self.count as nat }
    }
}

impl ResponseEncoder {
    #[verifier::type_invariant]
    spec fn inv(self) -> bool {
        self.count <= self.bytes@.len()
    }

    /// An encoder for `response`; `BadArguments` unless it is admissible
    /// (an 8-byte key and a value of at most 55 bytes, an info string of
    /// at most 192 bytes).
    pub fn new(response: &Response) -> (r: Result<ResponseEncoder, Error>)
        ensures
            response_admissible(response@) ==> (r matches Ok(e) && e@ == (EncoderView {
                bytes: encode_response(response@),
                count: 0,
            })),
            !response_admissible(response@) ==> r == Err::<ResponseEncoder, Error>(Error::BadArguments),
    {
        match response {
            Response::GetAttr { key, value } => {
                if key.len() != KEY_LEN || value.len() > MAX_ATTR_LEN {
                    return Err(Error::BadArguments);
                }
            },
            Response::Info { info } => {
                if info.len() > MAX_INFO_LEN {
                    return Err(Error::BadArguments);
                }
            },
            _ => {},
        }
        let body = response_body_of(response);
        let mut bytes: Vec<u8> = Vec::new();
        bytes.push(ESCAPE_CHAR);
        bytes.push(response_code_of(response));
        push_escaped_all(&mut bytes, body.as_slice());
        assert(bytes@ =~= encode_response(response@));
        Ok(ResponseEncoder { bytes, count: 0 })
    }

    /// Starts over from the first byte.
    pub fn reset(&mut self)
        ensures
            final(self)@ == (EncoderView { bytes: old(self)@.bytes, count: 0 }),
    {
        self.count = 0;
    }

    /// The next byte of the message; `None` once all were handed out.
    pub fn next(&mut self) -> (r: Option<u8>)
        ensures
            old(self)@.count < old(self)@.bytes.len() ==> r == Some(old(self)@.bytes[old(self)@.count as int])
                && final(self)@ == (EncoderView { bytes: old(self)@.bytes, count: old(self)@.count + 1 }),
            old(self)@.count >= old(self)@.bytes.len() ==> r is None && final(self)@ == old(self)@,
    {
        proof {
            use_type_invariant(&*self);
        }
        if self.count < self.bytes.len() {
            let b = self.bytes[self.count];
            self.count = self.count + 1;
            Some(b)
        } else {
            None
        }
    }

    /// Copies the next bytes into `buffer` and returns how many: as many as
    /// fit, or as many as are left.
    pub fn write(&mut self, buffer: &mut [u8]) -> (n: usize)
        ensures
            is_min(n as int, old(buffer)@.len() as int, old(self)@.bytes.len() - old(self)@.count),
            final(self)@ == (EncoderView { bytes: old(self)@.bytes, count: (old(self)@.count + n) as nat }),
            final(buffer)@.len() == old(buffer)@.len(),
            final(buffer)@.subrange(0, n as int) == old(self)@.bytes.subrange(
                old(self)@.count as int,
                old(self)@.count + n,
            ),
            final(buffer)@.subrange(n as int, final(buffer)@.len() as int) == old(buffer)@.subrange(
                n as int,
                old(buffer)@.len() as int,
            ),
    {
        proof {
            use_type_invariant(&*self);
        }
        let total = self.bytes.len();
        let n = write_of(&self.bytes, self.count, buffer);
        assert(self.count + n <= total);
        self.count = self.count + n;
        n
    }
}

impl Encoder for ResponseEncoder {
    open spec fn encoder_state(&self) -> EncoderView {
        self@
    }

    fn reset(&mut self) {
        self.count = 0;
    }

    fn write(&mut self, buffer: &mut [u8]) -> (n: usize) {
        proof {
            use_type_invariant(&*self);
        }
        let total = self.bytes.len();
        let n = write_of(&self.bytes, self.count, buffer);
        assert(self.count + n <= total);
        self.count = self.count + n;
        n
    }
}

} // verus!
