//! The bootloader's request engine.
//!
//! The engine is a state machine driven by completions: a receive that
//! delivered bytes, a finished transmit, a finished flash read, write or
//! erase. Each completion yields exactly one next operation (an `Action`),
//! which the surroundings perform and answer with the next completion. The
//! engine never has more than one operation in flight.
use vstd::prelude::*;

use crate::bytes::{hex_digit, le_u32, read_u32, to_hex_digit, u32_le_bytes};
use crate::crc::{crc32, crc_fold, crc_feed};
use crate::protocol::{
    push_all, push_escaped, cmd_fresh, cmd_step, escape, escape_byte, pad, CmdDecoderView, Command, CommandDecoder, CommandView, Error,
    ESCAPE_CHAR, KEY_LEN, MAX_ATTR_LEN, RES_BADADDR, RES_BADARGS, RES_CRCIF, RES_GATTR, RES_INFO, RES_INTERROR,
    RES_OK, RES_PONG, RES_RRANGE, RES_UNKNOWN,
};

verus! {

/// Capacity of the scratch buffer that frames are received into and sent from.
pub const SCRATCH_LEN: usize = 600;
/// Baud rate of the serial link (8 data bits, no parity, one stop bit, no
/// flow control).
pub const BAUD_RATE: u32 = 115200;
/// Inter-byte timeout of a receive, in bit periods.
pub const UART_RECEIVE_TIMEOUT: u8 = 100;
/// Size of one attribute slot.
pub const ATTR_SLOT_LEN: usize = 64;
/// Number of attribute slots.
pub const ATTR_SLOTS: usize = 16;
/// Offset of the version string in the flags region.
pub const VERSION_OFFSET: usize = 14;
/// Longest version string.
pub const VERSION_LEN: usize = 8;
/// Offset of the start address in the flags region.
pub const START_ADDRESS_OFFSET: usize = 32;
/// Length of an info frame on the wire.
pub const INFO_FRAME_LEN: usize = 195;

/// Where things are in flash, and the page size the engine works in.
#[derive(Clone, Copy, Debug, PartialEq, Eq, Structural)]
pub struct Layout {
    /// Size of a flash page as the engine sees it.
    pub page_size: usize,
    /// Start of the flags region.
    pub flags_address: usize,
    /// Start of the attribute slots.
    pub attributes_address: usize,
    /// Start of the bootloader's own code.
    pub bootloader_address: u32,
    /// End (exclusive) of the bootloader's own code.
    pub bootloader_end_address: u32,
}

/// A layout the engine can work with: pages of a multiple of 512 bytes, a
/// flags region on a 512-byte boundary, attribute slots on a 64-byte
/// boundary, all within the address space.
pub open spec fn layout_ok(l: Layout) -> bool {
    &&& l.page_size >= 512
    &&& l.page_size % 512 == 0
    &&& l.flags_address % 512 == 0
    &&& l.flags_address + 512 <= usize::MAX
    &&& l.attributes_address % 64 == 0
    &&& l.attributes_address + ATTR_SLOTS * ATTR_SLOT_LEN <= usize::MAX
}

/// The engine's state between operations.
#[derive(Clone, Copy, Debug, PartialEq, Eq, Structural)]
pub enum State {
    /// Waiting for the next command.
    Idle,
    /// Reading the flags page to answer an info request.
    Info,
    /// Waiting for an erase.
    ErasePage,
    /// Reading the page that holds an attribute slot.
    GetAttribute { index: u8 },
    /// Read-modify-write of an attribute slot.
    SetAttribute { index: u8 },
    /// Read-modify-write of the start address.
    SetStartAddress { address: u32 },
    /// Waiting for a page write.
    WriteFlashPage,
    /// Streaming a range of flash to the host.
    ReadRange { address: u32, length: u16, remaining_length: u16 },
    /// Computing a CRC over a range of flash.
    Crc { address: u32, remaining_length: u32, crc: u32 },
}

/// The one operation in flight, which the next completion answers.
#[derive(Clone, Copy, Debug, PartialEq, Eq, Structural)]
pub enum Pending {
    Nothing,
    Receive,
    Transmit,
    Read,
    Write,
    Erase,
}

/// What the engine asks its surroundings to do next.
#[derive(Debug, PartialEq)]
pub enum Action {
    /// Arm a receive-until-idle into a buffer of `SCRATCH_LEN` bytes.
    Receive,
    /// Send these bytes.
    Transmit { data: Vec<u8> },
    /// Read this flash page.
    ReadPage { page: usize },
    /// Write these bytes to this flash page.
    WritePage { page: usize, data: Vec<u8> },
    /// Erase this flash page.
    ErasePage { page: usize },
    /// Invoke the reset hook.
    ResetChip,
    /// Nothing: the completion did not answer the operation in flight.
    Wait,
}

/// An action as a mathematical value.
pub ghost enum ActionView {
    Receive,
    Transmit { data: Seq<u8> },
    ReadPage { page: nat },
    WritePage { page: nat, data: Seq<u8> },
    ErasePage { page: nat },
    ResetChip,
    Wait,
}

impl View for Action {
    type V = ActionView;

    open spec fn view(&self) -> ActionView {
        match self {
            Action::Receive => ActionView::Receive,
            Action::Transmit { data } => ActionView::Transmit { data: data@ },
            Action::ReadPage { page } => ActionView::ReadPage { page: *page as nat },
            Action::WritePage { page, data } => ActionView::WritePage { page: *page as nat, data: data@ },
            Action::ErasePage { page } => ActionView::ErasePage { page: *page as nat },
            Action::ResetChip => ActionView::ResetChip,
            Action::Wait => ActionView::Wait,
        }
    }
}

/// The operation an action puts in flight.
pub open spec fn pending_of(a: ActionView) -> Pending {
    match a {
        ActionView::Receive => Pending::Receive,
        ActionView::Transmit { .. } => Pending::Transmit,
        ActionView::ReadPage { .. } => Pending::Read,
        ActionView::WritePage { .. } => Pending::Write,
        ActionView::ErasePage { .. } => Pending::Erase,
        ActionView::ResetChip => Pending::Nothing,
        ActionView::Wait => Pending::Nothing,
    }
}

/// The engine as a mathematical value.
pub ghost struct EngineView {
    pub layout: Layout,
    pub state: State,
    pub pending: Pending,
    /// The attribute slot built when a `SetAttr` arrived.
    pub slot: Seq<u8>,
}

/// An engine in a consistent state: a workable layout, attribute indices
/// below 16, and a 64-byte slot while a slot write is under way.
pub open spec fn engine_ok(e: EngineView) -> bool {
    &&& layout_ok(e.layout)
    &&& (e.state matches State::GetAttribute { index } ==> index < ATTR_SLOTS)
    &&& (e.state matches State::SetAttribute { index } ==> index < ATTR_SLOTS && e.slot.len() == ATTR_SLOT_LEN)
}

/// A completion as a mathematical value.
pub ghost enum Event {
    Received { rx: Seq<u8>, ok: bool },
    Transmitted { ok: bool },
    ReadDone { page: Seq<u8>, ok: bool },
    Written { ok: bool },
    Erased { ok: bool },
}

/// The operation that a completion answers.
pub open spec fn answers(ev: Event) -> Pending {
    match ev {
        Event::Received { .. } => Pending::Receive,
        Event::Transmitted { .. } => Pending::Transmit,
        Event::ReadDone { .. } => Pending::Read,
        Event::Written { .. } => Pending::Write,
        Event::Erased { .. } => Pending::Erase,
    }
}

/// The engine's step: where a completion takes it, and what it asks for.
pub open spec fn handle(e: EngineView, ev: Event) -> (EngineView, ActionView) {
    if e.pending != answers(ev) {
        (e, ActionView::Wait)
    } else {
        let (e1, a) = match ev {
            Event::Received { rx, ok } => if !ok {
                (e, ActionView::Receive)
            } else {
                dispatch(e, first_outcome(cmd_fresh(), rx))
            },
            Event::Transmitted { ok } => on_transmitted(e, ok),
            Event::ReadDone { page, ok } => on_read(e, page, ok),
            Event::Written { ok } => on_written(e, ok),
            Event::Erased { ok } => on_erased(e, ok),
        };
        (EngineView { pending: pending_of(a), ..e1 }, a)
    }
}

/// A two-byte reply.
pub open spec fn reply(code: u8) -> Seq<u8> {
    seq![ESCAPE_CHAR, code]
}

/// The flash page that holds `address`.
pub open spec fn page_of(l: Layout, address: int) -> nat {
    (address / l.page_size as int) as nat
}

/// The address of attribute slot `index`.
pub open spec fn slot_address(l: Layout, index: u8) -> int {
    l.attributes_address + index * ATTR_SLOT_LEN
}

/// The 64 bytes of an attribute slot: the key, the value's length, the
/// value, zeros.
pub open spec fn slot_bytes(key: Seq<u8>, value: Seq<u8>) -> Seq<u8> {
    key + seq![value.len() as u8] + pad(value, MAX_ATTR_LEN as nat)
}

/// The first outcome of a received chunk that is not a `Reset`: a command,
/// a decode error, or nothing when the chunk runs out first. A `Reset`
/// empties the decoder and parsing goes on with the rest of the chunk.
pub open spec fn first_outcome(d: CmdDecoderView, s: Seq<u8>) -> Option<Result<CommandView, Error>>
    decreases s.len(),
{
    if s.len() == 0 {
        None
    } else {
        let (d1, r) = cmd_step(d, s[0]);
        match r {
            Ok(None) => first_outcome(d1, s.drop_first()),
            Ok(Some(CommandView::Reset)) => first_outcome(d1, s.drop_first()),
            Ok(Some(c)) => Some(Ok(c)),
            Err(e) => Some(Err(e)),
        }
    }
}

/// Where the engine goes and what it does on a received chunk's outcome,
/// starting from `e`.
pub open spec fn dispatch(e: EngineView, o: Option<Result<CommandView, Error>>) -> (EngineView, ActionView) {
    let l = e.layout;
    let idle = EngineView { state: State::Idle, ..e };
    match o {
        None => (idle, ActionView::Receive),
        Some(Err(Error::BadArguments)) => (idle, ActionView::Transmit { data: reply(RES_BADARGS) }),
        Some(Err(Error::UnknownCommand)) => (idle, ActionView::Transmit { data: reply(RES_UNKNOWN) }),
        Some(Err(_)) => (idle, ActionView::Transmit { data: reply(RES_INTERROR) }),
        Some(Ok(c)) => match c {
            CommandView::Ping => (idle, ActionView::Transmit { data: reply(RES_PONG) }),
            CommandView::Info => (
                EngineView { state: State::Info, ..e },
                ActionView::ReadPage { page: page_of(l, l.flags_address as int) },
            ),
            CommandView::ReadRange { address, length } => (
                EngineView { state: State::ReadRange { address, length, remaining_length: length }, ..e },
                ActionView::ReadPage { page: page_of(l, address as int) },
            ),
            CommandView::WritePage { address, data } => if data.len() != l.page_size {
                (idle, ActionView::Transmit { data: reply(RES_BADARGS) })
            } else if l.bootloader_address <= address < l.bootloader_end_address {
                (idle, ActionView::Transmit { data: reply(RES_BADADDR) })
            } else {
                (
                    EngineView { state: State::WriteFlashPage, ..e },
                    ActionView::WritePage { page: page_of(l, address as int), data },
                )
            },
            CommandView::ErasePage { address } => (
                EngineView { state: State::ErasePage, ..e },
                ActionView::ErasePage { page: page_of(l, address as int) },
            ),
            CommandView::CrcIntFlash { address, length } => (
                EngineView { state: State::Crc { address, remaining_length: length, crc: 0xFFFF_FFFFu32 }, ..e },
                ActionView::ReadPage { page: page_of(l, address as int) },
            ),
            CommandView::GetAttr { index } => (
                EngineView { state: State::GetAttribute { index }, ..e },
                ActionView::ReadPage { page: page_of(l, slot_address(l, index)) },
            ),
            CommandView::SetAttr { index, key, value } => (
                EngineView { state: State::SetAttribute { index }, slot: slot_bytes(key, value), ..e },
                ActionView::ReadPage { page: page_of(l, slot_address(l, index)) },
            ),
            CommandView::SetStartAddress { address } => (
                EngineView { state: State::SetStartAddress { address }, ..e },
                ActionView::ReadPage { page: page_of(l, l.flags_address as int) },
            ),
            CommandView::Exit => (idle, ActionView::ResetChip),
            _ => (idle, ActionView::Transmit { data: reply(RES_UNKNOWN) }),
        },
    }
}

/// Builds a two-byte reply.
fn reply_of(code: u8) -> (r: Vec<u8>)
    ensures
        r@ == reply(code),
{
    let mut r: Vec<u8> = Vec::new();
    r.push(ESCAPE_CHAR);
    r.push(code);
    assert(r@ =~= reply(code));
    r
}

/// The request engine.
pub struct Bootloader {
    layout: Layout,
    state: State,
    pending: Pending,
    slot: Vec<u8>,
}

impl View for Bootloader {
    type V = EngineView;

    closed spec fn view(&self) -> EngineView {
        EngineView { layout: self.layout, state: self.state, pending: self.pending, slot: self.slot@ }
    }
}

impl Bootloader {
    /// An idle engine over `layout`, with nothing in flight.
    pub fn new(layout: Layout) -> (r: Bootloader)
        requires
            layout_ok(layout),
        ensures
            r@ == (EngineView { layout, state: State::Idle, pending: Pending::Nothing, slot: seq![] }),
            engine_ok(r@),
    {
        let r = Bootloader { layout, state: State::Idle, pending: Pending::Nothing, slot: Vec::new() };
        assert(r.slot@ =~= Seq::<u8>::empty());
        r
    }

    /// The engine's state.
    pub fn state(&self) -> (r: State)
        ensures
            r == self@.state,
    {
        self.state
    }

    /// Starts listening: the first receive.
    pub fn start(&mut self) -> (a: Action)
        requires
            engine_ok(old(self)@),
        ensures
            engine_ok(final(self)@),
            a@ == ActionView::Receive,
            final(self)@ == (EngineView { state: State::Idle, pending: Pending::Receive, ..old(self)@ }),
    {
        self.state = State::Idle;
        self.pending = Pending::Receive;
        Action::Receive
    }

    /// A receive completed with the bytes `rx` (`ok` false: it failed).
    /// The chunk is decoded from a fresh decoder up to its first outcome,
    /// which is then carried out.
    pub fn received_buffer(&mut self, rx: &[u8], ok: bool) -> (a: Action)
        requires
            engine_ok(old(self)@),
        ensures
            engine_ok(final(self)@),
            (final(self)@, a@) == handle(old(self)@, Event::Received { rx: rx@, ok }),
            old(self)@.pending != Pending::Receive ==> a@ == ActionView::Wait && final(self)@ == old(self)@,
            old(self)@.pending == Pending::Receive && !ok ==> a@ == ActionView::Receive && final(self)@
                == old(self)@,
            old(self)@.pending == Pending::Receive && ok ==> ({
                let (e, act) = dispatch(old(self)@, first_outcome(cmd_fresh(), rx@));
                &&& a@ == act
                &&& final(self)@ == (EngineView { pending: pending_of(act), ..e })
            }),
    {
        if self.pending != Pending::Receive {
            return Action::Wait;
        }
        if !ok {
            return Action::Receive;
        }
        let outcome = first_command(rx);
        proof {
            lemma_first_outcome_in_range(cmd_fresh(), rx@);
        }
        let a = self.dispatch_outcome(outcome);
        self.pending = pending_kind(&a);
        a
    }

    fn dispatch_outcome(&mut self, o: Option<Result<Command, Error>>) -> (a: Action)
        requires
            engine_ok(old(self)@),
            outcome_in_range(outcome_view(o)),
        ensures
            engine_ok(final(self)@),
            ({
                let (e, act) = dispatch(old(self)@, outcome_view(o));
                &&& a@ == act
                &&& final(self)@ == (EngineView { pending: old(self)@.pending, ..e })
            }),
    {
        let l = self.layout;
        let ps = l.page_size;
        match o {
            None => {
                self.state = State::Idle;
                Action::Receive
            },
            Some(Err(Error::BadArguments)) => {
                self.state = State::Idle;
                Action::Transmit { data: reply_of(RES_BADARGS) }
            },
            Some(Err(Error::UnknownCommand)) => {
                self.state = State::Idle;
                Action::Transmit { data: reply_of(RES_UNKNOWN) }
            },
            Some(Err(_)) => {
                self.state = State::Idle;
                Action::Transmit { data: reply_of(RES_INTERROR) }
            },
            Some(Ok(c)) => match c {
                Command::Ping => {
                    self.state = State::Idle;
                    Action::Transmit { data: reply_of(RES_PONG) }
                },
                Command::Info => {
                    self.state = State::Info;
                    Action::ReadPage { page: l.flags_address / ps }
                },
                Command::ReadRange { address, length } => {
                    self.state = State::ReadRange { address, length, remaining_length: length };
                    Action::ReadPage { page: address as usize / ps }
                },
                Command::WritePage { address, data } => {
                    if data.len() != ps {
                        // Only whole pages are written.
                        self.state = State::Idle;
                        Action::Transmit { data: reply_of(RES_BADARGS) }
                    } else if address >= l.bootloader_address && address < l.bootloader_end_address {
                        // The bootloader does not overwrite itself.
                        self.state = State::Idle;
                        Action::Transmit { data: reply_of(RES_BADADDR) }
                    } else {
                        self.state = State::WriteFlashPage;
                        Action::WritePage { page: address as usize / ps, data }
                    }
                },
                Command::ErasePage { address } => {
                    self.state = State::ErasePage;
                    Action::ErasePage { page: address as usize / ps }
                },
                Command::CrcIntFlash { address, length } => {
                    self.state = State::Crc { address, remaining_length: length, crc: 0xFFFF_FFFF };
                    Action::ReadPage { page: address as usize / ps }
                },
                Command::GetAttr { index } => {
                    self.state = State::GetAttribute { index };
                    Action::ReadPage { page: (l.attributes_address + index as usize * ATTR_SLOT_LEN) / ps }
                },
                Command::SetAttr { index, key, value } => {
                    // The slot is built now and laid over the page once it was read.
                    self.state = State::SetAttribute { index };
                    self.slot = build_slot(&key, &value);
                    Action::ReadPage { page: (l.attributes_address + index as usize * ATTR_SLOT_LEN) / ps }
                },
                Command::SetStartAddress { address } => {
                    self.state = State::SetStartAddress { address };
                    Action::ReadPage { page: l.flags_address / ps }
                },
                Command::Exit => {
                    self.state = State::Idle;
                    Action::ResetChip
                },
                _ => {
                    self.state = State::Idle;
                    Action::Transmit { data: reply_of(RES_UNKNOWN) }
                },
            },
        }
    }
}

/// Whether the arguments of a decoded command are in range: attribute
/// indices below 16, keys of 8 bytes, values of at most 55 bytes.
pub open spec fn outcome_in_range(o: Option<Result<CommandView, Error>>) -> bool {
    match o {
        Some(Ok(CommandView::GetAttr { index })) => index < ATTR_SLOTS,
        Some(Ok(CommandView::SetAttr { index, key, value })) => index < ATTR_SLOTS && key.len() == KEY_LEN
            && value.len() <= MAX_ATTR_LEN,
        _ => true,
    }
}

/// The decoder only ever hands out commands whose arguments are in range.
proof fn lemma_first_outcome_in_range(d: CmdDecoderView, s: Seq<u8>)
    ensures
        outcome_in_range(first_outcome(d, s)),
    decreases s.len(),
{
    if s.len() > 0 {
        let (d1, r) = cmd_step(d, s[0]);
        lemma_first_outcome_in_range(d1, s.drop_first());
    }
}

/// The outcome as a mathematical value.
pub open spec fn outcome_view(o: Option<Result<Command, Error>>) -> Option<Result<CommandView, Error>> {
    match o {
        None => None,
        Some(Ok(c)) => Some(Ok(c@)),
        Some(Err(e)) => Some(Err(e)),
    }
}

/// The operation an action puts in flight.
fn pending_kind(a: &Action) -> (p: Pending)
    ensures
        p == pending_of(a@),
{
    match a {
        Action::Receive => Pending::Receive,
        Action::Transmit { .. } => Pending::Transmit,
        Action::ReadPage { .. } => Pending::Read,
        Action::WritePage { .. } => Pending::Write,
        Action::ErasePage { .. } => Pending::Erase,
        Action::ResetChip => Pending::Nothing,
        Action::Wait => Pending::Nothing,
    }
}

/// Builds an attribute slot from a key of 8 bytes and a value of at most
/// 55 bytes.
fn build_slot(key: &Vec<u8>, value: &Vec<u8>) -> (r: Vec<u8>)
    requires
        key@.len() == KEY_LEN,
        value@.len() <= MAX_ATTR_LEN,
    ensures
        r@ == slot_bytes(key@, value@),
        r@.len() == ATTR_SLOT_LEN,
{
    let mut r: Vec<u8> = Vec::new();
    let mut i: usize = 0;
    while i < KEY_LEN
        invariant
            i <= KEY_LEN,
            key@.len() == KEY_LEN,
            r@ == key@.subrange(0, i as int),
        decreases KEY_LEN - i,
    {
        r.push(key[i]);
        i = i + 1;
        assert(r@ =~= key@.subrange(0, i as int));
    }
    r.push(value.len() as u8);
    let mut j: usize = 0;
    while j < MAX_ATTR_LEN
        invariant
            j <= MAX_ATTR_LEN,
            key@.len() == KEY_LEN,
            value@.len() <= MAX_ATTR_LEN,
            r@ == key@ + seq![value@.len() as u8] + pad(value@, MAX_ATTR_LEN as nat).subrange(0, j as int),
        decreases MAX_ATTR_LEN - j,
    {
        if j < value.len() {
            r.push(value[j]);
        } else {
            r.push(0u8);
        }
        j = j + 1;
        assert(r@ =~= key@ + seq![value@.len() as u8] + pad(value@, MAX_ATTR_LEN as nat).subrange(0, j as int));
    }
    assert(pad(value@, MAX_ATTR_LEN as nat).subrange(0, j as int) =~= pad(value@, MAX_ATTR_LEN as nat));
    r
}

/// Decodes a received chunk from a fresh decoder up to its first outcome
/// that is not a `Reset`.
fn first_command(rx: &[u8]) -> (o: Option<Result<Command, Error>>)
    ensures
        outcome_view(o) == first_outcome(cmd_fresh(), rx@),
{
    let mut decoder = CommandDecoder::new();
    let mut i: usize = 0;
    assert(rx@.subrange(0, rx@.len() as int) =~= rx@);
    while i < rx.len()
        invariant
            i <= rx@.len(),
            first_outcome(cmd_fresh(), rx@) == first_outcome(decoder@, rx@.subrange(i as int, rx@.len() as int)),
        decreases rx@.len() - i,
    {
        let ghost rest = rx@.subrange(i as int, rx@.len() as int);
        let ghost before = decoder@;
        let r = decoder.receive(rx[i]);
        proof {
            assert(rest[0] == rx@[i as int]);
            assert(rest.drop_first() =~= rx@.subrange(i + 1, rx@.len() as int));
        }
        match r {
            Ok(None) => {},
            Ok(Some(Command::Reset)) => {
                // A reset empties the decoder; parsing goes on.
                decoder.reset();
                assert(decoder@ == cmd_step(before, rx@[i as int]).0);
            },
            Ok(Some(c)) => {
                return Some(Ok(c));
            },
            Err(e) => {
                return Some(Err(e));
            },
        }
        i = i + 1;
    }
    None
}

// ---------------------------------------------------------------------------
// Completions of flash and transmit operations
// ---------------------------------------------------------------------------

/// `{"version":"`
pub open spec fn json_head() -> Seq<u8> {
    seq![0x7Bu8, 0x22, 0x76, 0x65, 0x72, 0x73, 0x69, 0x6F, 0x6E, 0x22, 0x3A, 0x22]
}

/// `", "start_address":"0x`
pub open spec fn json_mid() -> Seq<u8> {
    seq![
        0x22u8, 0x2C, 0x20, 0x22, 0x73, 0x74, 0x61, 0x72, 0x74, 0x5F, 0x61, 0x64, 0x64, 0x72, 0x65, 0x73,
        0x73, 0x22, 0x3A, 0x22, 0x30, 0x78,
    ]
}

/// `", "name":"Tock Bootloader"}`
pub open spec fn json_tail() -> Seq<u8> {
    seq![
        0x22u8, 0x2C, 0x20, 0x22, 0x6E, 0x61, 0x6D, 0x65, 0x22, 0x3A, 0x22, 0x54, 0x6F, 0x63, 0x6B, 0x20,
        0x42, 0x6F, 0x6F, 0x74, 0x6C, 0x6F, 0x61, 0x64, 0x65, 0x72, 0x22, 0x7D,
    ]
}

/// How many bytes of `s` come before its first NUL.
pub open spec fn nul_free_len(s: Seq<u8>) -> nat
    decreases s.len(),
{
    if s.len() == 0 || s[0] == 0 { 0 } else { 1 + nul_free_len(s.drop_first()) }
}

/// A NUL-free prefix is no longer than the whole.
proof fn lemma_nul_free_len_bound(s: Seq<u8>)
    ensures
        nul_free_len(s) <= s.len(),
    decreases s.len(),
{
    if s.len() > 0 && s[0] != 0 {
        lemma_nul_free_len_bound(s.drop_first());
    }
}

/// The eight hex digits of `v`, most significant first.
pub open spec fn hex8(v: u32) -> Seq<u8> {
    Seq::new(8, |i: int| hex_digit(((v >> ((28 - 4 * i) as u32)) & 0xFu32) as u8))
}

/// The JSON text of an info reply, from the flags region at `off` in `page`.
pub open spec fn info_json(page: Seq<u8>, off: int) -> Seq<u8> {
    let v = page.subrange(off + VERSION_OFFSET, off + VERSION_OFFSET + VERSION_LEN);
    let a = off + START_ADDRESS_OFFSET;
    json_head() + v.subrange(0, nul_free_len(v) as int) + json_mid() + hex8(le_u32(page[a], page[a + 1], page[a + 2], page[a + 3]))
        + json_tail()
}

/// The info frame: header, length byte, JSON, zeros up to 195 bytes.
pub open spec fn info_frame(page: Seq<u8>, off: int) -> Seq<u8> {
    let j = info_json(page, off);
    seq![ESCAPE_CHAR, RES_INFO, j.len() as u8] + j + Seq::new((INFO_FRAME_LEN - 3 - j.len()) as nat, |i: int| 0u8)
}

/// The reply to a CRC request: header, then the CRC's four little-endian
/// bytes, escaped.
pub open spec fn crc_reply(crc: u32) -> Seq<u8> {
    seq![ESCAPE_CHAR, RES_CRCIF] + escape(u32_le_bytes(crc))
}

/// `page` with `bytes` laid over it at `off`.
pub open spec fn splice(page: Seq<u8>, off: int, bytes: Seq<u8>) -> Seq<u8> {
    page.subrange(0, off) + bytes + page.subrange(off + bytes.len(), page.len() as int)
}

/// How many bytes of `s`, escaped, go into the scratch buffer after `idx`
/// bytes: a byte is taken while at least two places are free.
pub open spec fn fit(idx: nat, s: Seq<u8>) -> nat
    decreases s.len(),
{
    if s.len() == 0 || idx + 1 >= SCRATCH_LEN { 0 } else { 1 + fit(idx + escape_byte(s[0]).len(), s.drop_first()) }
}

/// `x` as a `u32` address, wrapping around at 2^32.
pub open spec fn wrap32(x: int) -> u32 {
    if x > u32::MAX { (x - 0x1_0000_0000) as u32 } else { x as u32 }
}

/// The smaller of two integers.
pub open spec fn min(a: int, b: int) -> int {
    if a < b { a } else { b }
}

/// Where the engine goes and what it does when a page read completes with
/// the bytes `page` (`ok` false: the read failed).
pub open spec fn on_read(e: EngineView, page: Seq<u8>, ok: bool) -> (EngineView, ActionView) {
    let l = e.layout;
    let ps = l.page_size as int;
    let idle = EngineView { state: State::Idle, ..e };
    if !ok || page.len() != ps {
        (idle, ActionView::Transmit { data: reply(RES_INTERROR) })
    } else {
        match e.state {
            State::Info => (idle, ActionView::Transmit { data: info_frame(page, (l.flags_address as int) % ps) }),
            State::GetAttribute { index } => {
                let off = slot_address(l, index) % ps;
                (idle, ActionView::Transmit { data: seq![ESCAPE_CHAR, RES_GATTR] + escape(page.subrange(off, off + 64)) })
            },
            State::SetAttribute { index } => (
                e,
                ActionView::WritePage {
                    page: page_of(l, slot_address(l, index)),
                    data: splice(page, slot_address(l, index) % ps, e.slot),
                },
            ),
            State::SetStartAddress { address } => (
                e,
                ActionView::WritePage {
                    page: page_of(l, l.flags_address as int),
                    data: splice(page, (l.flags_address as int) % ps + START_ADDRESS_OFFSET, u32_le_bytes(address)),
                },
            ),
            State::ReadRange { address, length, remaining_length } => {
                let hdr = if length == remaining_length { seq![ESCAPE_CHAR, RES_RRANGE] } else { seq![] };
                let off = (address as int) % ps;
                let avail = min(ps - off, remaining_length as int);
                let src = page.subrange(off, off + avail);
                let k = fit(hdr.len(), src);
                (
                    EngineView {
                        state: State::ReadRange {
                            address: wrap32(address + k),
                            length,
                            remaining_length: (remaining_length - k) as u16,
                        },
                        ..e
                    },
                    ActionView::Transmit { data: hdr + escape(src.subrange(0, k as int)) },
                )
            },
            State::Crc { address, remaining_length, crc } => {
                let off = (address as int) % ps;
                let len = min(ps - off, remaining_length as int);
                let c = crc_fold(crc, page.subrange(off, off + len));
                let rest = (remaining_length - len) as u32;
                if rest == 0 {
                    (
                        idle,
                        ActionView::Transmit { data: crc_reply(c ^ 0xFFFF_FFFFu32) },
                    )
                } else {
                    let next = wrap32(address + len);
                    (
                        EngineView { state: State::Crc { address: next, remaining_length: rest, crc: c }, ..e },
                        ActionView::ReadPage { page: page_of(l, next as int) },
                    )
                }
            },
            _ => (idle, ActionView::Receive),
        }
    }
}

/// Where the engine goes and what it does when a transmit completes.
pub open spec fn on_transmitted(e: EngineView, ok: bool) -> (EngineView, ActionView) {
    let idle = EngineView { state: State::Idle, ..e };
    if !ok {
        (idle, ActionView::Receive)
    } else {
        match e.state {
            State::ReadRange { address, remaining_length, .. } => if remaining_length == 0 {
                (idle, ActionView::Receive)
            } else {
                (e, ActionView::ReadPage { page: page_of(e.layout, address as int) })
            },
            _ => (idle, ActionView::Receive),
        }
    }
}

/// Where the engine goes and what it does when a page write completes.
pub open spec fn on_written(e: EngineView, ok: bool) -> (EngineView, ActionView) {
    let idle = EngineView { state: State::Idle, ..e };
    match e.state {
        State::WriteFlashPage | State::SetAttribute { .. } | State::SetStartAddress { .. } => (
            idle,
            ActionView::Transmit { data: reply(if ok { RES_OK } else { RES_INTERROR }) },
        ),
        _ => (idle, ActionView::Receive),
    }
}

/// Where the engine goes and what it does when an erase completes.
pub open spec fn on_erased(e: EngineView, ok: bool) -> (EngineView, ActionView) {
    let idle = EngineView { state: State::Idle, ..e };
    match e.state {
        State::ErasePage => (idle, ActionView::Transmit { data: reply(if ok { RES_OK } else { RES_INTERROR }) }),
        _ => (idle, ActionView::Receive),
    }
}

/// An attribute slot lies within one page.
proof fn lemma_slot_in_page(l: Layout, index: u8)
    requires
        layout_ok(l),
        index < ATTR_SLOTS,
    ensures
        slot_address(l, index) % (l.page_size as int) + 64 <= l.page_size,
        slot_address(l, index) >= 0,
{
    let a = slot_address(l, index);
    let p = l.page_size as int;
    assert(a % 64 == 0) by (nonlinear_arith)
        requires
            a == l.attributes_address + index * 64,
            l.attributes_address % 64 == 0,
            index >= 0,
    ;
    lemma_aligned_mod(a, p, 64);
}

/// The flags region lies within one page.
proof fn lemma_flags_in_page(l: Layout)
    requires
        layout_ok(l),
    ensures
        (l.flags_address as int) % (l.page_size as int) + 512 <= l.page_size,
{
    lemma_aligned_mod(l.flags_address as int, l.page_size as int, 512);
}

/// An address aligned to `m` lies at least `m` before the end of its page,
/// when pages are multiples of `m`.
proof fn lemma_aligned_mod(a: int, p: int, m: int)
    requires
        a >= 0,
        m > 0,
        p > 0,
        a % m == 0,
        p % m == 0,
    ensures
        a % p + m <= p,
{
    let x = a / m;
    let y = p / m;
    assert(a == m * x) by (nonlinear_arith)
        requires
            a % m == 0,
            m > 0,
            x == a / m,
    ;
    assert(p == m * y) by (nonlinear_arith)
        requires
            p % m == 0,
            m > 0,
            y == p / m,
    ;
    let r = a % p;
    let q = a / p;
    assert(a == p * q + r && 0 <= r < p) by (nonlinear_arith)
        requires
            p > 0,
            r == a % p,
            q == a / p,
    ;
    assert(r == m * (x - y * q)) by (nonlinear_arith)
        requires
            a == m * x,
            p == m * y,
            a == p * q + r,
    ;
    assert(r + m <= p) by (nonlinear_arith)
        requires
            r == m * (x - y * q),
            p == m * y,
            0 <= r < p,
            m > 0,
    ;
}

/// Appends `s[lo..hi]`, escaped.
fn push_escaped_range(out: &mut Vec<u8>, s: &[u8], lo: usize, hi: usize)
    requires
        lo <= hi <= s@.len(),
    ensures
        final(out)@ == old(out)@ + escape(s@.subrange(lo as int, hi as int)),
{
    let mut i: usize = lo;
    while i < hi
        invariant
            lo <= i <= hi <= s@.len(),
            out@ == old(out)@ + escape(s@.subrange(lo as int, i as int)),
        decreases hi - i,
    {
        push_escaped(out, s[i]);
        proof {
            let t = s@.subrange(lo as int, i + 1);
            assert(t.drop_last() =~= s@.subrange(lo as int, i as int));
        }
        i = i + 1;
    }
}

/// `page` with `bytes` laid over it at `off`.
pub(crate) fn splice_of(page: &[u8], off: usize, bytes: &[u8]) -> (r: Vec<u8>)
    requires
        off + bytes@.len() <= page@.len(),
    ensures
        r@ == splice(page@, off as int, bytes@),
{
    let mut r: Vec<u8> = Vec::new();
    let mut k: usize = 0;
    let plen = page.len();
    let end = off + bytes.len();
    while k < page.len()
        invariant
            k <= page@.len(),
            end == off + bytes@.len(),
            end <= page@.len(),
            r@.len() == k,
            forall|j: int| 0 <= j < k ==> #[trigger] r@[j] == splice(page@, off as int, bytes@)[j],
        decreases page@.len() - k,
    {
        if k >= off && k < end {
            r.push(bytes[k - off]);
        } else {
            r.push(page[k]);
        }
        k = k + 1;
    }
    assert(r@ =~= splice(page@, off as int, bytes@));
    r
}

/// The JSON text of an info reply.
fn info_json_of(page: &[u8], off: usize) -> (r: Vec<u8>)
    requires
        off + 512 <= page@.len(),
    ensures
        r@ == info_json(page@, off as int),
{
    let plen = page.len();
    let mut out: Vec<u8> = Vec::new();
    let head: Vec<u8> = vec![0x7Bu8, 0x22, 0x76, 0x65, 0x72, 0x73, 0x69, 0x6F, 0x6E, 0x22, 0x3A, 0x22];
    assert(head@ =~= json_head());
    push_all(&mut out, head.as_slice());
    // The version: up to eight bytes, up to the first NUL.
    let ghost vs = page@.subrange(off + VERSION_OFFSET, off + VERSION_OFFSET + VERSION_LEN);
    let ghost base = out@;
    let mut i: usize = 0;
    assert(vs.subrange(0, VERSION_LEN as int) =~= vs);
    assert(out@ =~= base + vs.subrange(0, 0));
    while i < VERSION_LEN && page[off + VERSION_OFFSET + i] != 0
        invariant
            i <= VERSION_LEN,
            off + 512 <= page@.len(),
            plen == page@.len(),
            vs == page@.subrange(off + VERSION_OFFSET, off + VERSION_OFFSET + VERSION_LEN),
            out@ == base + vs.subrange(0, i as int),
            nul_free_len(vs) == i + nul_free_len(vs.subrange(i as int, VERSION_LEN as int)),
        decreases VERSION_LEN - i,
    {
        proof {
            let t = vs.subrange(i as int, VERSION_LEN as int);
            assert(t.drop_first() =~= vs.subrange(i + 1, VERSION_LEN as int));
        }
        out.push(page[off + VERSION_OFFSET + i]);
        i = i + 1;
        assert(out@ =~= base + vs.subrange(0, i as int));
    }
    proof {
        let t = vs.subrange(i as int, VERSION_LEN as int);
        if i < VERSION_LEN {
            assert(t[0] == 0);
        } else {
            assert(t.len() == 0);
        }
    }
    let mid: Vec<u8> = vec![
        0x22u8, 0x2C, 0x20, 0x22, 0x73, 0x74, 0x61, 0x72, 0x74, 0x5F, 0x61, 0x64, 0x64, 0x72, 0x65, 0x73,
        0x73, 0x22, 0x3A, 0x22, 0x30, 0x78,
    ];
    assert(mid@ =~= json_mid());
    push_all(&mut out, mid.as_slice());
    // The start address in hex, most significant nibble first.
    let v = read_u32(page, off + START_ADDRESS_OFFSET);
    let ghost base2 = out@;
    let mut n: u32 = 0;
    while n < 8
        invariant
            n <= 8,
            out@ == base2 + hex8(v).subrange(0, n as int),
        decreases 8 - n,
    {
        let shift: u32 = 28 - 4 * n;
        assert(((v >> shift) & 0xFu32) < 16) by (bit_vector);
        let nibble = ((v >> shift) & 0xF) as u8;
        out.push(to_hex_digit(nibble));
        n = n + 1;
        assert(out@ =~= base2 + hex8(v).subrange(0, n as int));
    }
    let tail: Vec<u8> = vec![
        0x22u8, 0x2C, 0x20, 0x22, 0x6E, 0x61, 0x6D, 0x65, 0x22, 0x3A, 0x22, 0x54, 0x6F, 0x63, 0x6B, 0x20,
        0x42, 0x6F, 0x6F, 0x74, 0x6C, 0x6F, 0x61, 0x64, 0x65, 0x72, 0x22, 0x7D,
    ];
    assert(tail@ =~= json_tail());
    push_all(&mut out, tail.as_slice());
    assert(hex8(v).subrange(0, 8) =~= hex8(v));
    assert(out@ =~= info_json(page@, off as int));
    out
}

/// The info frame: header, length byte, JSON, zeros up to 195 bytes.
fn info_frame_of(page: &[u8], off: usize) -> (r: Vec<u8>)
    requires
        off + 512 <= page@.len(),
    ensures
        r@ == info_frame(page@, off as int),
{
    let j = info_json_of(page, off);
    proof {
        lemma_nul_free_len_bound(page@.subrange(off + VERSION_OFFSET, off + VERSION_OFFSET + VERSION_LEN));
    }
    assert(j@.len() <= 12 + 8 + 22 + 8 + 28);
    let mut out: Vec<u8> = Vec::new();
    out.push(ESCAPE_CHAR);
    out.push(RES_INFO);
    out.push(j.len() as u8);
    push_all(&mut out, j.as_slice());
    let ghost base = out@;
    while out.len() < INFO_FRAME_LEN
        invariant
            out@.len() <= INFO_FRAME_LEN,
            base.len() <= out@.len(),
            out@ == base + Seq::new((out@.len() - base.len()) as nat, |i: int| 0u8),
        decreases INFO_FRAME_LEN - out@.len(),
    {
        out.push(0u8);
        assert(out@ =~= base + Seq::new((out@.len() - base.len()) as nat, |i: int| 0u8));
    }
    assert(out@ =~= info_frame(page@, off as int));
    out
}

/// The next chunk of a read range: the header on the first chunk, then as
/// many escaped bytes of `page[off..off + avail]` as the scratch buffer holds.
/// Returns the chunk and how many page bytes it carries.
fn read_range_chunk(page: &[u8], off: usize, avail: usize, header: bool) -> (r: (Vec<u8>, usize))
    requires
        off + avail <= page@.len(),
    ensures
        ({
            let hdr = if header { seq![ESCAPE_CHAR, RES_RRANGE] } else { Seq::<u8>::empty() };
            let src = page@.subrange(off as int, off + avail);
            let k = fit(hdr.len(), src);
            &&& r.1 == k
            &&& r.0@ == hdr + escape(src.subrange(0, k as int))
        }),
        r.1 <= avail,
{
    let plen = page.len();
    let ghost hdr = if header { seq![ESCAPE_CHAR, RES_RRANGE] } else { Seq::<u8>::empty() };
    let ghost src = page@.subrange(off as int, off + avail);
    let mut out: Vec<u8> = Vec::new();
    if header {
        out.push(ESCAPE_CHAR);
        out.push(RES_RRANGE);
    }
    assert(out@ =~= hdr + escape(src.subrange(0, 0)));
    assert(src.subrange(0, avail as int) =~= src);
    let mut i: usize = 0;
    while i < avail && out.len() + 1 < SCRATCH_LEN
        invariant
            i <= avail,
            off + avail <= page@.len(),
            plen == page@.len(),
            src == page@.subrange(off as int, off + avail),
            out@.len() <= SCRATCH_LEN,
            out@ == hdr + escape(src.subrange(0, i as int)),
            fit(hdr.len(), src) == i + fit(out@.len(), src.subrange(i as int, avail as int)),
        decreases avail - i,
    {
        let ghost t = src.subrange(i as int, avail as int);
        let ghost before = out@.len();
        push_escaped(&mut out, page[off + i]);
        proof {
            assert(t[0] == page@[off + i]);
            assert(t.drop_first() =~= src.subrange(i + 1, avail as int));
            let u = src.subrange(0, i + 1);
            assert(u.drop_last() =~= src.subrange(0, i as int));
            assert(out@.len() == before + escape_byte(t[0]).len());
        }
        i = i + 1;
    }
    proof {
        let t = src.subrange(i as int, avail as int);
        if i == avail {
            assert(t.len() == 0);
        }
    }
    (out, i)
}

/// The four little-endian bytes of `v`.
fn le_bytes_of(v: u32) -> (r: Vec<u8>)
    ensures
        r@ == u32_le_bytes(v),
{
    let mut r: Vec<u8> = Vec::new();
    r.push(v as u8);
    r.push((v >> 8u32) as u8);
    r.push((v >> 16u32) as u8);
    r.push((v >> 24u32) as u8);
    assert(r@ =~= u32_le_bytes(v));
    r
}

impl Bootloader {
    /// A page read completed with the bytes `page` (`ok` false: it failed).
    pub fn read_complete(&mut self, page: &[u8], ok: bool) -> (a: Action)
        requires
            engine_ok(old(self)@),
        ensures
            engine_ok(final(self)@),
            (final(self)@, a@) == handle(old(self)@, Event::ReadDone { page: page@, ok }),
            old(self)@.pending != Pending::Read ==> a@ == ActionView::Wait && final(self)@ == old(self)@,
            old(self)@.pending == Pending::Read ==> ({
                let (e, act) = on_read(old(self)@, page@, ok);
                &&& a@ == act
                &&& final(self)@ == (EngineView { pending: pending_of(act), ..e })
            }),
    {
        if self.pending != Pending::Read {
            return Action::Wait;
        }
        let l = self.layout;
        let ps = l.page_size;
        let a = if !ok || page.len() != ps {
            // A failed read is reported rather than passed over.
            self.state = State::Idle;
            Action::Transmit { data: reply_of(RES_INTERROR) }
        } else {
            match self.state {
                State::Info => {
                    proof {
                        lemma_flags_in_page(l);
                    }
                    self.state = State::Idle;
                    Action::Transmit { data: info_frame_of(page, l.flags_address % ps) }
                },
                State::GetAttribute { index } => {
                    proof {
                        lemma_slot_in_page(l, index);
                    }
                    let off = (l.attributes_address + index as usize * ATTR_SLOT_LEN) % ps;
                    let mut out: Vec<u8> = Vec::new();
                    out.push(ESCAPE_CHAR);
                    out.push(RES_GATTR);
                    push_escaped_range(&mut out, page, off, off + ATTR_SLOT_LEN);
                    assert(out@ =~= seq![ESCAPE_CHAR, RES_GATTR] + escape(page@.subrange(off as int, off + 64)));
                    self.state = State::Idle;
                    Action::Transmit { data: out }
                },
                State::SetAttribute { index } => {
                    proof {
                        lemma_slot_in_page(l, index);
                    }
                    let sa = l.attributes_address + index as usize * ATTR_SLOT_LEN;
                    Action::WritePage { page: sa / ps, data: splice_of(page, sa % ps, self.slot.as_slice()) }
                },
                State::SetStartAddress { address } => {
                    proof {
                        lemma_flags_in_page(l);
                    }
                    let b = le_bytes_of(address);
                    Action::WritePage {
                        page: l.flags_address / ps,
                        data: splice_of(page, l.flags_address % ps + START_ADDRESS_OFFSET, b.as_slice()),
                    }
                },
                State::ReadRange { address, length, remaining_length } => {
                    let off = address as usize % ps;
                    let avail = if ps - off < remaining_length as usize {
                        ps - off
                    } else {
                        remaining_length as usize
                    };
                    let (chunk, k) = read_range_chunk(page, off, avail, length == remaining_length);
                    self.state = State::ReadRange {
                        address: address.wrapping_add(k as u32),
                        length,
                        remaining_length: remaining_length - k as u16,
                    };
                    Action::Transmit { data: chunk }
                },
                State::Crc { address, remaining_length, crc } => {
                    let off = address as usize % ps;
                    let len = if ps - off < remaining_length as usize {
                        ps - off
                    } else {
                        remaining_length as usize
                    };
                    let c = crc_feed(crc, page, off, off + len);
                    let rest = remaining_length - len as u32;
                    if rest == 0 {
                        let mut out: Vec<u8> = Vec::new();
                        out.push(ESCAPE_CHAR);
                        out.push(RES_CRCIF);
                        let b = le_bytes_of(c ^ 0xFFFF_FFFF);
                        push_escaped_range(&mut out, b.as_slice(), 0, 4);
                        assert(b@.subrange(0, 4) =~= b@);
                        assert(out@ =~= crc_reply(c ^ 0xFFFF_FFFFu32));
                        self.state = State::Idle;
                        Action::Transmit { data: out }
                    } else {
                        let next = address.wrapping_add(len as u32);
                        self.state = State::Crc { address: next, remaining_length: rest, crc: c };
                        Action::ReadPage { page: next as usize / ps }
                    }
                },
                _ => {
                    self.state = State::Idle;
                    Action::Receive
                },
            }
        };
        self.pending = pending_kind(&a);
        a
    }

    /// A transmit completed (`ok` false: it failed and is not retried).
    pub fn transmitted_buffer(&mut self, ok: bool) -> (a: Action)
        requires
            engine_ok(old(self)@),
        ensures
            engine_ok(final(self)@),
            (final(self)@, a@) == handle(old(self)@, Event::Transmitted { ok }),
            old(self)@.pending != Pending::Transmit ==> a@ == ActionView::Wait && final(self)@ == old(self)@,
            old(self)@.pending == Pending::Transmit ==> ({
                let (e, act) = on_transmitted(old(self)@, ok);
                &&& a@ == act
                &&& final(self)@ == (EngineView { pending: pending_of(act), ..e })
            }),
    {
        if self.pending != Pending::Transmit {
            return Action::Wait;
        }
        let a = if !ok {
            self.state = State::Idle;
            Action::Receive
        } else {
            match self.state {
                State::ReadRange { address, length: _, remaining_length } => {
                    if remaining_length == 0 {
                        self.state = State::Idle;
                        Action::Receive
                    } else {
                        // More to send: read the page the range goes on in.
                        Action::ReadPage { page: address as usize / self.layout.page_size }
                    }
                },
                _ => {
                    self.state = State::Idle;
                    Action::Receive
                },
            }
        };
        self.pending = pending_kind(&a);
        a
    }

    /// A page write completed (`ok` false: it failed).
    pub fn write_complete(&mut self, ok: bool) -> (a: Action)
        requires
            engine_ok(old(self)@),
        ensures
            engine_ok(final(self)@),
            (final(self)@, a@) == handle(old(self)@, Event::Written { ok }),
            old(self)@.pending != Pending::Write ==> a@ == ActionView::Wait && final(self)@ == old(self)@,
            old(self)@.pending == Pending::Write ==> ({
                let (e, act) = on_written(old(self)@, ok);
                &&& a@ == act
                &&& final(self)@ == (EngineView { pending: pending_of(act), ..e })
            }),
    {
        if self.pending != Pending::Write {
            return Action::Wait;
        }
        let a = match self.state {
            State::WriteFlashPage | State::SetAttribute { .. } | State::SetStartAddress { .. } => {
                self.state = State::Idle;
                Action::Transmit { data: reply_of(if ok { RES_OK } else { RES_INTERROR }) }
            },
            _ => {
                self.state = State::Idle;
                Action::Receive
            },
        };
        self.pending = pending_kind(&a);
        a
    }

    /// An erase completed (`ok` false: it failed).
    pub fn erase_complete(&mut self, ok: bool) -> (a: Action)
        requires
            engine_ok(old(self)@),
        ensures
            engine_ok(final(self)@),
            (final(self)@, a@) == handle(old(self)@, Event::Erased { ok }),
            old(self)@.pending != Pending::Erase ==> a@ == ActionView::Wait && final(self)@ == old(self)@,
            old(self)@.pending == Pending::Erase ==> ({
                let (e, act) = on_erased(old(self)@, ok);
                &&& a@ == act
                &&& final(self)@ == (EngineView { pending: pending_of(act), ..e })
            }),
    {
        if self.pending != Pending::Erase {
            return Action::Wait;
        }
        let a = match self.state {
            State::ErasePage => {
                self.state = State::Idle;
                Action::Transmit { data: reply_of(if ok { RES_OK } else { RES_INTERROR }) }
            },
            _ => {
                self.state = State::Idle;
                Action::Receive
            },
        };
        self.pending = pending_kind(&a);
        a
    }
}

// ---------------------------------------------------------------------------
// Laws of the engine
// ---------------------------------------------------------------------------

/// Single outstanding operation: after any completion the one operation in
/// flight is the one the engine just asked for, and a completion that does
/// not answer the operation in flight is ignored, changing nothing.
pub proof fn lemma_single_outstanding(e: EngineView, ev: Event)
    ensures
        e.pending != answers(ev) ==> handle(e, ev) == (e, ActionView::Wait),
        e.pending == answers(ev) ==> handle(e, ev).0.pending == pending_of(handle(e, ev).1),
{
}

/// The engine's step keeps it consistent.
pub proof fn lemma_handle_keeps_engine_ok(e: EngineView, ev: Event)
    requires
        engine_ok(e),
    ensures
        engine_ok(handle(e, ev).0),
{
    if e.pending == answers(ev) {
        match ev {
            Event::Received { rx, ok } => {
                lemma_first_outcome_in_range(cmd_fresh(), rx);
            },
            _ => {},
        }
    }
}

/// Ordering: the engine asks for a receive only once it is idle again, and
/// takes in received bytes only while a receive is in flight; so one command
/// is answered before the next is read, and replies leave in the order the
/// commands came.
pub proof fn lemma_receive_only_when_idle(e: EngineView, ev: Event)
    ensures
        handle(e, ev).1 == ActionView::Receive ==> handle(e, ev).0.state == State::Idle || (ev is Received
            && e.state == handle(e, ev).0.state),
        ev is Received && e.pending != Pending::Receive ==> handle(e, ev) == (e, ActionView::Wait),
{
}

/// Self-write immunity: a `WritePage` into the bootloader's own code never
/// becomes a flash write; a whole page there is answered with `BADADDR`.
pub proof fn lemma_self_write_immunity(e: EngineView, address: u32, data: Seq<u8>)
    requires
        e.layout.bootloader_address <= address < e.layout.bootloader_end_address,
    ensures
        ({
            let a = dispatch(e, Some(Ok((CommandView::WritePage { address, data })))).1;
            &&& !(a is WritePage)
            &&& data.len() == e.layout.page_size ==> a == (ActionView::Transmit { data: reply(RES_BADADDR) })
        }),
{
}

/// Two distinct attribute slots in one page do not overlap.
proof fn lemma_slots_disjoint(l: Layout, i: u8, j: u8)
    requires
        layout_ok(l),
        i < ATTR_SLOTS,
        j < ATTR_SLOTS,
        i != j,
        page_of(l, slot_address(l, i)) == page_of(l, slot_address(l, j)),
    ensures
        ({
            let p = l.page_size as int;
            let oi = slot_address(l, i) % p;
            let oj = slot_address(l, j) % p;
            oi + 64 <= oj || oj + 64 <= oi
        }),
{
    let p = l.page_size as int;
    let a = slot_address(l, i);
    let b = slot_address(l, j);
    let q = a / p;
    assert(a == p * q + a % p) by (nonlinear_arith)
        requires
            p > 0,
            q == a / p,
    ;
    assert(b == p * q + b % p) by (nonlinear_arith)
        requires
            p > 0,
            q == b / p,
    ;
}

/// Attribute slot atomicity: once the page holding slot `i` was read, the
/// page written back differs from it in exactly the 64 bytes of slot `i`,
/// which then hold the new slot; every other slot of that page reads back
/// byte for byte as before.
pub proof fn lemma_attribute_slot_atomic(e: EngineView, index: u8, page: Seq<u8>)
    requires
        engine_ok(e),
        e.state == (State::SetAttribute { index }),
        page.len() == e.layout.page_size,
    ensures
        ({
            let l = e.layout;
            let off = slot_address(l, index) % (l.page_size as int);
            on_read(e, page, true).1 matches ActionView::WritePage { page: p, data } && {
                &&& p == page_of(l, slot_address(l, index))
                &&& data.len() == page.len()
                &&& data.subrange(off, off + 64) == e.slot
                &&& forall|k: int| 0 <= k < page.len() && !(off <= k < off + 64) ==> data[k] == page[k]
                &&& forall|j: u8|
                    #![trigger slot_address(l, j)]
                    j < ATTR_SLOTS && j != index && page_of(l, slot_address(l, j)) == p ==> {
                        let oj = slot_address(l, j) % (l.page_size as int);
                        data.subrange(oj, oj + 64) == page.subrange(oj, oj + 64)
                    }
            }
        }),
{
    let l = e.layout;
    let p = l.page_size as int;
    let off = slot_address(l, index) % p;
    lemma_slot_in_page(l, index);
    let data = splice(page, off, e.slot);
    assert(data.subrange(off, off + 64) =~= e.slot);
    assert forall|j: u8|
        #![trigger slot_address(l, j)]
        j < ATTR_SLOTS && j != index && page_of(l, slot_address(l, j)) == page_of(l, slot_address(l, index)) implies {
            let oj = slot_address(l, j) % p;
            data.subrange(oj, oj + 64) == page.subrange(oj, oj + 64)
        } by {
        lemma_slot_in_page(l, j);
        lemma_slots_disjoint(l, index, j);
        let oj = slot_address(l, j) % p;
        assert(data.subrange(oj, oj + 64) =~= page.subrange(oj, oj + 64));
    }
}

/// CRC agreement: each page the engine folds into a running CRC keeps the
/// CRC of what is left of the range unchanged, and the reply at the end is
/// the CRC of the whole range. Begun with 0xFFFFFFFF, as a `CrcIntFlash`
/// begins, the reply is the standard CRC-32 of `flash[address..address +
/// length]`.
pub proof fn lemma_crc_agreement(e: EngineView, flash: Seq<u8>)
    requires
        engine_ok(e),
        e.state is Crc,
        e.state->Crc_address + e.state->Crc_remaining_length <= u32::MAX,
        e.state->Crc_address + e.state->Crc_remaining_length <= flash.len(),
        (page_of(e.layout, e.state->Crc_address as int) + 1) * e.layout.page_size <= flash.len(),
    ensures
        ({
            let l = e.layout;
            let ps = l.page_size as int;
            let address = e.state->Crc_address;
            let remaining = e.state->Crc_remaining_length;
            let crc = e.state->Crc_crc;
            let start = page_of(l, address as int) * ps;
            let (e2, a) = on_read(e, flash.subrange(start, start + ps), true);
            let total = crc_fold(crc, flash.subrange(address as int, address + remaining));
            match e2.state {
                State::Crc { address: a2, remaining_length: r2, crc: c2 } => {
                    &&& r2 < remaining
                    &&& a2 + r2 == address + remaining
                    &&& crc_fold(c2, flash.subrange(a2 as int, a2 + r2)) == total
                    &&& a == ActionView::ReadPage { page: page_of(l, a2 as int) }
                },
                _ => a == ActionView::Transmit {
                    data: crc_reply(total ^ 0xFFFF_FFFFu32),
                },
            }
        }),
{
    let l = e.layout;
    let ps = l.page_size as int;
    let address = e.state->Crc_address;
    let remaining = e.state->Crc_remaining_length;
    let crc = e.state->Crc_crc;
    let q = page_of(l, address as int) as int;
    let start = q * ps;
    let page = flash.subrange(start, start + ps);
    let off = (address as int) % ps;
    assert(address == start + off && 0 <= off < ps) by (nonlinear_arith)
        requires
            ps > 0,
            q == (address as int) / ps,
            off == (address as int) % ps,
            start == q * ps,
    ;
    assert(start + ps == (q + 1) * ps) by (nonlinear_arith)
        requires
            start == q * ps,
    ;
    let len = min(ps - off, remaining as int);
    assert(off + len <= ps);
    assert forall|k: int| 0 <= k < len implies #[trigger] page.subrange(off, off + len)[k] == flash[address + k] by {
        assert(page[off + k] == flash[start + off + k]);
    }
    assert(page.subrange(off, off + len) =~= flash.subrange(address as int, address + len));
    let whole = flash.subrange(address as int, address + remaining);
    assert(whole =~= flash.subrange(address as int, address + len) + flash.subrange(address + len, address + remaining));
    crate::crc::lemma_crc_fold_append(
        crc,
        flash.subrange(address as int, address + len),
        flash.subrange(address + len, address + remaining),
    );
}

/// Read-range agreement: each chunk the engine sends carries, escaped, the
/// next bytes of the range as they are in flash (after the header on the
/// first chunk), and the range left shrinks by exactly that many bytes; so
/// the chunks together carry `flash[address..address + length]`, the bytes
/// whose CRC a `CrcIntFlash` over the same range reports.
pub proof fn lemma_read_range_agreement(e: EngineView, flash: Seq<u8>)
    requires
        engine_ok(e),
        e.state is ReadRange,
        e.state->ReadRange_remaining_length > 0,
        e.state->ReadRange_address + e.state->ReadRange_remaining_length <= u32::MAX,
        e.state->ReadRange_address + e.state->ReadRange_remaining_length <= flash.len(),
        (page_of(e.layout, e.state->ReadRange_address as int) + 1) * e.layout.page_size <= flash.len(),
    ensures
        ({
            let l = e.layout;
            let ps = l.page_size as int;
            let address = e.state->ReadRange_address;
            let length = e.state->ReadRange_length;
            let remaining = e.state->ReadRange_remaining_length;
            let start = page_of(l, address as int) * ps;
            let (e2, a) = on_read(e, flash.subrange(start, start + ps), true);
            let hdr = if length == remaining { seq![ESCAPE_CHAR, RES_RRANGE] } else { Seq::<u8>::empty() };
            match e2.state {
                State::ReadRange { address: a2, length: l2, remaining_length: r2 } => {
                    let k = remaining - r2;
                    &&& 0 < k <= remaining
                    &&& a2 == address + k
                    &&& l2 == length
                    &&& a == (ActionView::Transmit { data: hdr + escape(flash.subrange(address as int, address + k)) })
                },
                _ => false,
            }
        }),
{
    let l = e.layout;
    let ps = l.page_size as int;
    let address = e.state->ReadRange_address;
    let length = e.state->ReadRange_length;
    let remaining = e.state->ReadRange_remaining_length;
    let q = page_of(l, address as int) as int;
    let start = q * ps;
    let page = flash.subrange(start, start + ps);
    let off = (address as int) % ps;
    assert(address == start + off && 0 <= off < ps) by (nonlinear_arith)
        requires
            ps > 0,
            q == (address as int) / ps,
            off == (address as int) % ps,
            start == q * ps,
    ;
    assert(start + ps == (q + 1) * ps) by (nonlinear_arith)
        requires
            start == q * ps,
    ;
    let avail = min(ps - off, remaining as int);
    let src = page.subrange(off, off + avail);
    let hdr = if length == remaining { seq![ESCAPE_CHAR, RES_RRANGE] } else { Seq::<u8>::empty() };
    let k = fit(hdr.len(), src);
    lemma_fit_bounds(hdr.len(), src);
    assert forall|i: int| 0 <= i < k implies #[trigger] src.subrange(0, k as int)[i] == flash.subrange(
        address as int,
        address + k,
    )[i] by {
        assert(page[off + i] == flash[start + off + i]);
    }
    assert(src.subrange(0, k as int) =~= flash.subrange(address as int, address + k));
}

/// The bytes that fit: at most all of them, and at least one when at most
/// two places are taken.
proof fn lemma_fit_bounds(idx: nat, s: Seq<u8>)
    ensures
        fit(idx, s) <= s.len(),
        idx + 2 < SCRATCH_LEN && s.len() > 0 ==> fit(idx, s) > 0,
    decreases s.len(),
{
    if s.len() > 0 && idx + 1 < SCRATCH_LEN {
        lemma_fit_bounds(idx + escape_byte(s[0]).len(), s.drop_first());
    }
}

/// The page of `flash` that holds `address`.
pub open spec fn flash_page(l: Layout, flash: Seq<u8>, address: int) -> Seq<u8> {
    let start = page_of(l, address) * l.page_size;
    flash.subrange(start, start + l.page_size)
}

/// What a CRC computation in progress ends with when every page read
/// returns the page of `flash` it asked for: the engine's steps followed
/// until they stop reading.
pub open spec fn crc_run(e: EngineView, flash: Seq<u8>) -> ActionView
    decreases (if e.state is Crc { e.state->Crc_remaining_length as int } else { 0 }),
{
    if e.state is Crc {
        let (e2, a) = on_read(e, flash_page(e.layout, flash, e.state->Crc_address as int), true);
        if e2.state is Crc && e2.state->Crc_remaining_length < e.state->Crc_remaining_length {
            crc_run(e2, flash)
        } else {
            a
        }
    } else {
        ActionView::Wait
    }
}

/// An address inside a flash of whole pages lies in one of its pages.
proof fn lemma_page_within(ps: int, x: int, len: int)
    requires
        ps > 0,
        0 <= x < len,
        len % ps == 0,
    ensures
        (x / ps + 1) * ps <= len,
{
    let q = x / ps;
    let m = len / ps;
    assert(q * ps <= x) by (nonlinear_arith)
        requires
            ps > 0,
            q == x / ps,
            x >= 0,
    ;
    assert(len == m * ps) by (nonlinear_arith)
        requires
            ps > 0,
            m == len / ps,
            len % ps == 0,
    ;
    assert(q < m) by (nonlinear_arith)
        requires
            q * ps <= x,
            x < len,
            len == m * ps,
            ps > 0,
    ;
    assert((q + 1) * ps <= m * ps) by (nonlinear_arith)
        requires
            q + 1 <= m,
            ps > 0,
    ;
}

/// CRC agreement over a whole run: a CRC computation over
/// `flash[address..address + remaining]`, whatever number of pages it
/// spans, ends in the reply carrying the CRC of exactly those bytes. Begun as a `CrcIntFlash` begins (register
/// 0xFFFFFFFF), the reply is the standard CRC-32 of the range; an empty
/// range gives 0.
pub proof fn lemma_crc_run(e: EngineView, flash: Seq<u8>)
    requires
        engine_ok(e),
        e.state is Crc,
        e.state->Crc_address + e.state->Crc_remaining_length <= u32::MAX,
        e.state->Crc_address + e.state->Crc_remaining_length <= flash.len(),
        (flash.len() as int) % (e.layout.page_size as int) == 0,
        (page_of(e.layout, e.state->Crc_address as int) + 1) * e.layout.page_size <= flash.len(),
    ensures
        crc_run(e, flash) == (ActionView::Transmit {
            data: crc_reply(
                crc_fold(
                    e.state->Crc_crc,
                    flash.subrange(
                        e.state->Crc_address as int,
                        e.state->Crc_address + e.state->Crc_remaining_length,
                    ),
                ) ^ 0xFFFF_FFFFu32,
            ),
        }),
        e.state->Crc_crc == 0xFFFF_FFFFu32 ==> crc_run(e, flash) == (ActionView::Transmit {
            data: crc_reply(
                crc32(
                    flash.subrange(
                        e.state->Crc_address as int,
                        e.state->Crc_address + e.state->Crc_remaining_length,
                    ),
                ),
            ),
        }),
    decreases e.state->Crc_remaining_length,
{
    lemma_crc_agreement(e, flash);
    let (e2, a) = on_read(e, flash_page(e.layout, flash, e.state->Crc_address as int), true);
    match e2.state {
        State::Crc { address: a2, remaining_length: r2, crc: c2 } => {
            lemma_page_within(e.layout.page_size as int, a2 as int, flash.len() as int);
            lemma_crc_run(e2, flash);
        },
        _ => {},
    }
}

/// Two CRC runs over the same range of an unchanged flash, as two
/// back-to-back `CrcIntFlash` requests make them, give the same reply: the
/// CRC-32 of the range.
pub proof fn lemma_crc_runs_agree(e1: EngineView, e2: EngineView, flash: Seq<u8>)
    requires
        engine_ok(e1),
        e1.state is Crc,
        e1.state->Crc_crc == 0xFFFF_FFFFu32,
        e1.state->Crc_address + e1.state->Crc_remaining_length <= u32::MAX,
        e1.state->Crc_address + e1.state->Crc_remaining_length <= flash.len(),
        (flash.len() as int) % (e1.layout.page_size as int) == 0,
        (page_of(e1.layout, e1.state->Crc_address as int) + 1) * e1.layout.page_size <= flash.len(),
        engine_ok(e2),
        e2.layout == e1.layout,
        e2.state == e1.state,
    ensures
        crc_run(e1, flash) == crc_run(e2, flash),
        crc_run(e1, flash) == (ActionView::Transmit {
            data: crc_reply(
                crc32(
                    flash.subrange(
                        e1.state->Crc_address as int,
                        e1.state->Crc_address + e1.state->Crc_remaining_length,
                    ),
                ),
            ),
        }),
{
    lemma_crc_run(e1, flash);
    lemma_crc_run(e2, flash);
}

/// `flash` with page `n` replaced by `data`.
pub open spec fn with_page(l: Layout, flash: Seq<u8>, n: nat, data: Seq<u8>) -> Seq<u8> {
    let start = n * l.page_size;
    flash.subrange(0, start as int) + data + flash.subrange(start + l.page_size, flash.len() as int)
}

/// Attribute slot atomicity across commands: once a `SetAttr` of slot `i`
/// has written its page back, a `GetAttr` of any other slot `j` replies
/// byte for byte as it did before, whether or not the two slots share a
/// page.
pub proof fn lemma_get_attr_unchanged_by_set_attr(e: EngineView, i: u8, j: u8, flash: Seq<u8>)
    requires
        engine_ok(e),
        e.state == (State::SetAttribute { index: i }),
        j < ATTR_SLOTS,
        j != i,
        (flash.len() as int) % (e.layout.page_size as int) == 0,
        (page_of(e.layout, slot_address(e.layout, i)) + 1) * e.layout.page_size <= flash.len(),
        (page_of(e.layout, slot_address(e.layout, j)) + 1) * e.layout.page_size <= flash.len(),
    ensures
        ({
            let l = e.layout;
            let g = EngineView { state: State::GetAttribute { index: j }, ..e };
            on_read(e, flash_page(l, flash, slot_address(l, i)), true).1 matches ActionView::WritePage { page, data }
                && on_read(g, flash_page(l, with_page(l, flash, page, data), slot_address(l, j)), true) == on_read(
                g,
                flash_page(l, flash, slot_address(l, j)),
                true,
            )
        }),
{
    let l = e.layout;
    let ps = l.page_size as int;
    let pi = page_of(l, slot_address(l, i));
    let pj = page_of(l, slot_address(l, j));
    let old_page = flash_page(l, flash, slot_address(l, i));
    let bi = pi * ps;
    let bj = pj * ps;
    assert(bi + ps == (pi + 1) * ps && bj + ps == (pj + 1) * ps) by (nonlinear_arith)
        requires
            bi == pi * ps,
            bj == pj * ps,
    ;
    lemma_slot_in_page(l, i);
    lemma_slot_in_page(l, j);
    lemma_attribute_slot_atomic(e, i, old_page);
    let off_i = slot_address(l, i) % ps;
    let data = splice(old_page, off_i, e.slot);
    assert(data.len() == ps);
    let flash2 = with_page(l, flash, pi, data);
    if pj == pi {
        assert(flash_page(l, flash2, slot_address(l, j)) =~= data);
        let oj = slot_address(l, j) % ps;
        assert(data.subrange(oj, oj + 64) == old_page.subrange(oj, oj + 64));
    } else {
        if pj < pi {
            assert(bj + ps <= bi) by (nonlinear_arith)
                requires
                    pj < pi,
                    bj + ps == (pj + 1) * ps,
                    bi == pi * ps,
                    ps > 0,
            ;
        } else {
            assert(bi + ps <= bj) by (nonlinear_arith)
                requires
                    pi < pj,
                    bi + ps == (pi + 1) * ps,
                    bj == pj * ps,
                    ps > 0,
            ;
        }
        assert(flash_page(l, flash2, slot_address(l, j)) =~= flash_page(l, flash, slot_address(l, j)));
    }
}

} // verus!
