//! Deciding at reset whether to stay in the bootloader or hand over to the
//! application, and the handover itself.
use vstd::prelude::*;

verus! {

/// Decides whether the bootloader stays running.
pub trait BootloaderEntry {
    /// `true` to stay in the bootloader, `false` to jump to the application.
    fn stay_in_bootloader(&self) -> bool;
}

/// Transfers control to the application.
pub trait Jumper {
    /// Jumps to the application whose vector table is at `address`. On
    /// hardware this does not return.
    fn jump(&self, address: u32);
}

/// Tells the user that the bootloader is active.
pub trait ActiveNotifier {
    /// Called once the bootloader decided to stay.
    fn active(&mut self);
}

/// Stays in the bootloader unconditionally.
pub struct BootloaderEntryAlways {}

impl BootloaderEntryAlways {
    pub fn new() -> (r: BootloaderEntryAlways) {
        BootloaderEntryAlways {}
    }

    /// Always `true`.
    pub fn stays() -> (r: bool)
        ensures
            r,
    {
        true
    }
}

impl BootloaderEntry for BootloaderEntryAlways {
    fn stay_in_bootloader(&self) -> bool {
        BootloaderEntryAlways::stays()
    }
}

/// Notifies nobody.
pub struct ActiveNotifierNull {}

impl ActiveNotifierNull {
    pub fn new() -> (r: ActiveNotifierNull) {
        ActiveNotifierNull {}
    }
}

impl ActiveNotifier for ActiveNotifierNull {
    fn active(&mut self) {
    }
}

/// A scheduler that never runs a process: the bootloader has none.
pub struct NullScheduler {}

impl NullScheduler {
    pub fn new() -> (r: NullScheduler) {
        NullScheduler {}
    }
}

/// Address of the Cortex-M vector table offset register.
pub const VTOR_ADDRESS: u32 = 0xE000_ED08;

/// What a Cortex-M handover reads and writes.
#[derive(Clone, Copy, Debug, PartialEq, Eq, Structural)]
pub struct Handover {
    /// Where the vector table's address is written (the VTOR register).
    pub vtor: u32,
    /// The vector table's address.
    pub vector_table: u32,
    /// Where the initial stack pointer is loaded from.
    pub stack_pointer_slot: u32,
    /// Where the entry address is loaded from.
    pub entry_slot: u32,
}

/// Hands control to an application on a Cortex-M.
pub struct CortexMJumper {}

impl CortexMJumper {
    pub fn new() -> (r: CortexMJumper) {
        CortexMJumper {}
    }

    /// The handover to the application whose vector table is at `address`:
    /// write `address` to VTOR, load the stack pointer from `address` and
    /// the entry point from `address + 4`.
    pub fn handover(&self, address: u32) -> (r: Handover)
        requires
            address + 4 <= u32::MAX,
        ensures
            r == (Handover {
                vtor: VTOR_ADDRESS,
                vector_table: address,
                stack_pointer_slot: address,
                entry_slot: (address + 4) as u32,
            }),
    {
        Handover { vtor: VTOR_ADDRESS, vector_table: address, stack_pointer_slot: address, entry_slot: address + 4 }
    }
}

/// Offset of the start address in the flags region.
pub const START_ADDRESS_FIELD: u32 = 32;

/// What happens at reset.
#[derive(Clone, Copy, Debug, PartialEq, Eq, Structural)]
pub enum EntryAction {
    /// Stay in the bootloader and tell the user.
    Stay,
    /// Jump to the application whose vector table is at `address`.
    JumpTo { address: u32 },
}

/// What happens at reset, given the decider's answer and the start address
/// stored in the flags region.
pub fn entry_action(stay: bool, start_address: u32) -> (a: EntryAction)
    ensures
        stay ==> a == EntryAction::Stay,
        !stay ==> a == (EntryAction::JumpTo { address: start_address }),
{
    if stay {
        EntryAction::Stay
    } else {
        EntryAction::JumpTo { address: start_address }
    }
}

/// Decides at reset between the bootloader and the application.
pub struct BootloaderEnterer<E: BootloaderEntry, J: Jumper, N: ActiveNotifier> {
    entry_decider: E,
    jumper: J,
    active_notifier: N,
    /// Start of the flags region, which holds the address to jump to.
    bootloader_flags_address: u32,
}

impl<E: BootloaderEntry, J: Jumper, N: ActiveNotifier> BootloaderEnterer<E, J, N> {
    pub fn new(entry_decider: E, jumper: J, active_notifier: N, bootloader_flags_address: u32) -> (r: Self)
        ensures
            r.flags_address() == bootloader_flags_address,
    {
        BootloaderEnterer { entry_decider, jumper, active_notifier, bootloader_flags_address }
    }

    /// Start of the flags region.
    pub closed spec fn flags_address(&self) -> u32 {
        self.bootloader_flags_address
    }

    /// Where the start address is stored: 32 bytes into the flags region;
    /// `None` when that lies past the end of the address space.
    pub fn start_address_location(&self) -> (r: Option<u32>)
        ensures
            self.flags_address() + START_ADDRESS_FIELD <= u32::MAX ==> r == Some(
                (self.flags_address() + START_ADDRESS_FIELD) as u32,
            ),
            self.flags_address() + START_ADDRESS_FIELD > u32::MAX ==> r is None,
    {
        self.bootloader_flags_address.checked_add(START_ADDRESS_FIELD)
    }

    /// Asks the decider; if it says stay, tells the notifier and returns
    /// `true`; otherwise jumps to `start_address` (the word stored at
    /// `start_address_location`) and returns `false` should the jump return.
    pub fn check(&mut self, start_address: u32) -> (stayed: bool) {
        let stay = self.entry_decider.stay_in_bootloader();
        match entry_action(stay, start_address) {
            EntryAction::JumpTo { address } => {
                // Jump to the application and start the real code.
                self.jumper.jump(address);
                false
            },
            EntryAction::Stay => {
                // Staying in the bootloader: let the user know.
                self.active_notifier.active();
                true
            },
        }
    }
}

/// How many of the samples are `v`.
pub open spec fn count_of(s: Seq<bool>, v: bool) -> nat
    decreases s.len(),
{
    if s.len() == 0 {
        0
    } else {
        count_of(s.drop_last(), v) + if s.last() == v { 1nat } else { 0nat }
    }
}

/// Number of times the GPIO entry samples its pin.
pub const GPIO_SAMPLES: usize = 10000;

/// The GPIO entry decision: stay when the pin read low (active) more
/// often than high.
pub fn gpio_samples_say_stay(samples: &[bool]) -> (stay: bool)
    ensures
        stay == (count_of(samples@, false) > count_of(samples@, true)),
{
    let mut active: usize = 0;
    let mut inactive: usize = 0;
    let mut i: usize = 0;
    while i < samples.len()
        invariant
            i <= samples@.len(),
            active == count_of(samples@.subrange(0, i as int), false),
            inactive == count_of(samples@.subrange(0, i as int), true),
            active + inactive == i,
        decreases samples@.len() - i,
    {
        proof {
            assert(samples@.subrange(0, i + 1).drop_last() =~= samples@.subrange(0, i as int));
        }
        if samples[i] == false {
            active = active + 1;
        } else {
            inactive = inactive + 1;
        }
        i = i + 1;
    }
    assert(samples@.subrange(0, i as int) =~= samples@);
    active > inactive
}

/// Retention-register value that asks for the bootloader (serial only).
pub const DFU_MAGIC_SERIAL_ONLY_RESET: u32 = 0x4E;
/// Retention-register value that asks for this bootloader.
pub const DFU_MAGIC_TOCK_BOOTLOADER: u32 = 0x99;
/// Word left in RAM between the two resets of a double reset.
pub const DFU_DBL_RESET_MAGIC: u32 = 0x5A1AD5;

/// Whether the retention register holds one of the two magic values.
pub open spec fn retention_magic(register: u32) -> bool {
    register == DFU_MAGIC_SERIAL_ONLY_RESET || register == DFU_MAGIC_TOCK_BOOTLOADER
}

/// The retention-register entry decision: stay when the register holds
/// one of the two magic values (the register is then cleared).
pub fn retention_says_stay(register: u32) -> (stay: bool)
    ensures
        stay == retention_magic(register),
{
    register == DFU_MAGIC_SERIAL_ONLY_RESET || register == DFU_MAGIC_TOCK_BOOTLOADER
}

/// The decision of the retention-register entry, which falls back on a
/// double reset: stay when the register held a magic value, or else when the
/// double reset says so. Returns whether to stay and what to write to the
/// register: zero after a magic value (so the next reset does not stay
/// again), the serial-only magic when not staying (so that a bootloader
/// jumped to stays in serial mode), nothing otherwise.
pub fn retention_outcome(register: u32, double_reset_stays: bool) -> (r: (bool, Option<u32>))
    ensures
        retention_magic(register) ==> r == (true, Some(0u32)),
        !retention_magic(register) && double_reset_stays ==> r == (true, None::<u32>),
        !retention_magic(register) && !double_reset_stays ==> r == (false, Some(DFU_MAGIC_SERIAL_ONLY_RESET)),
{
    if retention_says_stay(register) {
        (true, Some(0))
    } else if double_reset_stays {
        (true, None)
    } else {
        (false, Some(DFU_MAGIC_SERIAL_ONLY_RESET))
    }
}

/// The double-reset entry decision on the RAM word found at reset: stay
/// and clear the word when it holds the magic; otherwise set the magic, so
/// that a reset during the wait that follows finds it, and do not stay.
/// Returns whether to stay and the value to store in the word.
pub fn double_reset_says_stay(word: u32) -> (r: (bool, u32))
    ensures
        word == DFU_DBL_RESET_MAGIC ==> r == (true, 0u32),
        word != DFU_DBL_RESET_MAGIC ==> r == (false, DFU_DBL_RESET_MAGIC),
{
    if word == DFU_DBL_RESET_MAGIC {
        (true, 0)
    } else {
        (false, DFU_DBL_RESET_MAGIC)
    }
}

} // verus!
