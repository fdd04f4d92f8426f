//! The page adapter, the entry decisions and the receive shim.

use tock_bootloader::entry::{
    double_reset_says_stay, entry_action, gpio_samples_say_stay, retention_outcome, retention_says_stay, EntryAction, ActiveNotifier, ActiveNotifierNull,
    BootloaderEnterer, BootloaderEntry, BootloaderEntryAlways, CortexMJumper, Handover, Jumper, NullScheduler,
};
use tock_bootloader::flash_adapter::{AdapterState, FiveTwelvePage, FlashLargeToSmall, FlashOp};
use tock_bootloader::uart_receive::{RxStatus, ShimAction, UartReceiveMultipleTimeout, UartReceiveTimeout};
use std::cell::Cell;

fn large_page() -> Vec<u8> {
    (0..4096).map(|i| (i / 512) as u8).collect()
}

#[test]
fn adapter_reads_the_window() {
    let mut f = FlashLargeToSmall::new(4096);
    assert!(matches!(f.read_page(9), FlashOp::ReadLarge { index: 1 }));
    assert!(matches!(f.read_page(3), FlashOp::Busy));
    match f.read_complete(&large_page()) {
        FlashOp::ReadDone { page } => assert!(page.as_slice().iter().all(|&x| x == 1)),
        _ => panic!("expected the small page"),
    }
    assert!(matches!(f.read_page(3), FlashOp::ReadLarge { index: 0 }));
}

#[test]
fn adapter_writes_only_the_window() {
    let mut f = FlashLargeToSmall::new(4096);
    let mut small = FiveTwelvePage::default();
    small.set(0, 0xAB);
    assert!(matches!(f.write_page(10, small), FlashOp::ReadLarge { index: 1 }));
    let large = large_page();
    match f.read_complete(&large) {
        FlashOp::WriteLarge { index, data } => {
            assert_eq!(index, 1);
            assert_eq!(data[1024], 0xAB);
            assert!(data[1025..1536].iter().all(|&x| x == 0));
            assert_eq!(&data[..1024], &large[..1024]);
            assert_eq!(&data[1536..], &large[1536..]);
        }
        _ => panic!("expected a large write"),
    }
    match f.write_complete() {
        FlashOp::WriteDone { page } => assert_eq!(page.index(0), 0xAB),
        _ => panic!("expected the small page back"),
    }
}

#[test]
fn adapter_erase_fills_the_window_with_ones() {
    let mut f = FlashLargeToSmall::new(2048);
    assert!(matches!(f.erase_page(5), FlashOp::ReadLarge { index: 1 }));
    let large = vec![0u8; 2048];
    match f.read_complete(&large) {
        FlashOp::WriteLarge { index, data } => {
            assert_eq!(index, 1);
            assert!(data[512..1024].iter().all(|&x| x == 0xFF));
            assert!(data[..512].iter().all(|&x| x == 0));
            assert!(data[1024..].iter().all(|&x| x == 0));
        }
        _ => panic!("expected a large write"),
    }
    assert!(matches!(f.write_complete(), FlashOp::EraseDone));
    assert!(matches!(f.write_complete(), FlashOp::Ignored));
}

#[test]
fn adapter_rejects_a_write_while_busy() {
    let mut f = FlashLargeToSmall::new(4096);
    f.erase_page(0);
    match f.write_page(1, FiveTwelvePage::default()) {
        FlashOp::Rejected { page } => assert_eq!(page.as_slice().len(), 512),
        _ => panic!("expected the page back"),
    }
}

#[test]
fn adapter_page_index_and_offset() {
    let f = FlashLargeToSmall::new(4096);
    assert_eq!(f.get_large_page_index_offset(17), (2, 1));
    let g = FlashLargeToSmall::new(512);
    assert_eq!(g.get_large_page_index_offset(17), (17, 0));
}

#[test]
fn five_twelve_page_from_bytes() {
    assert!(FiveTwelvePage::from_bytes(vec![1; 512]).is_some());
    assert!(FiveTwelvePage::from_bytes(vec![1; 511]).is_none());
    let _ = AdapterState::Idle;
}

#[test]
fn gpio_majority_decides() {
    assert!(gpio_samples_say_stay(&[false, false, true]));
    assert!(!gpio_samples_say_stay(&[false, true]));
    assert!(!gpio_samples_say_stay(&[]));
    let mut samples = vec![true; 10000];
    for s in samples.iter_mut().take(5001) {
        *s = false;
    }
    assert!(gpio_samples_say_stay(&samples));
}

#[test]
fn retention_register_magic_values() {
    assert!(retention_says_stay(0x4E));
    assert!(retention_says_stay(0x99));
    assert!(!retention_says_stay(0));
    assert!(!retention_says_stay(0x98));
}

#[test]
fn double_reset_word() {
    assert_eq!(double_reset_says_stay(0x5A1AD5), (true, 0));
    assert_eq!(double_reset_says_stay(0), (false, 0x5A1AD5));
}

#[test]
fn cortex_m_handover() {
    let j = CortexMJumper::new();
    assert_eq!(
        j.handover(0x10000),
        Handover { vtor: 0xE000_ED08, vector_table: 0x10000, stack_pointer_slot: 0x10000, entry_slot: 0x10004 }
    );
}

struct Decider(bool);
impl BootloaderEntry for Decider {
    fn stay_in_bootloader(&self) -> bool {
        self.0
    }
}

struct RecordJump<'a>(&'a Cell<Option<u32>>);
impl Jumper for RecordJump<'_> {
    fn jump(&self, address: u32) {
        self.0.set(Some(address));
    }
}

struct CountActive<'a>(&'a Cell<u32>);
impl ActiveNotifier for CountActive<'_> {
    fn active(&mut self) {
        self.0.set(self.0.get() + 1);
    }
}

#[test]
fn enterer_jumps_or_notifies() {
    let jumped = Cell::new(None);
    let active = Cell::new(0);
    let mut go = BootloaderEnterer::new(Decider(false), RecordJump(&jumped), CountActive(&active), 0x400);
    assert_eq!(go.start_address_location(), Some(0x420));
    assert!(!go.check(0x10000));
    assert_eq!(jumped.get(), Some(0x10000));
    assert_eq!(active.get(), 0);

    let jumped2 = Cell::new(None);
    let mut stay = BootloaderEnterer::new(BootloaderEntryAlways::new(), RecordJump(&jumped2), CountActive(&active), 0x400);
    assert!(stay.check(0x10000));
    assert_eq!(jumped2.get(), None);
    assert_eq!(active.get(), 1);

    let mut quiet = BootloaderEnterer::new(BootloaderEntryAlways::new(), RecordJump(&jumped2), ActiveNotifierNull::new(), 0);
    assert!(quiet.check(0));
    let _ = NullScheduler::new();
}

#[test]
fn shim_gathers_until_cancelled() {
    let mut s = UartReceiveMultipleTimeout::new(512);
    assert_eq!(s.receive_automatic(600), ShimAction::ReceiveChunk { len: 1 });
    assert_eq!(s.receive_automatic(600), ShimAction::Busy);
    assert_eq!(s.received_buffer(&[0xFC], RxStatus::Complete), ShimAction::ArmAndReceive { alarm_ms: 6, len: 50 });
    assert_eq!(s.received_buffer(&[0x01, 0x02], RxStatus::Complete), ShimAction::ArmAndReceive { alarm_ms: 6, len: 50 });
    assert_eq!(s.alarm(), ShimAction::Abort);
    assert_eq!(s.received_buffer(&[0x03], RxStatus::Cancelled), ShimAction::Deliver { data: vec![0xFC, 1, 2, 3] });
    assert_eq!(s.received_buffer(&[0x03], RxStatus::Complete), ShimAction::Nothing);
}

#[test]
fn shim_small_chunk_buffer_and_full_client() {
    let mut s = UartReceiveMultipleTimeout::new(40);
    s.receive_automatic(3);
    assert_eq!(s.received_buffer(&[1], RxStatus::Complete), ShimAction::ArmAndReceive { alarm_ms: 6, len: 20 });
    assert_eq!(s.received_buffer(&[2, 3, 4, 5], RxStatus::Complete), ShimAction::Deliver { data: vec![1, 2, 3] });
    assert_eq!(s.receive_automatic(3), ShimAction::ReceiveChunk { len: 1 });
    assert_eq!(s.received_buffer(&[7], RxStatus::Failed), ShimAction::Nothing);
    assert_eq!(s.received_buffer(&[], RxStatus::Cancelled), ShimAction::Deliver { data: vec![7] });
}

#[test]
fn edge_timeout_restarts_on_each_edge() {
    let t = UartReceiveTimeout::new();
    assert_eq!(t.receive_automatic(600), ShimAction::ReceiveChunk { len: 600 });
    assert_eq!(t.fired(), ShimAction::ArmAlarm { alarm_ms: 30 });
    assert_eq!(t.fired(), ShimAction::ArmAlarm { alarm_ms: 30 });
    assert_eq!(t.alarm(), ShimAction::Abort);
}

#[test]
fn entry_action_and_retention_outcome() {
    assert_eq!(entry_action(true, 0x10000), EntryAction::Stay);
    assert_eq!(entry_action(false, 0x10000), EntryAction::JumpTo { address: 0x10000 });
    assert_eq!(retention_outcome(0x99, false), (true, Some(0)));
    assert_eq!(retention_outcome(0x4E, true), (true, Some(0)));
    assert_eq!(retention_outcome(0, true), (true, None));
    assert_eq!(retention_outcome(0, false), (false, Some(0x4E)));
    let cell = Cell::new(None);
    let far = BootloaderEnterer::new(BootloaderEntryAlways::new(), RecordJump(&cell), ActiveNotifierNull::new(), u32::MAX - 8);
    assert_eq!(far.start_address_location(), None);
}
