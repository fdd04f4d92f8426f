//! 512-byte pages over a flash whose pages are a larger multiple of 512.
//!
//! Reading a small page reads the large page that holds it and hands out
//! its 512-byte window. Writing reads the large page, lays the small page
//! over its window and writes the large page back. Erasing does the same
//! with a window of all ones: only the 512-byte window is cleared.
//!
//! Like the engine, the adapter is a state machine: each request and each
//! completion of the large flash yields one `FlashOp` for the surroundings
//! to carry out.
use vstd::prelude::*;

use crate::engine::{splice, splice_of};

verus! {

/// Size of a small page.
pub const SMALL_PAGE_SIZE: usize = 512;

/// A 512-byte page.
pub struct FiveTwelvePage {
    bytes: Vec<u8>,
}

impl View for FiveTwelvePage {
    type V = Seq<u8>;

    closed spec fn view(&self) -> Seq<u8> {
        self.bytes@
    }
}

impl FiveTwelvePage {
    #[verifier::type_invariant]
    spec fn inv(self) -> bool {
        self.bytes@.len() == SMALL_PAGE_SIZE
    }

    /// A page of zeros.
    pub fn zeroed() -> (r: FiveTwelvePage)
        ensures
            r@ == Seq::new(SMALL_PAGE_SIZE as nat, |i: int| 0u8),
    {
        FiveTwelvePage { bytes: filled(0u8) }
    }

    /// A page holding `bytes`, which must be 512 bytes long.
    pub fn from_bytes(bytes: Vec<u8>) -> (r: Option<FiveTwelvePage>)
        ensures
            bytes@.len() == SMALL_PAGE_SIZE ==> (r matches Some(p) && p@ == bytes@),
            bytes@.len() != SMALL_PAGE_SIZE ==> r is None,
    {
        if bytes.len() == SMALL_PAGE_SIZE {
            Some(FiveTwelvePage { bytes })
        } else {
            None
        }
    }

    /// The byte at `i`.
    pub fn index(&self, i: usize) -> (r: u8)
        requires
            i < SMALL_PAGE_SIZE,
        ensures
            r == self@[i as int],
    {
        proof {
            use_type_invariant(self);
        }
        self.bytes[i]
    }

    /// Sets the byte at `i`.
    pub fn set(&mut self, i: usize, v: u8)
        requires
            i < SMALL_PAGE_SIZE,
        ensures
            final(self)@ == old(self)@.update(i as int, v),
    {
        proof {
            use_type_invariant(&*self);
        }
        let mut b: Vec<u8> = Vec::new();
        let mut k: usize = 0;
        while k < SMALL_PAGE_SIZE
            invariant
                k <= SMALL_PAGE_SIZE,
                i < SMALL_PAGE_SIZE,
                self.bytes@.len() == SMALL_PAGE_SIZE,
                self@ == old(self)@,
                b@ == old(self)@.update(i as int, v).subrange(0, k as int),
            decreases SMALL_PAGE_SIZE - k,
        {
            b.push(if k == i { v } else { self.bytes[k] });
            k = k + 1;
            assert(b@ =~= old(self)@.update(i as int, v).subrange(0, k as int));
        }
        assert(b@ =~= old(self)@.update(i as int, v));
        self.bytes = b;
    }

    /// The page's bytes.
    pub fn as_slice(&self) -> (r: &[u8])
        ensures
            r@ == self@,
            r@.len() == SMALL_PAGE_SIZE,
    {
        proof {
            use_type_invariant(self);
        }
        self.bytes.as_slice()
    }
}

impl Default for FiveTwelvePage {
    fn default() -> (r: FiveTwelvePage)
        ensures
            r@ == Seq::new(SMALL_PAGE_SIZE as nat, |i: int| 0u8),
    {
        FiveTwelvePage::zeroed()
    }
}

/// 512 copies of `v`.
fn filled(v: u8) -> (r: Vec<u8>)
    ensures
        r@ == Seq::new(SMALL_PAGE_SIZE as nat, |i: int| v),
{
    let mut r: Vec<u8> = Vec::new();
    while r.len() < SMALL_PAGE_SIZE
        invariant
            r@.len() <= SMALL_PAGE_SIZE,
            forall|k: int| 0 <= k < r@.len() ==> r@[k] == v,
        decreases SMALL_PAGE_SIZE - r@.len(),
    {
        r.push(v);
    }
    assert(r@ =~= Seq::new(SMALL_PAGE_SIZE as nat, |i: int| v));
    r
}

/// What the adapter is doing.
#[derive(Clone, Copy, Debug, PartialEq, Eq, Structural)]
pub enum AdapterState {
    Idle,
    Read { page_number: usize },
    Write { page_number: usize },
    Erase { page_number: usize },
}

/// What the adapter asks for next: an operation on the large flash, or a
/// completion for its own client.
pub enum FlashOp {
    /// Read this large page.
    ReadLarge { index: usize },
    /// Write these bytes to this large page.
    WriteLarge { index: usize, data: Vec<u8> },
    /// The small page that was asked for.
    ReadDone { page: FiveTwelvePage },
    /// The small page that was written, handed back.
    WriteDone { page: FiveTwelvePage },
    /// The erase is done.
    EraseDone,
    /// Another operation is under way; the request was not taken.
    Busy,
    /// Another operation is under way; the page to write is handed back.
    Rejected { page: FiveTwelvePage },
    /// The completion answered nothing under way.
    Ignored,
}

/// The large page that holds small page `n`, and the byte offset of its
/// window there.
pub open spec fn large_index(large: nat, n: nat) -> nat {
    n / (large / SMALL_PAGE_SIZE as nat)
}

/// The byte offset of small page `n`'s window in its large page.
pub open spec fn window_offset(large: nat, n: nat) -> nat {
    (n % (large / SMALL_PAGE_SIZE as nat)) * SMALL_PAGE_SIZE as nat
}

/// Maps 512-byte pages onto larger pages.
pub struct FlashLargeToSmall {
    large_page_size: usize,
    state: AdapterState,
    client_page: Option<FiveTwelvePage>,
}

impl FlashLargeToSmall {
    /// An idle adapter over large pages of `large_page_size` bytes.
    pub fn new(large_page_size: usize) -> (r: FlashLargeToSmall)
        requires
            large_page_size >= SMALL_PAGE_SIZE,
            large_page_size % SMALL_PAGE_SIZE == 0,
        ensures
            r.wf(),
            r.large_page_size() == large_page_size,
            r.state() == AdapterState::Idle,
    {
        FlashLargeToSmall { large_page_size, state: AdapterState::Idle, client_page: None }
    }

    /// The size of a large page.
    pub closed spec fn large_page_size(&self) -> usize {
        self.large_page_size
    }

    /// What the adapter is doing.
    pub closed spec fn state(&self) -> AdapterState {
        self.state
    }

    /// Whether the adapter's sizes are workable.
    pub closed spec fn wf(&self) -> bool {
        &&& self.large_page_size >= SMALL_PAGE_SIZE
        &&& self.large_page_size % SMALL_PAGE_SIZE == 0
        &&& (self.state is Write <==> self.client_page is Some)
    }

    /// The small page the adapter holds for a write under way.
    pub closed spec fn client_page(&self) -> Seq<u8> {
        match self.client_page {
            Some(p) => p@,
            None => Seq::empty(),
        }
    }

    /// The large page that holds small page `small_page_index`, and the
    /// offset (in small pages) of the small page within it.
    pub fn get_large_page_index_offset(&self, small_page_index: usize) -> (r: (usize, usize))
        requires
            self.wf(),
        ensures
            r.0 == large_index(self.large_page_size() as nat, small_page_index as nat),
            r.1 * SMALL_PAGE_SIZE == window_offset(self.large_page_size() as nat, small_page_index as nat),
            r.1 < self.large_page_size() / SMALL_PAGE_SIZE,
    {
        let multiplier = self.large_page_size / SMALL_PAGE_SIZE;
        (small_page_index / multiplier, small_page_index % multiplier)
    }
}

/// A small page's window lies within its large page.
proof fn lemma_window_in_page(large: nat, n: nat)
    requires
        large >= SMALL_PAGE_SIZE,
        large % SMALL_PAGE_SIZE as nat == 0,
    ensures
        window_offset(large, n) + SMALL_PAGE_SIZE <= large,
{
    let k = large / 512;
    assert(large == k * 512) by (nonlinear_arith)
        requires
            large % 512 == 0,
            k == large / 512,
    ;
    assert(k > 0);
    let r = n % k;
    assert(0 <= r < k) by (nonlinear_arith)
        requires
            k > 0,
            r == n % k,
    ;
    assert(r * 512 + 512 <= k * 512) by (nonlinear_arith)
        requires
            0 <= r < k,
    ;
}

impl FlashLargeToSmall {
    /// Asks for small page `page_number`: reads the large page holding it.
    pub fn read_page(&mut self, page_number: usize) -> (r: FlashOp)
        requires
            old(self).wf(),
        ensures
            final(self).wf(),
            final(self).large_page_size() == old(self).large_page_size(),
            old(self).state() != AdapterState::Idle ==> r is Busy && final(self).state() == old(self).state(),
            old(self).state() == AdapterState::Idle ==> (r matches FlashOp::ReadLarge { index } && index
                == large_index(old(self).large_page_size() as nat, page_number as nat)) && final(self).state()
                == (AdapterState::Read { page_number }),
    {
        if self.state != AdapterState::Idle {
            return FlashOp::Busy;
        }
        let (index, _) = self.get_large_page_index_offset(page_number);
        self.state = AdapterState::Read { page_number };
        FlashOp::ReadLarge { index }
    }

    /// Asks to write `page` as small page `page_number`: first reads the
    /// large page holding it.
    pub fn write_page(&mut self, page_number: usize, page: FiveTwelvePage) -> (r: FlashOp)
        requires
            old(self).wf(),
        ensures
            final(self).wf(),
            final(self).large_page_size() == old(self).large_page_size(),
            old(self).state() != AdapterState::Idle ==> (r matches FlashOp::Rejected { page: p } && p@ == page@)
                && final(self).state() == old(self).state(),
            old(self).state() == AdapterState::Idle ==> (r matches FlashOp::ReadLarge { index } && index
                == large_index(old(self).large_page_size() as nat, page_number as nat)) && final(self).state()
                == (AdapterState::Write { page_number }) && final(self).client_page() == page@,
    {
        if self.state != AdapterState::Idle {
            return FlashOp::Rejected { page };
        }
        let (index, _) = self.get_large_page_index_offset(page_number);
        self.state = AdapterState::Write { page_number };
        self.client_page = Some(page);
        FlashOp::ReadLarge { index }
    }

    /// Asks to erase small page `page_number`: first reads the large page
    /// holding it.
    pub fn erase_page(&mut self, page_number: usize) -> (r: FlashOp)
        requires
            old(self).wf(),
        ensures
            final(self).wf(),
            final(self).large_page_size() == old(self).large_page_size(),
            old(self).state() != AdapterState::Idle ==> r is Busy && final(self).state() == old(self).state(),
            old(self).state() == AdapterState::Idle ==> (r matches FlashOp::ReadLarge { index } && index
                == large_index(old(self).large_page_size() as nat, page_number as nat)) && final(self).state()
                == (AdapterState::Erase { page_number }),
    {
        if self.state != AdapterState::Idle {
            return FlashOp::Busy;
        }
        let (index, _) = self.get_large_page_index_offset(page_number);
        self.state = AdapterState::Erase { page_number };
        FlashOp::ReadLarge { index }
    }

    /// A large page was read: hands out the small page, or lays the small
    /// page (or a window of ones) over it and writes it back.
    pub fn read_complete(&mut self, large: &[u8]) -> (r: FlashOp)
        requires
            old(self).wf(),
            large@.len() == old(self).large_page_size(),
        ensures
            final(self).wf(),
            final(self).large_page_size() == old(self).large_page_size(),
            ({
                let ls = old(self).large_page_size() as nat;
                match old(self).state() {
                    AdapterState::Idle => r is Ignored && final(self).state() == old(self).state(),
                    AdapterState::Read { page_number } => {
                        let off = window_offset(ls, page_number as nat) as int;
                        &&& r matches FlashOp::ReadDone { page } && page@ == large@.subrange(off, off + 512)
                        &&& final(self).state() == AdapterState::Idle
                    },
                    AdapterState::Write { page_number } => {
                        let off = window_offset(ls, page_number as nat) as int;
                        &&& r matches FlashOp::WriteLarge { index, data } && index == large_index(ls, page_number as nat)
                            && data@ == splice(large@, off, old(self).client_page())
                        &&& final(self).state() == old(self).state()
                        &&& final(self).client_page() == old(self).client_page()
                    },
                    AdapterState::Erase { page_number } => {
                        let off = window_offset(ls, page_number as nat) as int;
                        &&& r matches FlashOp::WriteLarge { index, data } && index == large_index(ls, page_number as nat)
                            && data@ == splice(large@, off, Seq::new(512, |i: int| 0xFFu8))
                        &&& final(self).state() == old(self).state()
                    },
                }
            }),
    {
        match self.state {
            AdapterState::Idle => FlashOp::Ignored,
            AdapterState::Read { page_number } => {
                let (_, offset) = self.get_large_page_index_offset(page_number);
                proof {
                    lemma_window_in_page(self.large_page_size as nat, page_number as nat);
                }
                let start = offset * SMALL_PAGE_SIZE;
                let llen = large.len();
                let mut bytes: Vec<u8> = Vec::new();
                let mut i: usize = 0;
                while i < SMALL_PAGE_SIZE
                    invariant
                        i <= SMALL_PAGE_SIZE,
                        start + SMALL_PAGE_SIZE <= large@.len(),
                        llen == large@.len(),
                        bytes@ == large@.subrange(start as int, start + i),
                    decreases SMALL_PAGE_SIZE - i,
                {
                    bytes.push(large[start + i]);
                    i = i + 1;
                    assert(bytes@ =~= large@.subrange(start as int, start + i));
                }
                self.state = AdapterState::Idle;
                FlashOp::ReadDone { page: FiveTwelvePage { bytes } }
            },
            AdapterState::Write { page_number } => {
                let (index, offset) = self.get_large_page_index_offset(page_number);
                proof {
                    lemma_window_in_page(self.large_page_size as nat, page_number as nat);
                }
                let data = match &self.client_page {
                    Some(p) => {
                        proof {
                            use_type_invariant(p);
                        }
                        splice_of(large, offset * SMALL_PAGE_SIZE, p.bytes.as_slice())
                    },
                    None => Vec::new(),
                };
                FlashOp::WriteLarge { index, data }
            },
            AdapterState::Erase { page_number } => {
                let (index, offset) = self.get_large_page_index_offset(page_number);
                proof {
                    lemma_window_in_page(self.large_page_size as nat, page_number as nat);
                }
                let ones = filled(0xFFu8);
                let data = splice_of(large, offset * SMALL_PAGE_SIZE, ones.as_slice());
                FlashOp::WriteLarge { index, data }
            },
        }
    }

    /// A large page was written: the small write or erase is done.
    pub fn write_complete(&mut self) -> (r: FlashOp)
        requires
            old(self).wf(),
        ensures
            final(self).wf(),
            final(self).large_page_size() == old(self).large_page_size(),
            old(self).state() is Write ==> (r matches FlashOp::WriteDone { page } && page@ == old(self).client_page())
                && final(self).state() == AdapterState::Idle,
            old(self).state() is Erase ==> r is EraseDone && final(self).state() == AdapterState::Idle,
            !(old(self).state() is Write) && !(old(self).state() is Erase) ==> r is Ignored && final(self).state()
                == old(self).state(),
    {
        match self.state {
            AdapterState::Write { .. } => {
                self.state = AdapterState::Idle;
                match self.client_page.take() {
                    Some(page) => FlashOp::WriteDone { page },
                    None => FlashOp::Ignored,
                }
            },
            AdapterState::Erase { .. } => {
                self.state = AdapterState::Idle;
                FlashOp::EraseDone
            },
            _ => FlashOp::Ignored,
        }
    }
}

} // verus!
