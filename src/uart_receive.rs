//! Receive-until-idle over a transport that only receives fixed lengths.
//!
//! The first receive asks for one byte, so that the first byte to arrive is
//! reported at once. Each chunk that arrives is added to the client's
//! buffer; then an alarm is armed for the inter-byte deadline and the next
//! chunk is asked for. When the alarm fires the receive is aborted, and the
//! cancelled receive delivers what was gathered.
use vstd::prelude::*;

verus! {

/// Largest chunk asked for after the first byte, so that short messages
/// complete promptly.
pub const MAX_CHUNK: usize = 50;
/// The inter-byte deadline, in milliseconds.
pub const INTERBYTE_TIMEOUT_MS: u32 = 6;

/// Whether a receive is under way.
#[derive(Clone, Copy, Debug, PartialEq, Eq, Structural)]
pub enum ShimState {
    Idle,
    Receiving,
}

/// How a chunk receive of the underlying transport ended.
#[derive(Clone, Copy, Debug, PartialEq, Eq, Structural)]
pub enum RxStatus {
    /// The chunk arrived.
    Complete,
    /// The receive was aborted.
    Cancelled,
    /// The receive failed.
    Failed,
}

/// What the shim asks for next.
#[derive(Debug, PartialEq)]
pub enum ShimAction {
    /// Receive up to `len` bytes into the chunk buffer.
    ReceiveChunk { len: usize },
    /// Arm the alarm for `alarm_ms` milliseconds, then receive up to `len`
    /// bytes into the chunk buffer.
    ArmAndReceive { alarm_ms: u32, len: usize },
    /// Arm (or re-arm) the alarm for `alarm_ms` milliseconds.
    ArmAlarm { alarm_ms: u32 },
    /// Abort the receive under way.
    Abort,
    /// Hand these bytes to the client.
    Deliver { data: Vec<u8> },
    /// A receive is already under way.
    Busy,
    /// Nothing to do.
    Nothing,
}

/// The size of the chunks asked for after the first: half the chunk
/// buffer (a transport may deliver more than asked), at most 50 bytes.
pub open spec fn next_chunk_len(rx_capacity: nat) -> nat {
    if rx_capacity / 2 < MAX_CHUNK { rx_capacity / 2 } else { MAX_CHUNK as nat }
}

/// Receive-until-idle built from chunked receives and an alarm.
pub struct UartReceiveMultipleTimeout {
    state: ShimState,
    rx_capacity: usize,
    client_capacity: usize,
    gathered: Vec<u8>,
}

impl UartReceiveMultipleTimeout {
    #[verifier::type_invariant]
    spec fn inv(self) -> bool {
        self.gathered@.len() <= self.client_capacity
    }

    /// An idle shim whose chunk buffer holds `rx_capacity` bytes.
    pub fn new(rx_capacity: usize) -> (r: UartReceiveMultipleTimeout)
        ensures
            r.state() == ShimState::Idle,
            r.rx_capacity() == rx_capacity,
            r.gathered() == Seq::<u8>::empty(),
    {
        let r = UartReceiveMultipleTimeout { state: ShimState::Idle, rx_capacity, client_capacity: 0, gathered: Vec::new() };
        assert(r.gathered@ =~= Seq::<u8>::empty());
        r
    }

    /// Whether a receive is under way.
    pub closed spec fn state(&self) -> ShimState {
        self.state
    }

    /// Size of the chunk buffer.
    pub closed spec fn rx_capacity(&self) -> usize {
        self.rx_capacity
    }

    /// Size of the client's buffer for the receive under way.
    pub closed spec fn client_capacity(&self) -> usize {
        self.client_capacity
    }

    /// The bytes gathered for the client so far.
    pub closed spec fn gathered(&self) -> Seq<u8> {
        self.gathered@
    }

    /// Starts a receive-until-idle into a client buffer of `capacity` bytes.
    pub fn receive_automatic(&mut self, capacity: usize) -> (a: ShimAction)
        ensures
            final(self).rx_capacity() == old(self).rx_capacity(),
            old(self).state() == ShimState::Receiving ==> a == ShimAction::Busy && final(self).state()
                == old(self).state() && final(self).gathered() == old(self).gathered()
                && final(self).client_capacity() == old(self).client_capacity(),
            old(self).state() == ShimState::Idle ==> a == (ShimAction::ReceiveChunk { len: 1 }) && final(self).state()
                == ShimState::Receiving && final(self).gathered() == Seq::<u8>::empty()
                && final(self).client_capacity() == capacity,
    {
        proof {
            use_type_invariant(&*self);
        }
        match self.state {
            ShimState::Idle => {
                self.state = ShimState::Receiving;
                self.gathered = Vec::new();
                self.client_capacity = capacity;
                assert(self.gathered@ =~= Seq::<u8>::empty());
                // One byte, so that the first byte to arrive is reported.
                ShimAction::ReceiveChunk { len: 1 }
            },
            ShimState::Receiving => ShimAction::Busy,
        }
    }

    /// The alarm fired: the line went quiet, so the receive is aborted.
    pub fn alarm(&self) -> (a: ShimAction)
        ensures
            a == ShimAction::Abort,
    {
        ShimAction::Abort
    }

    /// A chunk receive ended with the bytes `chunk`. The bytes that fit are
    /// added to what was gathered; then, if the chunk arrived and there is
    /// room left, the alarm is armed and the next chunk asked for; if the
    /// receive was aborted or the client's buffer is full, what was gathered
    /// is delivered.
    pub fn received_buffer(&mut self, chunk: &[u8], status: RxStatus) -> (a: ShimAction)
        ensures
            final(self).rx_capacity() == old(self).rx_capacity(),
            final(self).client_capacity() == old(self).client_capacity(),
            final(self).gathered().len() <= final(self).client_capacity(),
            old(self).state() == ShimState::Idle ==> a == ShimAction::Nothing && final(self).state() == old(self).state()
                && final(self).gathered() == old(self).gathered(),
            old(self).state() == ShimState::Receiving ==> ({
                let room = old(self).client_capacity() - old(self).gathered().len();
                let take = if chunk@.len() < room { chunk@.len() as int } else { room };
                let all = old(self).gathered() + chunk@.subrange(0, take);
                match status {
                    RxStatus::Complete => if all.len() == old(self).client_capacity() {
                        (a matches ShimAction::Deliver { data } && data@ == all) && final(self).state() == ShimState::Idle
                    } else {
                        a == (ShimAction::ArmAndReceive {
                            alarm_ms: INTERBYTE_TIMEOUT_MS,
                            len: next_chunk_len(old(self).rx_capacity() as nat) as usize,
                        }) && final(self).state() == ShimState::Receiving && final(self).gathered() == all
                    },
                    RxStatus::Cancelled => (a matches ShimAction::Deliver { data } && data@ == all) && final(self).state()
                        == ShimState::Idle,
                    RxStatus::Failed => a == ShimAction::Nothing && final(self).state() == ShimState::Receiving
                        && final(self).gathered() == all,
                }
            }),
    {
        proof {
            use_type_invariant(&*self);
        }
        if self.state == ShimState::Idle {
            return ShimAction::Nothing;
        }
        // Copy what fits into the client's buffer.
        let room = self.client_capacity - self.gathered.len();
        let take = if chunk.len() < room { chunk.len() } else { room };
        let mut all: Vec<u8> = Vec::new();
        let mut i: usize = 0;
        while i < self.gathered.len()
            invariant
                i <= self.gathered@.len(),
                all@ == self.gathered@.subrange(0, i as int),
            decreases self.gathered@.len() - i,
        {
            all.push(self.gathered[i]);
            i = i + 1;
            assert(all@ =~= self.gathered@.subrange(0, i as int));
        }
        assert(self.gathered@.subrange(0, i as int) =~= self.gathered@);
        let ghost before = self.gathered@;
        let mut j: usize = 0;
        while j < take
            invariant
                j <= take <= chunk@.len(),
                all@ == before + chunk@.subrange(0, j as int),
            decreases take - j,
        {
            all.push(chunk[j]);
            j = j + 1;
            assert(all@ =~= before + chunk@.subrange(0, j as int));
        }
        match status {
            RxStatus::Complete => {
                if all.len() == self.client_capacity {
                    self.state = ShimState::Idle;
                    self.gathered = Vec::new();
                    ShimAction::Deliver { data: all }
                } else {
                    self.gathered = all;
                    let half = self.rx_capacity / 2;
                    let len = if half < MAX_CHUNK { half } else { MAX_CHUNK };
                    ShimAction::ArmAndReceive { alarm_ms: INTERBYTE_TIMEOUT_MS, len }
                }
            },
            RxStatus::Cancelled => {
                self.state = ShimState::Idle;
                self.gathered = Vec::new();
                ShimAction::Deliver { data: all }
            },
            RxStatus::Failed => {
                self.gathered = all;
                ShimAction::Nothing
            },
        }
    }
}

/// The deadline after the last edge on the receive pin, in milliseconds.
pub const EDGE_TIMEOUT_MS: u32 = 30;

/// Receive-until-idle for a transport that receives into the whole buffer
/// at once: every falling edge on the receive pin restarts an alarm, and
/// when the alarm fires the receive is aborted, which delivers what came.
pub struct UartReceiveTimeout {}

impl UartReceiveTimeout {
    pub fn new() -> (r: UartReceiveTimeout) {
        UartReceiveTimeout {}
    }

    /// Starts a receive into the client's whole buffer of `len` bytes.
    pub fn receive_automatic(&self, len: usize) -> (a: ShimAction)
        ensures
            a == (ShimAction::ReceiveChunk { len }),
    {
        ShimAction::ReceiveChunk { len }
    }

    /// An edge on the receive pin: a byte is under way, so the deadline
    /// starts over.
    pub fn fired(&self) -> (a: ShimAction)
        ensures
            a == (ShimAction::ArmAlarm { alarm_ms: EDGE_TIMEOUT_MS }),
    {
        ShimAction::ArmAlarm { alarm_ms: EDGE_TIMEOUT_MS }
    }

    /// The alarm fired: the line went quiet, so the receive is aborted.
    pub fn alarm(&self) -> (a: ShimAction)
        ensures
            a == ShimAction::Abort,
    {
        ShimAction::Abort
    }
}

} // verus!
