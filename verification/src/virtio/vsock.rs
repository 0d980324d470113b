//! The vsock device.

use vstd::bytes::{spec_u32_to_le_bytes, spec_u64_to_le_bytes, u32_to_le_bytes, u64_to_le_bytes};
#[allow(unused_imports)]
use vstd::bytes::{lemma_auto_spec_u32_to_from_le_bytes, lemma_auto_spec_u64_to_from_le_bytes};
use vstd::prelude::*;
use vstd::slice::slice_subrange;
use vstd::string::StringExecFns;

use crate::bytes::lay_over_slice;
#[allow(unused_imports)]
use crate::text::append_decimal;
#[allow(unused_imports)]
use crate::text::decimal;
use crate::virtio::codec::{deserialize_vsock_head, deserialize_vsock_tail, serialize_vsock_head, serialize_vsock_tail};
#[allow(unused_imports)]
use crate::virtio::codec::{
    begins_with, encoded_vsock_head, encoded_vsock_tail, refusal, VSOCK_HEAD_RECORD, VSOCK_TAIL_RECORD,
};
use crate::virtio::snapshot::{ActivateError, DeviceSnapshot, DeviceSnapshotError};
#[allow(unused_imports)]
use crate::virtio::snapshot::is_invalid;

verus! {

pub const NUM_QUEUES: usize = 3;

/// The bytes that come before the stream listeners of saved state.
pub const HEAD_SIZE: usize = 16;

pub const VIRTIO_VSOCK_EVENT_TRANSPORT_RESET: u32 = 0;

/// A vsock device.
#[derive(Debug)]
pub struct Vsock {
    cid: u64,
    has_queues: bool,
    acked_features: u64,
    activated: bool,
    pending_transport_reset: bool,
}

/// A vsock device.
#[verifier::ext_equal]
pub struct VsockView {
    pub cid: u64,
    /// Whether it has been given its queues.
    pub has_queues: bool,
    pub acked_features: u64,
    pub activated: bool,
    /// Whether the guest is still to be told that connections are gone.
    pub pending_transport_reset: bool,
}

impl View for Vsock {
    type V = VsockView;

    closed spec fn view(&self) -> VsockView {
        VsockView {
            cid: self.cid,
            has_queues: self.has_queues,
            acked_features: self.acked_features,
            activated: self.activated,
            pending_transport_reset: self.pending_transport_reset,
        }
    }
}

/// What is to be done with a descriptor.
#[derive(Clone, Copy, Debug, Eq, PartialEq, Structural)]
pub enum QueueAction {
    /// It is put on the used ring with this length, and the next one is taken.
    AddUsed(u32),
    /// It is put back, and no further one is taken.
    UndoPop,
}

/// What came of a descriptor of the receive queue.
#[derive(Clone, Copy, Debug, Eq, PartialEq, Structural)]
pub enum RxOutcome {
    /// A packet was put into it, with a header and contents of these lengths.
    Filled { header: u32, len: u32 },
    /// No packet was there for it.
    NothingPending,
    /// It cannot hold a packet.
    Malformed,
}

/// What came of a descriptor of the transmit queue.
#[derive(Clone, Copy, Debug, Eq, PartialEq, Structural)]
pub enum TxOutcome {
    /// Its packet was taken over.
    Sent,
    /// Its packet could not be taken over now.
    Busy,
    /// It holds no packet.
    Malformed,
}

pub open spec fn rx_action(outcome: RxOutcome) -> QueueAction {
    match outcome {
        RxOutcome::Filled { header, len } => QueueAction::AddUsed((header + len) as u32),
        RxOutcome::NothingPending => QueueAction::UndoPop,
        RxOutcome::Malformed => QueueAction::AddUsed(0),
    }
}

pub open spec fn tx_action(outcome: TxOutcome) -> QueueAction {
    match outcome {
        TxOutcome::Sent => QueueAction::AddUsed(0),
        TxOutcome::Busy => QueueAction::UndoPop,
        TxOutcome::Malformed => QueueAction::AddUsed(0),
    }
}

/// Which way a packet of the guest goes.
#[derive(Clone, Copy, Debug, Eq, PartialEq, Structural)]
pub enum SendPath {
    Datagram,
    Stream,
}

/// The way of a packet of this type, where `datagram` is the type of datagrams.
pub fn send_path(packet_type: u16, datagram: u16) -> (path: SendPath)
    ensures
        path == (if packet_type == datagram { SendPath::Datagram } else { SendPath::Stream }),
{
    if packet_type == datagram {
        SendPath::Datagram
    } else {
        SendPath::Stream
    }
}

/// A walk over the descriptors of a queue.
#[derive(Debug)]
pub struct QueueWalk {
    have_used: bool,
    adding: bool,
    over: bool,
}

impl QueueWalk {
    /// Whether a descriptor was put on the used ring.
    pub closed spec fn used(self) -> bool {
        self.have_used
    }

    /// Whether a descriptor is being put on the used ring.
    pub closed spec fn awaits(self) -> bool {
        self.adding
    }

    /// Whether no further descriptor is taken.
    pub closed spec fn ended(self) -> bool {
        self.over
    }

    /// A walk after which a descriptor was dealt with: the descriptor is either put on the used
    /// ring next, or it was the last one.
    pub open spec fn moved(self, action: QueueAction, after: QueueWalk) -> bool {
        &&& after.used() == self.used()
        &&& after.awaits() == (action is AddUsed)
        &&& after.ended() == (action is UndoPop)
    }

    /// Whether a descriptor was put on the used ring.
    pub fn have_used(&self) -> (used: bool)
        ensures
            used == self.used(),
    {
        self.have_used
    }

    /// Whether no further descriptor is taken.
    pub fn is_over(&self) -> (over: bool)
        ensures
            over == self.ended(),
    {
        self.over
    }

    fn done(&mut self, action: QueueAction)
        requires
            !old(self).ended(),
            !old(self).awaits(),
        ensures
            old(self).moved(action, *final(self)),
    {
        match action {
            QueueAction::AddUsed(_) => {
                self.adding = true;
            },
            QueueAction::UndoPop => {
                self.over = true;
            },
        }
    }

    /// Deals with a descriptor of the receive queue.
    pub fn received(&mut self, outcome: RxOutcome) -> (action: QueueAction)
        requires
            !old(self).ended(),
            !old(self).awaits(),
            outcome matches RxOutcome::Filled { header, len } ==> header + len <= u32::MAX,
        ensures
            action == rx_action(outcome),
            old(self).moved(action, *final(self)),
    {
        let action = match outcome {
            RxOutcome::Filled { header, len } => QueueAction::AddUsed(header + len),
            RxOutcome::NothingPending => QueueAction::UndoPop,
            RxOutcome::Malformed => QueueAction::AddUsed(0),
        };
        self.done(action);
        action
    }

    /// Deals with a descriptor of the transmit queue.
    pub fn transmitted(&mut self, outcome: TxOutcome) -> (action: QueueAction)
        requires
            !old(self).ended(),
            !old(self).awaits(),
        ensures
            action == tx_action(outcome),
            old(self).moved(action, *final(self)),
    {
        let action = match outcome {
            TxOutcome::Sent => QueueAction::AddUsed(0),
            TxOutcome::Busy => QueueAction::UndoPop,
            TxOutcome::Malformed => QueueAction::AddUsed(0),
        };
        self.done(action);
        action
    }

    /// Goes on once the descriptor was put on the used ring, or could not be.
    pub fn added(&mut self, added: bool)
        requires
            old(self).awaits(),
        ensures
            final(self).used() == (old(self).used() || added),
            !final(self).awaits(),
            final(self).ended() == old(self).ended(),
    {
        self.adding = false;
        if added {
            self.have_used = true;
        }
    }
}

/// The operations in which the guest is told that its connections are gone.
#[derive(Clone, Copy, Debug, Eq, PartialEq, Structural)]
pub enum ResetStage {
    /// Takes a descriptor of the event queue.
    Pop,
    /// Puts a descriptor that cannot hold an event on the used ring, with length 0.
    ReturnMalformed,
    /// Writes the event to the descriptor.
    WriteEvent,
    /// Puts the descriptor back.
    UndoPop,
    /// Puts the descriptor on the used ring, with the length of the event.
    AddUsed,
    /// The guest was told, or its descriptor was of no use.
    Wrote,
    /// The guest was not told.
    NotWritten,
    /// Telling the guest failed.
    Failed,
}

/// What the event queue held.
#[derive(Clone, Copy, Debug, Eq, PartialEq, Structural)]
pub struct EventHead {
    pub write_only: bool,
    pub len: u32,
}

/// What a buffer holds once a device's address was read into it, whole or one half of it.
pub open spec fn address_read(cid: u64, offset: u64, data: Seq<u8>) -> Seq<u8> {
    if offset == 0 && data.len() == 8 {
        spec_u64_to_le_bytes(cid)
    } else if offset == 0 && data.len() == 4 {
        spec_u32_to_le_bytes((cid % 0x1_0000_0000) as u32)
    } else if offset == 4 && data.len() == 4 {
        spec_u32_to_le_bytes((cid / 0x1_0000_0000) as u32)
    } else {
        data
    }
}

impl Vsock {
    /// A device with this context identifier.
    pub fn new(cid: u64) -> (vsock: Self)
        ensures
            vsock@ == (VsockView { cid, has_queues: false, acked_features: 0, activated: false, pending_transport_reset: false }),
    {
        Vsock { cid, has_queues: false, acked_features: 0, activated: false, pending_transport_reset: false }
    }

    pub fn cid(&self) -> (cid: u64)
        ensures
            cid == self@.cid,
    {
        self.cid
    }

    pub fn acked_features(&self) -> (features: u64)
        ensures
            features == self@.acked_features,
    {
        self.acked_features
    }

    pub fn set_acked_features(&mut self, features: u64)
        ensures
            final(self)@ == (VsockView { acked_features: features, ..old(self)@ }),
    {
        self.acked_features = features;
    }

    pub fn is_activated(&self) -> (activated: bool)
        ensures
            activated == self@.activated,
    {
        self.activated
    }

    /// Whether the guest is still to be told that connections are gone.
    pub fn pending_transport_reset(&self) -> (pending: bool)
        ensures
            pending == self@.pending_transport_reset,
    {
        self.pending_transport_reset
    }

    /// Begins to fill the descriptors of the receive queue.
    pub fn process_stream_rx(&self) -> (walk: QueueWalk)
        requires
            self@.activated,
        ensures
            !walk.used(),
            !walk.awaits(),
            !walk.ended(),
    {
        QueueWalk { have_used: false, adding: false, over: false }
    }

    /// Begins to send the packets of the transmit queue.
    pub fn process_stream_tx(&self) -> (walk: QueueWalk)
        requires
            self@.activated,
        ensures
            !walk.used(),
            !walk.awaits(),
            !walk.ended(),
    {
        QueueWalk { have_used: false, adding: false, over: false }
    }

    /// Begins to tell the guest that its connections are gone.
    pub fn write_transport_reset_event(&self) -> (stage: ResetStage)
        ensures
            stage == (if self@.activated && self@.has_queues { ResetStage::Pop } else { ResetStage::NotWritten }),
    {
        if self.activated && self.has_queues {
            ResetStage::Pop
        } else {
            ResetStage::NotWritten
        }
    }

    /// Begins to tell the guest, if that is still to be done.
    pub fn process_transport_reset_event(&self) -> (stage: ResetStage)
        ensures
            stage == reset_first(self@),
    {
        if !self.pending_transport_reset {
            return ResetStage::NotWritten;
        }
        self.write_transport_reset_event()
    }

    /// What telling the guest came to: whether it is to be interrupted.
    pub fn transport_reset_done(&mut self, stage: ResetStage) -> (wrote: bool)
        requires
            stage is Wrote || stage is NotWritten || stage is Failed,
        ensures
            wrote == (stage is Wrote),
            final(self)@ == (VsockView {
                pending_transport_reset: old(self)@.pending_transport_reset && !wrote,
                ..old(self)@
            }),
    {
        match stage {
            ResetStage::Wrote => {
                self.pending_transport_reset = false;
                true
            },
            _ => false,
        }
    }

    /// Activates the device with its three queues; `signalled` says whether the worker could be
    /// told.
    pub fn activate(&mut self, queues: usize, signalled: bool) -> (r: Result<(), ActivateError>)
        ensures
            if queues == NUM_QUEUES && signalled {
                &&& r == Ok::<(), ActivateError>(())
                &&& final(self)@ == (VsockView { has_queues: true, activated: true, ..old(self)@ })
            } else {
                r == Err::<(), ActivateError>(ActivateError::BadActivate) && final(self)@ == old(self)@
            },
    {
        if queues != NUM_QUEUES {
            return Err(ActivateError::BadActivate);
        }
        if !signalled {
            return Err(ActivateError::BadActivate);
        }
        self.has_queues = true;
        self.activated = true;
        Ok(())
    }

    /// Whether the guest is interrupted once the device runs again: it is if the event, the packets
    /// sent, or, where some waited, the packets received were put on a used ring.
    pub fn resume(&self, reset: bool, sent: bool, received: Option<bool>) -> (signal: bool)
        requires
            self@.activated,
        ensures
            signal == (reset || sent || received == Some(true)),
    {
        let mut raise_irq = reset;
        raise_irq = raise_irq || sent;
        if let Some(used) = received {
            raise_irq = raise_irq || used;
        }
        raise_irq
    }

    /// Reads the configuration space: the context identifier, whole or by halves.
    pub fn read_config(&self, offset: u64, data: &mut [u8])
        ensures
            final(data)@.len() == old(data)@.len(),
            final(data)@ == address_read(self@.cid, offset, old(data)@),
    {
        proof {
            lemma_auto_spec_u32_to_from_le_bytes();
            lemma_auto_spec_u64_to_from_le_bytes();
        }
        let len: usize = data.len();
        if offset == 0 && len == 8 {
            let bytes: Vec<u8> = u64_to_le_bytes(self.cid);
            lay_over_slice(data, 0, bytes.as_slice());
            assert(data@ =~= bytes@);
        } else if offset == 0 && len == 4 {
            let bytes: Vec<u8> = u32_to_le_bytes((self.cid % 0x1_0000_0000) as u32);
            lay_over_slice(data, 0, bytes.as_slice());
            assert(data@ =~= bytes@);
        } else if offset == 4 && len == 4 {
            let bytes: Vec<u8> = u32_to_le_bytes((self.cid / 0x1_0000_0000) as u32);
            lay_over_slice(data, 0, bytes.as_slice());
            assert(data@ =~= bytes@);
        }
    }
}

/// The first operation by which the guest is told that connections are gone.
pub open spec fn reset_first(vsock: VsockView) -> ResetStage {
    if vsock.pending_transport_reset && vsock.activated && vsock.has_queues {
        ResetStage::Pop
    } else {
        ResetStage::NotWritten
    }
}

/// The operation after a descriptor was asked for.
pub open spec fn reset_popped(head: Option<EventHead>) -> ResetStage {
    match head {
        None => ResetStage::NotWritten,
        Some(head) => if !head.write_only || head.len < 4 {
            ResetStage::ReturnMalformed
        } else {
            ResetStage::WriteEvent
        },
    }
}

/// The operation after one that succeeded or failed.
pub open spec fn reset_after(stage: ResetStage, ok: bool) -> ResetStage {
    match stage {
        ResetStage::ReturnMalformed => ResetStage::Wrote,
        ResetStage::WriteEvent => if ok { ResetStage::AddUsed } else { ResetStage::UndoPop },
        ResetStage::UndoPop => ResetStage::Failed,
        ResetStage::AddUsed => if ok { ResetStage::Wrote } else { ResetStage::Failed },
        other => other,
    }
}

/// How many operations can still come.
pub open spec fn reset_rest(stage: ResetStage) -> int {
    match stage {
        ResetStage::Pop => 3,
        ResetStage::ReturnMalformed => 1,
        ResetStage::WriteEvent => 2,
        ResetStage::UndoPop => 1,
        ResetStage::AddUsed => 1,
        ResetStage::Wrote => 0,
        ResetStage::NotWritten => 0,
        ResetStage::Failed => 0,
    }
}

/// Telling the guest comes to an end. The event is put on the used ring only after it was written,
/// and a descriptor that could not be written is put back.
pub proof fn telling_the_guest_ends(stage: ResetStage, head: Option<EventHead>, ok: bool)
    ensures
        reset_rest(reset_popped(head)) < reset_rest(ResetStage::Pop),
        !(stage is Pop) && reset_rest(stage) > 0 ==> reset_rest(reset_after(stage, ok)) < reset_rest(stage),
        !(stage is AddUsed) && reset_after(stage, ok) is AddUsed ==> stage is WriteEvent && ok,
        stage is WriteEvent && !ok ==> reset_after(stage, ok) is UndoPop,
{
}

impl ResetStage {
    /// The operation after a descriptor was asked for.
    pub fn popped(self, head: Option<EventHead>) -> (next: ResetStage)
        requires
            self is Pop,
        ensures
            next == reset_popped(head),
    {
        match head {
            None => ResetStage::NotWritten,
            Some(head) => if !head.write_only || head.len < 4 {
                ResetStage::ReturnMalformed
            } else {
                ResetStage::WriteEvent
            },
        }
    }

    /// The operation after one that succeeded or failed.
    pub fn after(self, ok: bool) -> (next: ResetStage)
        requires
            !(self is Pop),
        ensures
            next == reset_after(self, ok),
    {
        match self {
            ResetStage::ReturnMalformed => ResetStage::Wrote,
            ResetStage::WriteEvent => if ok { ResetStage::AddUsed } else { ResetStage::UndoPop },
            ResetStage::UndoPop => ResetStage::Failed,
            ResetStage::AddUsed => if ok { ResetStage::Wrote } else { ResetStage::Failed },
            other => other,
        }
    }

    /// The bytes of the event.
    pub fn event() -> (bytes: Vec<u8>)
        ensures
            bytes@ == spec_u32_to_le_bytes(VIRTIO_VSOCK_EVENT_TRANSPORT_RESET),
            bytes@.len() == 4,
    {
        proof {
            lemma_auto_spec_u32_to_from_le_bytes();
        }
        u32_to_le_bytes(VIRTIO_VSOCK_EVENT_TRANSPORT_RESET)
    }
}

/// The text in which a snapshot with another number of queues is refused.
pub open spec fn queue_count_text(got: nat) -> Seq<char> {
    "vsock: expected 3 queues, got "@ + decimal(got)
}

/// The text in which the snapshot of another device is refused.
pub open spec fn cid_text(saved: u64, current: u64) -> Seq<char> {
    "vsock cid mismatch: snapshot="@ + decimal(saved as nat) + " current="@ + decimal(current as nat)
}

/// The bytes of a device's state, around those of its stream listeners.
pub open spec fn payload_of(vsock: VsockView, listeners: Seq<u8>) -> Seq<u8> {
    encoded_vsock_head(vsock.cid, vsock.acked_features) + listeners + encoded_vsock_tail(Seq::empty(), vsock.activated)
}

/// State that was read, before the stream listeners are read back.
#[derive(Debug)]
pub struct VsockRestore {
    transport_reset: bool,
}

impl VsockRestore {
    /// Whether the guest will have to be told that connections are gone.
    pub closed spec fn resets(self) -> bool {
        self.transport_reset
    }
}

/// What comes of the head and the tail of a device's state.
pub open spec fn body_restored(
    before: VsockView,
    head: (u64, u64),
    tail: (Seq<(u32, u32)>, bool),
    after: VsockView,
    r: Result<VsockRestore, DeviceSnapshotError>,
) -> bool {
    if head.0 != before.cid {
        after == before && (r matches Err(e) && is_invalid(e, cid_text(head.0, before.cid)))
    } else {
        &&& after == (VsockView { acked_features: head.1, ..before })
        &&& r matches Ok(restore) && restore.resets() == (tail.1 || tail.0.len() > 0)
    }
}

impl Vsock {
    /// Saves the device: the states of its queues, and the bytes of its stream listeners.
    pub fn serialize_state<Q>(&self, states: Vec<Q>, listeners: Vec<u8>) -> (r: Result<DeviceSnapshot<Q>, DeviceSnapshotError>)
        requires
            self@.has_queues ==> states@.len() == NUM_QUEUES,
        ensures
            match r {
                Ok(snapshot) => {
                    &&& self@.has_queues
                    &&& snapshot.queues == states
                    &&& snapshot.payload@ == payload_of(self@, listeners@)
                },
                Err(e) => !self@.has_queues && is_invalid(e, "vsock not activated"@),
            },
    {
        if !self.has_queues {
            return Err(DeviceSnapshotError::Invalid("vsock not activated".to_owned()));
        }
        let mut payload: Vec<u8> = match serialize_vsock_head(self.cid, self.acked_features) {
            Ok(payload) => payload,
            Err(text) => {
                return Err(DeviceSnapshotError::Codec(text));
            },
        };
        let pending_rx: Vec<(u32, u32)> = Vec::new();
        let mut tail: Vec<u8> = match serialize_vsock_tail(&pending_rx, self.activated) {
            Ok(tail) => tail,
            Err(text) => {
                return Err(DeviceSnapshotError::Codec(text));
            },
        };
        let mut listeners: Vec<u8> = listeners;
        payload.append(&mut listeners);
        payload.append(&mut tail);
        assert(pending_rx@ =~= Seq::empty());
        Ok(DeviceSnapshot { queues: states, payload })
    }

    /// Takes over what was read of a device's state, if it is that of this device.
    pub fn restore_body(&mut self, head: (u64, u64), tail: (Vec<(u32, u32)>, bool)) -> (r: Result<VsockRestore, DeviceSnapshotError>)
        ensures
            body_restored(old(self)@, head, (tail.0@, tail.1), final(self)@, r),
    {
        let (cid, acked_features) = head;
        let (pending_rx, transport_reset) = tail;
        if cid != self.cid {
            let mut text: String = "vsock cid mismatch: snapshot=".to_owned();
            append_decimal(&mut text, cid);
            text.append(" current=");
            append_decimal(&mut text, self.cid);
            return Err(DeviceSnapshotError::Invalid(text));
        }
        self.acked_features = acked_features;
        Ok(VsockRestore { transport_reset: transport_reset || pending_rx.len() > 0 })
    }

    /// Reads state back; `listeners` says how many bytes behind the head hold the stream listeners,
    /// or why they could not be read.
    pub fn restore_state<Q>(
        &mut self,
        snapshot: &DeviceSnapshot<Q>,
        listeners: Result<usize, String>,
    ) -> (r: Result<VsockRestore, DeviceSnapshotError>)
        requires
            listeners matches Ok(n) ==> HEAD_SIZE + n <= snapshot.payload@.len(),
        ensures
            if snapshot.queues@.len() != 3 {
                &&& final(self)@ == old(self)@
                &&& r matches Err(e) && is_invalid(e, queue_count_text(snapshot.queues@.len()))
            } else {
                let payload = snapshot.payload@;
                &&& (forall|head: (u64, u64)| !begins_with(payload, #[trigger] encoded_vsock_head(head.0, head.1))) ==> {
                    &&& final(self)@ == old(self)@
                    &&& r matches Err(DeviceSnapshotError::Codec(text)) && text@ == refusal(VSOCK_HEAD_RECORD, payload)
                }
                &&& forall|head: (u64, u64)|
                    begins_with(payload, #[trigger] encoded_vsock_head(head.0, head.1)) ==> match listeners {
                        Err(text) => {
                            &&& final(self)@ == old(self)@
                            &&& r == Err::<VsockRestore, DeviceSnapshotError>(DeviceSnapshotError::Codec(text))
                        },
                        Ok(n) => {
                            let rest = payload.subrange(HEAD_SIZE + n, payload.len() as int);
                            &&& (forall|tail: (Seq<(u32, u32)>, bool)| !begins_with(rest, #[trigger] encoded_vsock_tail(tail.0, tail.1))) ==> {
                                &&& final(self)@ == old(self)@
                                &&& r matches Err(DeviceSnapshotError::Codec(text)) && text@ == refusal(VSOCK_TAIL_RECORD, rest)
                            }
                            &&& forall|tail: (Seq<(u32, u32)>, bool)|
                                begins_with(rest, #[trigger] encoded_vsock_tail(tail.0, tail.1)) ==> body_restored(
                                    old(self)@,
                                    head,
                                    tail,
                                    final(self)@,
                                    r,
                                )
                        },
                    }
            },
    {
        if snapshot.queues.len() != 3 {
            let mut text: String = "vsock: expected 3 queues, got ".to_owned();
            append_decimal(&mut text, snapshot.queues.len() as u64);
            return Err(DeviceSnapshotError::Invalid(text));
        }
        let head = match deserialize_vsock_head(&snapshot.payload) {
            Ok(head) => head,
            Err(text) => {
                return Err(DeviceSnapshotError::Codec(text));
            },
        };
        assert(begins_with(snapshot.payload@, encoded_vsock_head(head.0, head.1)));
        let n: usize = match listeners {
            Ok(n) => n,
            Err(text) => {
                return Err(DeviceSnapshotError::Codec(text));
            },
        };
        let size: usize = snapshot.payload.len();
        let tail = match deserialize_vsock_tail(slice_subrange(snapshot.payload.as_slice(), HEAD_SIZE + n, size)) {
            Ok(tail) => tail,
            Err(text) => {
                return Err(DeviceSnapshotError::Codec(text));
            },
        };
        let ghost read = (tail.0@, tail.1);
        assert(begins_with(
            snapshot.payload@.subrange(HEAD_SIZE + n, snapshot.payload@.len() as int),
            encoded_vsock_tail(read.0, read.1),
        ));
        self.restore_body(head, tail)
    }

    /// Ends reading state back, once the acceptors and the stream listeners were read back.
    pub fn restored(
        &mut self,
        restore: VsockRestore,
        acceptors: Result<(), String>,
        listeners: Result<(), String>,
    ) -> (r: Result<(), DeviceSnapshotError>)
        ensures
            match (acceptors, listeners) {
                (Err(text), _) => {
                    &&& final(self)@ == old(self)@
                    &&& r == Err::<(), DeviceSnapshotError>(DeviceSnapshotError::Invalid(text))
                },
                (Ok(()), Err(text)) => {
                    &&& final(self)@ == old(self)@
                    &&& r == Err::<(), DeviceSnapshotError>(DeviceSnapshotError::Invalid(text))
                },
                (Ok(()), Ok(())) => {
                    &&& final(self)@ == (VsockView { pending_transport_reset: restore.resets(), ..old(self)@ })
                    &&& r == Ok::<(), DeviceSnapshotError>(())
                },
            },
    {
        if let Err(text) = acceptors {
            return Err(DeviceSnapshotError::Invalid(text));
        }
        if let Err(text) = listeners {
            return Err(DeviceSnapshotError::Invalid(text));
        }
        self.pending_transport_reset = restore.transport_reset;
        Ok(())
    }
}

/// The saved state of a device begins with a head and, behind its stream listeners, goes on with a
/// tail; a device with its identifier that takes them over has its features, and tells the guest
/// that connections are gone if the saved one was active.
pub proof fn saved_state_reads_back(
    saved: VsockView,
    listeners: Seq<u8>,
    into: VsockView,
    after: VsockView,
    r: Result<VsockRestore, DeviceSnapshotError>,
)
    requires
        into.cid == saved.cid,
        body_restored(into, (saved.cid, saved.acked_features), (Seq::empty(), saved.activated), after, r),
    ensures
        after == (VsockView { acked_features: saved.acked_features, ..into }),
        r matches Ok(restore) && restore.resets() == saved.activated,
        ({
            let payload = payload_of(saved, listeners);
            &&& HEAD_SIZE + listeners.len() <= payload.len()
            &&& begins_with(payload, encoded_vsock_head(saved.cid, saved.acked_features))
            &&& payload.subrange(HEAD_SIZE as int, HEAD_SIZE + listeners.len()) == listeners
            &&& begins_with(
                payload.subrange(HEAD_SIZE + listeners.len(), payload.len() as int),
                encoded_vsock_tail(Seq::empty(), saved.activated),
            )
        }),
{
    lemma_auto_spec_u64_to_from_le_bytes();
    let payload = payload_of(saved, listeners);
    let head = encoded_vsock_head(saved.cid, saved.acked_features);
    let tail = encoded_vsock_tail(Seq::empty(), saved.activated);
    assert(head.len() == 16);
    assert(payload.subrange(0, head.len() as int) =~= head);
    assert(payload.subrange(HEAD_SIZE as int, HEAD_SIZE + listeners.len()) =~= listeners);
    let rest = payload.subrange(HEAD_SIZE + listeners.len(), payload.len() as int);
    assert(rest =~= tail);
    assert(rest.subrange(0, tail.len() as int) =~= tail);
}

} // verus!
