//! The bytes in which device state is saved.
//!
//! A snapshot's payload is written and read with bincode in its default form: integers in
//! little-endian bytes of their full width, a list as its length in eight bytes followed by its
//! items, a flag as one byte, and the fields of a record one after the other.

use vstd::bytes::{spec_u16_to_le_bytes, spec_u32_to_le_bytes, spec_u64_to_le_bytes};
use vstd::prelude::*;

verus! {

/// A list of bytes.
pub open spec fn encoded_bytes(bytes: Seq<u8>) -> Seq<u8> {
    spec_u64_to_le_bytes(bytes.len() as u64) + bytes
}

/// The items of a list of lists of bytes.
pub open spec fn encoded_items(items: Seq<Seq<u8>>) -> Seq<u8>
    decreases items.len(),
{
    if items.len() == 0 {
        Seq::empty()
    } else {
        encoded_items(items.drop_last()) + encoded_bytes(items.last())
    }
}

/// A list of lists of bytes.
pub open spec fn encoded_lists(items: Seq<Seq<u8>>) -> Seq<u8> {
    spec_u64_to_le_bytes(items.len() as u64) + encoded_items(items)
}

pub open spec fn encoded_flag(flag: bool) -> u8 {
    if flag { 1 } else { 0 }
}

/// A list of flags.
pub open spec fn encoded_flags(flags: Seq<bool>) -> Seq<u8> {
    spec_u64_to_le_bytes(flags.len() as u64) + flags.map_values(|flag: bool| encoded_flag(flag))
}

/// The items of a list of pairs of numbers.
pub open spec fn encoded_pair_items(pairs: Seq<(u32, u32)>) -> Seq<u8>
    decreases pairs.len(),
{
    if pairs.len() == 0 {
        Seq::empty()
    } else {
        encoded_pair_items(pairs.drop_last()) + spec_u32_to_le_bytes(pairs.last().0) + spec_u32_to_le_bytes(pairs.last().1)
    }
}

/// A list of pairs of numbers.
pub open spec fn encoded_pairs(pairs: Seq<(u32, u32)>) -> Seq<u8> {
    spec_u64_to_le_bytes(pairs.len() as u64) + encoded_pair_items(pairs)
}

/// Whether `bytes` begins with `start`.
pub open spec fn begins_with(bytes: Seq<u8>, start: Seq<u8>) -> bool {
    start.len() <= bytes.len() && bytes.subrange(0, start.len() as int) == start
}

/// What is saved of a console besides its queues.
#[derive(Debug)]
pub struct ConsoleBody {
    pub acked_features: u64,
    pub cols: u16,
    pub rows: u16,
    pub max_nr_ports: u32,
    pub emerg_wr: u32,
    /// The control messages that the guest has not taken yet.
    pub control_queue: Vec<Vec<u8>>,
    pub active_ports: Vec<bool>,
}

/// What is saved of a console besides its queues.
#[verifier::ext_equal]
pub struct ConsoleBodyView {
    pub acked_features: u64,
    pub cols: u16,
    pub rows: u16,
    pub max_nr_ports: u32,
    pub emerg_wr: u32,
    pub control_queue: Seq<Seq<u8>>,
    pub active_ports: Seq<bool>,
}

impl View for ConsoleBody {
    type V = ConsoleBodyView;

    open spec fn view(&self) -> ConsoleBodyView {
        ConsoleBodyView {
            acked_features: self.acked_features,
            cols: self.cols,
            rows: self.rows,
            max_nr_ports: self.max_nr_ports,
            emerg_wr: self.emerg_wr,
            control_queue: self.control_queue@.map_values(|message: Vec<u8>| message@),
            active_ports: self.active_ports@,
        }
    }
}

/// The bytes of a console's state.
pub open spec fn encoded_console(body: ConsoleBodyView) -> Seq<u8> {
    spec_u64_to_le_bytes(body.acked_features) + spec_u16_to_le_bytes(body.cols) + spec_u16_to_le_bytes(body.rows)
        + spec_u32_to_le_bytes(body.max_nr_ports) + spec_u32_to_le_bytes(body.emerg_wr) + encoded_lists(body.control_queue)
        + encoded_flags(body.active_ports)
}

/// The bytes before the stream listeners of a vsock device's state.
pub open spec fn encoded_vsock_head(cid: u64, acked_features: u64) -> Seq<u8> {
    spec_u64_to_le_bytes(cid) + spec_u64_to_le_bytes(acked_features)
}

/// The bytes after the stream listeners of a vsock device's state.
pub open spec fn encoded_vsock_tail(pending_rx: Seq<(u32, u32)>, transport_reset: bool) -> Seq<u8> {
    encoded_pairs(pending_rx) + seq![encoded_flag(transport_reset)]
}

/// Which record bytes were read as.
pub const CONSOLE_RECORD: u8 = 0;

pub const VSOCK_HEAD_RECORD: u8 = 1;

pub const VSOCK_TAIL_RECORD: u8 = 2;

/// The text in which bincode refuses bytes that do not begin with a record of the given sort.
pub uninterp spec fn refusal(record: u8, bytes: Seq<u8>) -> Seq<char>;

/// `bincode::serialize`, on the fields of a console's state: it has no size limit and cannot fail
/// on these types, and writes the fields in order in the form above.
#[verifier::external_body]
pub(crate) fn serialize_console(body: &ConsoleBody) -> (r: Result<Vec<u8>, String>)
    ensures
        r is Ok,
        r->Ok_0@ == encoded_console(body@),
{
    let config = (body.cols, body.rows, body.max_nr_ports, body.emerg_wr);
    bincode::serialize(&(body.acked_features, config, &body.control_queue, &body.active_ports)).map_err(|e| e.to_string())
}

/// `bincode::deserialize`, to the fields of a console's state: it reads the record that the bytes
/// begin with, passes over what follows it, and fails if they begin with none.
#[verifier::external_body]
pub(crate) fn deserialize_console(payload: &Vec<u8>) -> (r: Result<ConsoleBody, String>)
    ensures
        match r {
            Ok(body) => begins_with(payload@, encoded_console(body@)),
            Err(text) => text@ == refusal(CONSOLE_RECORD, payload@),
        },
        forall|body: ConsoleBodyView| begins_with(payload@, #[trigger] encoded_console(body)) ==> r is Ok && r->Ok_0@ == body,
{
    let (acked_features, (cols, rows, max_nr_ports, emerg_wr), control_queue, active_ports) =
        bincode::deserialize(payload).map_err(|e| e.to_string())?;
    Ok(ConsoleBody { acked_features, cols, rows, max_nr_ports, emerg_wr, control_queue, active_ports })
}

/// `bincode::serialize`, on the two numbers before the stream listeners: it cannot fail on them,
/// and writes them in order in the form above.
#[verifier::external_body]
pub(crate) fn serialize_vsock_head(cid: u64, acked_features: u64) -> (r: Result<Vec<u8>, String>)
    ensures
        r is Ok,
        r->Ok_0@ == encoded_vsock_head(cid, acked_features),
{
    bincode::serialize(&(cid, acked_features)).map_err(|e| e.to_string())
}

/// `bincode::deserialize`, to the two numbers before the stream listeners: it reads the record that
/// the bytes begin with, passes over what follows it, and fails if they begin with none.
#[verifier::external_body]
pub(crate) fn deserialize_vsock_head(payload: &Vec<u8>) -> (r: Result<(u64, u64), String>)
    ensures
        match r {
            Ok((cid, acked_features)) => begins_with(payload@, encoded_vsock_head(cid, acked_features)),
            Err(text) => text@ == refusal(VSOCK_HEAD_RECORD, payload@),
        },
        forall|head: (u64, u64)| begins_with(payload@, #[trigger] encoded_vsock_head(head.0, head.1)) ==> r is Ok && r->Ok_0 == head,
{
    bincode::deserialize(payload).map_err(|e| e.to_string())
}

/// `bincode::serialize`, on what follows the stream listeners: it cannot fail on it, and writes it
/// in order in the form above.
#[verifier::external_body]
pub(crate) fn serialize_vsock_tail(pending_rx: &Vec<(u32, u32)>, transport_reset: bool) -> (r: Result<Vec<u8>, String>)
    ensures
        r is Ok,
        r->Ok_0@ == encoded_vsock_tail(pending_rx@, transport_reset),
{
    bincode::serialize(&(pending_rx, transport_reset)).map_err(|e| e.to_string())
}

/// `bincode::deserialize`, to what follows the stream listeners: it reads the record that the bytes
/// begin with, passes over what follows it, and fails if they begin with none.
#[verifier::external_body]
pub(crate) fn deserialize_vsock_tail(rest: &[u8]) -> (r: Result<(Vec<(u32, u32)>, bool), String>)
    ensures
        match r {
            Ok((pending_rx, transport_reset)) => begins_with(rest@, encoded_vsock_tail(pending_rx@, transport_reset)),
            Err(text) => text@ == refusal(VSOCK_TAIL_RECORD, rest@),
        },
        forall|tail: (Seq<(u32, u32)>, bool)|
            begins_with(rest@, #[trigger] encoded_vsock_tail(tail.0, tail.1)) ==> r is Ok && r->Ok_0.0@ == tail.0 && r->Ok_0.1 == tail.1,
{
    bincode::deserialize(rest).map_err(|e| e.to_string())
}

} // verus!
