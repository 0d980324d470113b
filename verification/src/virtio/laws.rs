//! What drivers and snapshots can rely on.

use vstd::bytes::{
    lemma_auto_spec_u16_to_from_le_bytes, lemma_auto_spec_u32_to_from_le_bytes, lemma_auto_spec_u64_to_from_le_bytes, spec_u16_from_le_bytes,
    spec_u32_from_le_bytes, spec_u64_from_le_bytes,
};
use vstd::prelude::*;

#[allow(unused_imports)]
use crate::virtio::codec::ConsoleBodyView;
#[allow(unused_imports)]
use crate::virtio::console::{
    body_restored, encoded_command, message_taken, opened_ports, opens_port, queue_index, running_ports, ConfigView, ConsoleRestore, ConsoleView,
    ControlCommand, ControlRequest, ControlRx, MessageView, QueueDirection,
};
#[allow(unused_imports)]
use crate::virtio::pmem::{event_action, request_next, RequestStage};
#[allow(unused_imports)]
use crate::virtio::snapshot::DeviceSnapshotError;
#[allow(unused_imports)]
use crate::virtio::vsock::body_restored as vsock_restored;
#[allow(unused_imports)]
use crate::virtio::vsock::{
    address_read, reset_after, reset_first, reset_popped, rx_action, tx_action, EventHead, QueueAction, QueueWalk, ResetStage, RxOutcome, TxOutcome,
    VsockRestore, VsockView,
};

verus! {

/// The configuration space of a console: columns, rows, the number of ports and the place of emergency
/// writes, in this order, in two, two, four and four bytes, the lowest first.
pub proof fn configuration_is_laid_out_so(config: ConfigView)
    ensures
        config.bytes().len() == 12,
        spec_u16_from_le_bytes(config.bytes().subrange(0, 2)) == config.cols,
        spec_u16_from_le_bytes(config.bytes().subrange(2, 4)) == config.rows,
        spec_u32_from_le_bytes(config.bytes().subrange(4, 8)) == config.max_nr_ports,
        spec_u32_from_le_bytes(config.bytes().subrange(8, 12)) == config.emerg_wr,
{
    lemma_auto_spec_u16_to_from_le_bytes();
    lemma_auto_spec_u32_to_from_le_bytes();
    let bytes = config.bytes();
    assert(bytes.subrange(0, 2) =~= vstd::bytes::spec_u16_to_le_bytes(config.cols));
    assert(bytes.subrange(2, 4) =~= vstd::bytes::spec_u16_to_le_bytes(config.rows));
    assert(bytes.subrange(4, 8) =~= vstd::bytes::spec_u32_to_le_bytes(config.max_nr_ports));
    assert(bytes.subrange(8, 12) =~= vstd::bytes::spec_u32_to_le_bytes(config.emerg_wr));
}

/// A command is its port, its event and its value, in this order, in four, two and two bytes, the lowest
/// first. So two commands with the same bytes are the same.
pub proof fn commands_are_laid_out_so(command: ControlCommand, other: ControlCommand)
    ensures
        encoded_command(command).len() == 8,
        spec_u32_from_le_bytes(encoded_command(command).subrange(0, 4)) == command.id,
        spec_u16_from_le_bytes(encoded_command(command).subrange(4, 6)) == command.event,
        spec_u16_from_le_bytes(encoded_command(command).subrange(6, 8)) == command.value,
        encoded_command(command) == encoded_command(other) ==> command == other,
{
    lemma_auto_spec_u16_to_from_le_bytes();
    lemma_auto_spec_u32_to_from_le_bytes();
    let bytes = encoded_command(command);
    assert(bytes.subrange(0, 4) =~= vstd::bytes::spec_u32_to_le_bytes(command.id));
    assert(bytes.subrange(4, 6) =~= vstd::bytes::spec_u16_to_le_bytes(command.event));
    assert(bytes.subrange(6, 8) =~= vstd::bytes::spec_u16_to_le_bytes(command.value));
    let more = encoded_command(other);
    assert(more.subrange(0, 4) =~= vstd::bytes::spec_u32_to_le_bytes(other.id));
    assert(more.subrange(4, 6) =~= vstd::bytes::spec_u16_to_le_bytes(other.event));
    assert(more.subrange(6, 8) =~= vstd::bytes::spec_u16_to_le_bytes(other.value));
}

/// The receive and the transmit queue of port 0 are the first two; those of port `p` follow the two of
/// the control port and those of the ports before.
pub proof fn queues_are_placed_so(port: int)
    requires
        port > 0,
    ensures
        queue_index(QueueDirection::Rx, 0) == 0,
        queue_index(QueueDirection::Tx, 0) == 1,
        queue_index(QueueDirection::Rx, port) == 4 + 2 * (port - 1),
        queue_index(QueueDirection::Tx, port) == queue_index(QueueDirection::Rx, port) + 1,
{
}

/// A driver that is ready is told of each port once, in order. One that is ready for a port is told that
/// the port is open; before that, that it is a console, and after it of the window's size, where there is
/// a terminal; and last of its name, where it has one. Nothing else is answered.
pub proof fn drivers_are_answered_so(v: ConsoleView, request: ControlRequest, i: int)
    ensures
        ({
            let answer = v.answer(request);
            match request.command {
                None => answer.len() == 0,
                Some(command) => {
                    let port = command.id;
                    let named = v.names[port as int].len() > 0;
                    &&& command.event == 0 ==> {
                        &&& answer.len() == v.names.len()
                        &&& 0 <= i < v.names.len() ==> answer[i] == MessageView::PortAdd(i as u32)
                    }
                    &&& command.event == 3 && command.value == 1 ==> {
                        &&& request.window is None ==> {
                            &&& answer.len() == (if named { 2int } else { 1 })
                            &&& answer[0] == (MessageView::PortOpen { port, open: true })
                        }
                        &&& request.window matches Some((cols, rows)) ==> {
                            &&& answer.len() == (if named { 4int } else { 3 })
                            &&& answer[0] == MessageView::ConsolePort(port)
                            &&& answer[1] == (MessageView::PortOpen { port, open: true })
                            &&& answer[2] == (MessageView::Resize { port, cols, rows })
                        }
                        &&& named ==> answer.last() == (MessageView::PortName { port, name: v.names[port as int] })
                    }
                    &&& command.event != 0 && !(command.event == 3 && command.value == 1) ==> answer.len() == 0
                },
            }
        }),
{
}

/// Commands are answered one after another: the answer to each stands after those to the ones before it.
pub proof fn answers_follow_the_requests(v: ConsoleView, requests: Seq<ControlRequest>, n: int, i: int)
    requires
        0 <= i < n <= requests.len(),
    ensures
        ({
            let from = v.answers(requests, i).len() as int;
            let to = from + v.answer(requests[i]).len();
            &&& to <= v.answers(requests, n).len()
            &&& v.answers(requests, n).subrange(from, to) == v.answer(requests[i])
            &&& n == i + 1 ==> v.answers(requests, n).len() == to
            &&& i == 0 ==> from == 0
        }),
    decreases n - i,
{
    let from = v.answers(requests, i).len() as int;
    let to = from + v.answer(requests[i]).len();
    if i < n - 1 {
        answers_follow_the_requests(v, requests, n - 1, i);
        assert(v.answers(requests, n).subrange(from, to) =~= v.answers(requests, n - 1).subrange(from, to));
    } else {
        assert(v.answers(requests, n).subrange(from, to) =~= v.answer(requests[i]));
    }
}

/// Whether a command says that a port was opened.
pub open spec fn says_opened(request: ControlRequest, port: usize) -> bool {
    request.command matches Some(command) && command.event == 6 && command.value == 1 && command.id as usize == port
}

/// A port is started by commands if and only if one of them says that it was opened.
pub proof fn ports_start_when_they_are_opened(requests: Seq<ControlRequest>, n: int, port: usize)
    requires
        0 <= n <= requests.len(),
    ensures
        opened_ports(requests, n).contains(port) <==> exists|i: int|
            0 <= i < n && says_opened(#[trigger] requests[i], port),
        opened_ports(requests, n).len() <= n,
    decreases n,
{
    if n > 0 {
        ports_start_when_they_are_opened(requests, n - 1, port);
        let before = opened_ports(requests, n - 1);
        let after = opened_ports(requests, n);
        if before.contains(port) {
            let k = choose|k: int| 0 <= k < before.len() && before[k] == port;
            assert(after[k] == port);
            let i = choose|i: int|
                0 <= i < n - 1 && says_opened(#[trigger] requests[i], port);
            assert(says_opened(requests[i], port));
        }
        if opens_port(requests[n - 1]) && requests[n - 1].command->0.id as usize == port {
            assert(after[before.len() as int] == port);
            assert(says_opened(requests[n - 1], port));
        }
        if after.contains(port) && !before.contains(port) {
            let k = choose|k: int| 0 <= k < after.len() && after[k] == port;
            if k < before.len() {
                assert(before[k] == port);
            }
        }
    }
}

/// The ports that run are those that are active, in order.
pub proof fn active_ports_run(active: Seq<bool>, n: int, port: usize, i: int, j: int)
    requires
        0 <= n <= active.len() <= usize::MAX,
    ensures
        running_ports(active, n).contains(port) <==> port < n && active[port as int],
        0 <= i < j < running_ports(active, n).len() ==> running_ports(active, n)[i] < running_ports(active, n)[j] < n,
    decreases n,
{
    if n > 0 {
        active_ports_run(active, n - 1, port, i, j);
        let before = running_ports(active, n - 1);
        if 0 <= i < before.len() {
            active_ports_run(active, n - 1, before[i], i, j);
            assert(before.contains(before[i]));
        }
        let after = running_ports(active, n);
        if before.contains(port) {
            let k = choose|k: int| 0 <= k < before.len() && before[k] == port;
            assert(after[k] == port);
        }
        if active[n - 1] && port == n - 1 {
            assert(after[before.len() as int] == port);
        }
        if after.contains(port) && !before.contains(port) {
            let k = choose|k: int| 0 <= k < after.len() && after[k] == port;
            if k < before.len() {
                assert(before[k] == port);
            }
        }
    }
}

/// What is saved of a console is what it has, field for field, and what is restored is what was saved:
/// features, window, ports and messages; names and queues are the new device's own.
pub proof fn console_fields_are_saved(v: ConsoleView, control: Seq<Seq<u8>>, body: ConsoleBodyView, i: int)
    ensures
        ({
            let saved = v.body(control);
            &&& saved.acked_features == v.acked_features
            &&& saved.cols == v.config.cols && saved.rows == v.config.rows
            &&& saved.max_nr_ports == v.config.max_nr_ports && saved.emerg_wr == v.config.emerg_wr
            &&& saved.control_queue == control
            &&& saved.active_ports == v.active_ports
        }),
        ({
            let now = v.with_body(body);
            &&& now.acked_features == body.acked_features
            &&& now.config.cols == body.cols && now.config.rows == body.rows
            &&& now.config.max_nr_ports == body.max_nr_ports && now.config.emerg_wr == body.emerg_wr
            &&& now.active_ports == body.active_ports
            &&& now.control.len() == body.control_queue.len()
            &&& 0 <= i < body.control_queue.len() ==> now.control[i] == MessageView::Saved(body.control_queue[i])
            &&& now.names == v.names && now.queues == v.queues && now.activated == v.activated
        }),
{
}

/// The queues that come first without a gap are counted, up to the first that is missing.
pub proof fn leading_queues_have_no_gap(v: ConsoleView, n: int, i: int)
    requires
        0 <= n <= v.queues.len(),
    ensures
        0 <= v.leading_queues(n) <= n,
        0 <= i < v.leading_queues(n) ==> v.queues[i],
        v.leading_queues(n) < n ==> !v.queues[v.leading_queues(n)],
    decreases n,
{
    if n > 0 {
        leading_queues_have_no_gap(v, n - 1, i);
    }
}

/// A port that is started has neither of its queues left and is active; one that is stopped gets back the
/// queues that were given back, and stays active, so that it is started again.
pub proof fn ports_take_and_give_their_queues(v: ConsoleView, port: int, given: (bool, bool), other: int)
    requires
        0 <= port < v.names.len(),
        0 <= other < v.names.len(),
        other != port,
        v.active_ports.len() == v.names.len(),
        v.queues.len() == 2 + 2 * v.names.len(),
    ensures
        ({
            let rx = queue_index(QueueDirection::Rx, port);
            let tx = queue_index(QueueDirection::Tx, port);
            let started = v.started(port);
            let stopped = v.stopped(port, Some(given));
            &&& !started.queues[rx] && !started.queues[tx] && started.active_ports[port]
            &&& stopped.queues[rx] == (given.0 || v.queues[rx]) && stopped.queues[tx] == (given.1 || v.queues[tx])
            &&& stopped.active_ports[port]
            &&& v.stopped(port, None) == v
            &&& started.queues[queue_index(QueueDirection::Rx, other)] == v.queues[queue_index(QueueDirection::Rx, other)]
            &&& started.queues[queue_index(QueueDirection::Tx, other)] == v.queues[queue_index(QueueDirection::Tx, other)]
            &&& stopped.queues[queue_index(QueueDirection::Rx, other)] == v.queues[queue_index(QueueDirection::Rx, other)]
            &&& stopped.queues[queue_index(QueueDirection::Tx, other)] == v.queues[queue_index(QueueDirection::Tx, other)]
            &&& started.active_ports[other] == v.active_ports[other] && stopped.active_ports[other] == v.active_ports[other]
            &&& started.control == v.control && stopped.control == v.control
        }),
{
}

/// A descriptor that was filled is used with the length of header and contents together, one that cannot
/// be used is returned empty, and one for which nothing is there, or whose packet cannot be taken now, is
/// put back.
pub proof fn descriptors_are_used_so(header: u32, len: u32)
    requires
        header + len <= u32::MAX,
    ensures
        rx_action(RxOutcome::Filled { header, len }) matches QueueAction::AddUsed(used) && used == header + len,
        rx_action(RxOutcome::NothingPending) == QueueAction::UndoPop,
        rx_action(RxOutcome::Malformed) == QueueAction::AddUsed(0),
        tx_action(TxOutcome::Sent) == QueueAction::AddUsed(0),
        tx_action(TxOutcome::Busy) == QueueAction::UndoPop,
        tx_action(TxOutcome::Malformed) == QueueAction::AddUsed(0),
{
}

/// The guest is told that connections are gone with a descriptor that it can be written to and that holds
/// four bytes at least: the event is written, then the descriptor used. Where nothing is there for it,
/// nothing is written; where writing fails, the descriptor is put back.
pub proof fn the_guest_is_told_so(head: EventHead, ok: bool)
    ensures
        reset_popped(None) == ResetStage::NotWritten,
        head.write_only && head.len >= 4 ==> reset_popped(Some(head)) == ResetStage::WriteEvent,
        !head.write_only || head.len < 4 ==> reset_popped(Some(head)) == ResetStage::ReturnMalformed,
        reset_after(ResetStage::WriteEvent, true) == ResetStage::AddUsed,
        reset_after(ResetStage::WriteEvent, false) == ResetStage::UndoPop,
        reset_after(ResetStage::AddUsed, true) == ResetStage::Wrote,
        reset_after(ResetStage::AddUsed, false) == ResetStage::Failed,
        reset_after(ResetStage::UndoPop, ok) == ResetStage::Failed,
        reset_after(ResetStage::ReturnMalformed, ok) == ResetStage::Wrote,
{
}

/// A console takes up a saved state if and only if it has as many ports as were saved; it is ready again
/// if and only if it then has all its queues. A state that is refused leaves it as it was.
pub proof fn consoles_are_restored_only_so(before: ConsoleView, body: ConsoleBodyView, after: ConsoleView, restore: ConsoleRestore)
    requires
        body_restored(before, body, after, restore),
    ensures
        body.max_nr_ports == before.config.max_nr_ports && body.active_ports.len() == before.names.len() ==> {
            &&& after == before.with_body(body)
            &&& restore.outcome is Ok <==> forall|i: int| 0 <= i < before.queues.len() ==> #[trigger] before.queues[i]
        },
        body.max_nr_ports != before.config.max_nr_ports || body.active_ports.len() != before.names.len() ==> {
            &&& after == before
            &&& restore.outcome is Err
            &&& restore.queues == 0
        },
{
    let n = before.queues.len() as int;
    leading_queues_have_no_gap(before, n, 0);
    assert forall|i: int| 0 <= i < before.leading_queues(n) implies #[trigger] before.queues[i] by {
        leading_queues_have_no_gap(before, n, i);
    }
}

/// A port has its queues if and only if it is one of the console's ports and both of them are there.
pub proof fn ports_have_two_queues(v: ConsoleView, port: int)
    ensures
        v.has_queues(port) <==> {
            let rx = queue_index(QueueDirection::Rx, port);
            &&& 0 <= port < v.names.len()
            &&& rx + 1 < v.queues.len()
            &&& v.queues[rx]
            &&& v.queues[rx + 1]
        },
{
}

/// Starting ports one after another starts each of them and no other.
pub proof fn all_named_ports_start(v: ConsoleView, ports: Seq<usize>, n: int, port: usize)
    requires
        0 <= n <= ports.len(),
        port < v.names.len(),
        forall|k: int| 0 <= k < ports.len() ==> #[trigger] ports[k] < v.names.len(),
        v.active_ports.len() == v.names.len(),
        v.queues.len() == 2 + 2 * v.names.len(),
    ensures
        ({
            let w = v.all_started(ports, n);
            let rx = queue_index(QueueDirection::Rx, port as int);
            &&& w.active_ports.len() == v.active_ports.len() && w.queues.len() == v.queues.len()
            &&& (exists|k: int| 0 <= k < n && ports[k] == port) ==> w.active_ports[port as int] && !w.queues[rx] && !w.queues[rx + 1]
            &&& (forall|k: int| 0 <= k < n ==> ports[k] != port) ==> {
                &&& w.active_ports[port as int] == v.active_ports[port as int]
                &&& w.queues[rx] == v.queues[rx] && w.queues[rx + 1] == v.queues[rx + 1]
            }
            &&& w.names == v.names && w.control == v.control && w.config == v.config
        }),
    decreases n,
{
    if n > 0 {
        all_named_ports_start(v, ports, n - 1, port);
        let last = ports[n - 1];
        if last != port && exists|k: int| 0 <= k < n && ports[k] == port {
            let k = choose|k: int| 0 <= k < n && ports[k] == port;
            assert(0 <= k < n - 1);
        }
        if forall|k: int| 0 <= k < n ==> ports[k] != port {
            assert(ports[n - 1] != port);
        }
    }
}

/// A vsock device takes up a saved state if and only if it has the address that was saved. Its guest is
/// then told that connections are gone if the device was running or packets were pending.
pub proof fn vsocks_are_restored_only_so(
    before: VsockView,
    head: (u64, u64),
    tail: (Seq<(u32, u32)>, bool),
    after: VsockView,
    r: Result<VsockRestore, DeviceSnapshotError>,
)
    requires
        vsock_restored(before, head, tail, after, r),
    ensures
        r is Ok <==> head.0 == before.cid,
        r is Err ==> after == before,
        r matches Ok(restore) ==> {
            &&& after.acked_features == head.1
            &&& after.cid == before.cid && after.has_queues == before.has_queues && after.activated == before.activated
            &&& restore.resets() <==> tail.1 || tail.0.len() > 0
        },
{
}

/// A walk over a queue ends where a descriptor is put back, and waits for one to be used before it goes on.
pub proof fn walks_end_where_nothing_is_taken(walk: QueueWalk, action: QueueAction, after: QueueWalk)
    requires
        walk.moved(action, after),
    ensures
        after.ended() <==> action is UndoPop,
        after.awaits() <==> action is AddUsed,
        after.used() == walk.used(),
{
}

/// A buffer gets the bytes of the configuration from the offset on, as far as there are any; the rest of
/// it, and one that begins past the configuration, stays as it is.
pub proof fn configuration_is_read_from_the_offset(config: ConfigView, offset: u64, data: Seq<u8>, i: int)
    requires
        0 <= i < data.len(),
        offset + data.len() <= u64::MAX,
    ensures
        config.read(offset, data).len() == data.len(),
        config.read(offset, data)[i] == (if offset + i < 12 {
            config.bytes()[offset + i]
        } else {
            data[i]
        }),
{
    configuration_is_laid_out_so(config);
}

/// The address of a vsock device can be read whole, or its lower and its upper half; each reads as the
/// number that it is. Nothing else is read.
pub proof fn addresses_are_read_whole_or_by_halves(cid: u64, offset: u64, data: Seq<u8>)
    ensures
        offset == 0 && data.len() == 8 ==> spec_u64_from_le_bytes(address_read(cid, offset, data)) == cid,
        offset == 0 && data.len() == 4 ==> spec_u32_from_le_bytes(address_read(cid, offset, data)) as int == cid as int % 0x1_0000_0000,
        offset == 4 && data.len() == 4 ==> spec_u32_from_le_bytes(address_read(cid, offset, data)) as int == cid as int / 0x1_0000_0000,
        !(offset == 0 && data.len() == 8 || offset == 0 && data.len() == 4 || offset == 4 && data.len() == 4) ==> address_read(cid, offset, data) == data,
        address_read(cid, offset, data).len() == data.len(),
{
    lemma_auto_spec_u32_to_from_le_bytes();
    lemma_auto_spec_u64_to_from_le_bytes();
    let low = (cid % 0x1_0000_0000) as u32;
    let high = (cid / 0x1_0000_0000) as u32;
    assert(vstd::bytes::spec_u32_to_le_bytes(low).len() == 4);
    assert(vstd::bytes::spec_u32_to_le_bytes(high).len() == 4);
}

/// A device's requests are dealt with only once it is active; before that only activation is answered,
/// and activation always is.
pub proof fn requests_wait_for_activation(source: i32, activate: i32, activated: bool, request_queue: i32)
    ensures
        event_action(source, activate, activated, request_queue) is Activate <==> source == activate,
        event_action(source, activate, activated, request_queue) is Requests <==> activated && source == request_queue && source != activate,
        event_action(source, activate, activated, request_queue) is Spurious <==> !activated && source != activate,
{
}

/// Requests are dealt with only after their notification was taken, and the guest is interrupted only
/// after one of them was answered.
pub proof fn guests_are_interrupted_for_answers(stage: RequestStage, ok: bool)
    ensures
        request_next(stage, ok) is ProcessRequests <==> stage is ReadEvent && ok,
        request_next(stage, ok) is Signal <==> stage is ProcessRequests && ok,
        !(request_next(stage, ok) is ReadEvent),
{
}

/// Messages go to the driver in the order in which they came, each once; a descriptor is put back only
/// where none is left.
pub proof fn messages_leave_in_order(before: ConsoleView, action: ControlRx, after: ConsoleView, i: int)
    requires
        message_taken(before, action, after),
    ensures
        action is PutBack <==> before.control.len() == 0,
        action matches ControlRx::Write(message) ==> {
            &&& message@ == before.control[0]
            &&& after.control.len() == before.control.len() - 1
            &&& 0 <= i < after.control.len() ==> after.control[i] == before.control[i + 1]
        },
        action is PutBack ==> after == before,
        after.queues == before.queues && after.active_ports == before.active_ports && after.config == before.config && after.names == before.names,
{
}

/// A guest is told that connections are gone only if they are, and only while the device runs.
pub proof fn guests_are_told_only_while_running(vsock: VsockView)
    ensures
        reset_first(vsock) is Pop <==> vsock.pending_transport_reset && vsock.activated && vsock.has_queues,
        reset_first(vsock) is Pop || reset_first(vsock) is NotWritten,
{
}

} // verus!
