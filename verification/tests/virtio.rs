use minidox::virtio::codec::ConsoleBody;
use minidox::virtio::console::{
    num_queues, port_id_to_queue_idx, Console, ControlCommand, ControlMessage, ControlRequest,
    ControlRx, QueueDirection, VirtioConsoleConfig,
};
use minidox::virtio::pmem::{process, PmemAction, RequestStage};
use minidox::virtio::snapshot::{ActivateError, DeviceSnapshot, DeviceSnapshotError};
use minidox::virtio::vsock::{
    send_path, EventHead, QueueAction, ResetStage, RxOutcome, SendPath, TxOutcome, Vsock,
};

fn names(names: &[&str]) -> Vec<String> {
    names.iter().map(|name| name.to_string()).collect()
}

fn command(id: u32, event: u16, value: u16) -> ControlRequest {
    ControlRequest {
        command: Some(ControlCommand { id, event, value }),
        window: None,
    }
}

fn active_console() -> Console {
    let mut console = Console::new(names(&["", "agent"]), Some((80, 25)));
    console.activate(true, num_queues(2)).unwrap();
    console
}

#[test]
fn config_space_of_a_console() {
    let config = VirtioConsoleConfig::new(80, 25, 3);
    assert_eq!(config.bytes(), [80, 0, 25, 0, 3, 0, 0, 0, 0, 0, 0, 0]);

    let console = Console::new(names(&["a", "b"]), Some((0x0150, 25)));
    let mut data = [9; 4];
    console.read_config(0, &mut data);
    assert_eq!(data, [0x50, 0x01, 25, 0]);
    let mut data = [9; 4];
    console.read_config(10, &mut data);
    assert_eq!(data, [0, 0, 9, 9]);
    let mut data = [9; 4];
    console.read_config(12, &mut data);
    assert_eq!(data, [9; 4]);
    console.read_config(u64::MAX, &mut data);
    assert_eq!(data, [9; 4]);
}

#[test]
fn queues_of_console_ports() {
    assert_eq!(port_id_to_queue_idx(QueueDirection::Rx, 0), 0);
    assert_eq!(port_id_to_queue_idx(QueueDirection::Tx, 0), 1);
    assert_eq!(port_id_to_queue_idx(QueueDirection::Rx, 1), 4);
    assert_eq!(port_id_to_queue_idx(QueueDirection::Tx, 1), 5);
    assert_eq!(port_id_to_queue_idx(QueueDirection::Tx, 2), 7);
    assert_eq!(num_queues(2), 6);
}

#[test]
fn guest_driver_is_told_of_its_ports() {
    let mut console = active_console();
    let mut terminal = command(0, 3, 1);
    terminal.window = Some((120, 40));
    let unreadable = ControlRequest {
        command: None,
        window: None,
    };
    let requests = vec![command(0, 0, 1), unreadable, terminal, command(1, 3, 1)];
    let outcome = console.process_control_tx(&requests);
    assert!(outcome.raise_irq);
    assert_eq!(outcome.used, vec![Some(8), None, Some(8), Some(8)]);
    assert!(outcome.start.is_empty());

    let mut told = Vec::new();
    while let ControlRx::Write(message) = console.process_control_rx() {
        told.push(message);
    }
    assert_eq!(told.len(), 7);
    assert!(matches!(told[0], ControlMessage::PortAdd(0)));
    assert!(matches!(told[1], ControlMessage::PortAdd(1)));
    assert!(matches!(told[2], ControlMessage::ConsolePort(0)));
    assert!(matches!(
        told[3],
        ControlMessage::PortOpen {
            port: 0,
            open: true
        }
    ));
    assert!(matches!(
        told[4],
        ControlMessage::Resize {
            port: 0,
            cols: 120,
            rows: 40
        }
    ));
    assert!(matches!(
        told[5],
        ControlMessage::PortOpen {
            port: 1,
            open: true
        }
    ));
    assert!(matches!(&told[6], ControlMessage::PortName { port: 1, name } if name == "agent"));
}

#[test]
fn opened_port_starts_and_refused_ones_do_not() {
    let mut console = active_console();
    let requests = vec![
        command(1, 3, 0),
        command(0, 6, 0),
        command(0, 6, 2),
        command(1, 6, 1),
        command(0, 99, 1),
    ];
    let outcome = console.process_control_tx(&requests);
    assert_eq!(outcome.start, vec![1]);
    assert_eq!(console.active_ports(), &vec![false, true]);
    assert!(matches!(console.process_control_rx(), ControlRx::PutBack));
    let outcome = console.process_control_tx(&Vec::new());
    assert!(!outcome.raise_irq);
}

#[test]
fn resumed_console_starts_the_ports_that_ran() {
    let mut console = active_console();
    console.process_control_tx(&vec![command(1, 6, 1)]);
    assert!(matches!(
        console.serialize_state(vec![0; 6], Vec::new()),
        Err(DeviceSnapshotError::Invalid(reason)) if reason == "console port still active"
    ));
    console.pause(&vec![None, Some((true, true))]);
    assert!(console.serialize_state(vec![0; 6], Vec::new()).is_ok());
    assert_eq!(console.resume(), vec![1]);

    assert!(console.reset());
    assert!(!console.is_activated());
    assert!(console.resume().is_empty());
    assert_eq!(console.active_ports(), &vec![false, false]);
    assert_eq!(
        console.activate(false, 6),
        Err(ActivateError::BadActivate)
    );
}

fn saved_console() -> DeviceSnapshot<u8> {
    let mut console = active_console();
    console.set_acked_features(0x1_0000_0001);
    console.process_control_tx(&vec![command(0, 6, 1)]);
    console.pause(&vec![Some((true, true)), None]);
    console.update_console_size(0, 100, 50);
    console
        .serialize_state(vec![1, 2, 3, 4, 5, 6], vec![b"resize".to_vec()])
        .unwrap()
}

#[test]
fn console_state_has_the_bincode_form() {
    let snapshot = saved_console();
    assert_eq!(snapshot.queues, vec![1, 2, 3, 4, 5, 6]);
    let mut expected: Vec<u8> = 0x1_0000_0001_u64.to_le_bytes().to_vec();
    expected.extend([80, 0, 25, 0, 2, 0, 0, 0, 0, 0, 0, 0]);
    expected.extend(1_u64.to_le_bytes());
    expected.extend(6_u64.to_le_bytes());
    expected.extend(b"resize");
    expected.extend(2_u64.to_le_bytes());
    expected.extend([1, 0]);
    assert_eq!(snapshot.payload, expected);
}

#[test]
fn console_state_reads_back() {
    let mut snapshot = saved_console();
    snapshot.payload.push(77);
    let mut console = active_console();
    let restore = console.restore_state(&vec![None, None], &snapshot);
    assert!(restore.outcome.is_ok());
    assert_eq!(restore.queues, 6);
    assert_eq!(console.acked_features(), 0x1_0000_0001);
    assert_eq!(console.active_ports(), &vec![true, false]);
    assert!(
        matches!(console.process_control_rx(), ControlRx::Write(ControlMessage::Saved(bytes)) if bytes == b"resize")
    );
    assert_eq!(console.resume(), vec![0]);
}

#[test]
fn console_state_that_does_not_fit_is_refused() {
    let none = vec![None, None];
    let mut console = active_console();
    let mut snapshot = saved_console();
    snapshot.queues.pop();
    let restore = console.restore_state(&none, &snapshot);
    assert!(
        matches!(&restore.outcome, Err(DeviceSnapshotError::Invalid(reason)) if reason == "console: expected 6 queues, got 5")
    );

    let mut snapshot = saved_console();
    snapshot.payload.truncate(30);
    let restore = console.restore_state(&none, &snapshot);
    assert!(matches!(restore.outcome, Err(DeviceSnapshotError::Codec(_))));

    let mut snapshot = saved_console();
    let last = snapshot.payload.len() - 1;
    snapshot.payload[last] = 2;
    let restore = console.restore_state(&none, &snapshot);
    assert!(matches!(restore.outcome, Err(DeviceSnapshotError::Codec(_))));

    let body = |ports: u32, active: usize| ConsoleBody {
        acked_features: 0,
        cols: 0,
        rows: 0,
        max_nr_ports: ports,
        emerg_wr: 0,
        control_queue: Vec::new(),
        active_ports: vec![false; active],
    };
    let restore = console.restore_body(body(3, 2));
    assert!(
        matches!(&restore.outcome, Err(DeviceSnapshotError::Invalid(reason)) if reason == "console port count mismatch")
    );
    let restore = console.restore_body(body(2, 1));
    assert!(
        matches!(&restore.outcome, Err(DeviceSnapshotError::Invalid(reason)) if reason == "console active port count mismatch")
    );

    console.process_control_tx(&vec![command(1, 6, 1)]);
    let restore = console.restore_body(body(2, 2));
    assert_eq!(restore.queues, 4);
    assert!(
        matches!(&restore.outcome, Err(DeviceSnapshotError::Invalid(reason)) if reason == "console queue missing")
    );
}

fn active_vsock(cid: u64) -> Vsock {
    let mut vsock = Vsock::new(cid);
    vsock.activate(3, true).unwrap();
    vsock
}

#[test]
fn config_space_of_a_vsock_device() {
    let vsock = Vsock::new(0x1122_3344_5566_7788);
    let mut whole = [0; 8];
    vsock.read_config(0, &mut whole);
    assert_eq!(whole, [0x88, 0x77, 0x66, 0x55, 0x44, 0x33, 0x22, 0x11]);
    let mut half = [0; 4];
    vsock.read_config(0, &mut half);
    assert_eq!(half, [0x88, 0x77, 0x66, 0x55]);
    vsock.read_config(4, &mut half);
    assert_eq!(half, [0x44, 0x33, 0x22, 0x11]);
    let mut odd = [9; 3];
    vsock.read_config(0, &mut odd);
    assert_eq!(odd, [9; 3]);
}

#[test]
fn vsock_device_needs_three_queues() {
    let mut vsock = Vsock::new(3);
    assert_eq!(vsock.activate(2, true), Err(ActivateError::BadActivate));
    assert_eq!(vsock.activate(3, false), Err(ActivateError::BadActivate));
    assert!(!vsock.is_activated());
    assert!(matches!(
        vsock.serialize_state::<u8>(Vec::new(), Vec::new()),
        Err(DeviceSnapshotError::Invalid(reason)) if reason == "vsock not activated"
    ));
    vsock.activate(3, true).unwrap();
    assert!(vsock.is_activated());
}

#[test]
fn received_packets_fill_descriptors() {
    let vsock = active_vsock(3);
    let mut walk = vsock.process_stream_rx();
    assert!(!walk.have_used());
    assert_eq!(
        walk.received(RxOutcome::Filled {
            header: 44,
            len: 100
        }),
        QueueAction::AddUsed(144)
    );
    walk.added(false);
    assert!(!walk.have_used());
    assert_eq!(
        walk.received(RxOutcome::Malformed),
        QueueAction::AddUsed(0)
    );
    assert!(!walk.have_used());
    walk.added(true);
    assert_eq!(
        walk.received(RxOutcome::NothingPending),
        QueueAction::UndoPop
    );
    assert!(walk.is_over());
    assert!(walk.have_used());
}

#[test]
fn packet_that_cannot_be_sent_is_put_back() {
    let vsock = active_vsock(3);
    let mut walk = vsock.process_stream_tx();
    assert_eq!(walk.transmitted(TxOutcome::Busy), QueueAction::UndoPop);
    assert!(walk.is_over());
    assert!(!walk.have_used());
    let mut walk = vsock.process_stream_tx();
    assert_eq!(
        walk.transmitted(TxOutcome::Malformed),
        QueueAction::AddUsed(0)
    );
    walk.added(true);
    assert_eq!(walk.transmitted(TxOutcome::Sent), QueueAction::AddUsed(0));
    walk.added(false);
    assert!(!walk.is_over());
    assert!(walk.have_used());
    assert_eq!(send_path(3, 3), SendPath::Datagram);
    assert_eq!(send_path(1, 3), SendPath::Stream);
}

#[test]
fn restored_vsock_device_tells_of_lost_connections_once() {
    let mut saved = active_vsock(7);
    saved.set_acked_features(5);
    let snapshot = saved
        .serialize_state(vec!["rx", "tx", "ev"], b"listeners".to_vec())
        .unwrap();
    let mut expected: Vec<u8> = 7_u64.to_le_bytes().to_vec();
    expected.extend(5_u64.to_le_bytes());
    expected.extend(b"listeners");
    expected.extend([0; 8]);
    expected.push(1);
    assert_eq!(snapshot.payload, expected);

    let mut vsock = active_vsock(7);
    let restore = vsock.restore_state(&snapshot, Ok(9)).unwrap();
    assert_eq!(vsock.acked_features(), 5);
    vsock.restored(restore, Ok(()), Ok(())).unwrap();
    assert!(vsock.pending_transport_reset());

    let stage = vsock.process_transport_reset_event();
    assert_eq!(stage, ResetStage::Pop);
    let stage = stage.popped(None);
    assert!(!vsock.transport_reset_done(stage));
    assert!(vsock.pending_transport_reset());

    let head = EventHead {
        write_only: true,
        len: 8,
    };
    let stage = ResetStage::Pop.popped(Some(head));
    assert_eq!(stage, ResetStage::WriteEvent);
    assert_eq!(ResetStage::event(), [0; 4]);
    assert_eq!(stage.after(false), ResetStage::UndoPop);
    assert_eq!(ResetStage::UndoPop.after(true), ResetStage::Failed);
    let stage = stage.after(true);
    assert_eq!(stage, ResetStage::AddUsed);
    assert_eq!(stage.after(false), ResetStage::Failed);
    assert!(vsock.transport_reset_done(stage.after(true)));
    assert!(!vsock.pending_transport_reset());
    assert_eq!(
        vsock.process_transport_reset_event(),
        ResetStage::NotWritten
    );

    let short = EventHead {
        write_only: true,
        len: 3,
    };
    assert_eq!(
        ResetStage::Pop.popped(Some(short)),
        ResetStage::ReturnMalformed
    );
    assert_eq!(ResetStage::ReturnMalformed.after(false), ResetStage::Wrote);
}

#[test]
fn vsock_state_that_does_not_fit_is_refused() {
    let snapshot = active_vsock(7)
        .serialize_state(vec![0, 0, 0], Vec::new())
        .unwrap();
    let mut other = active_vsock(70);
    assert!(
        matches!(other.restore_state(&snapshot, Ok(0)), Err(DeviceSnapshotError::Invalid(reason))
            if reason == "vsock cid mismatch: snapshot=7 current=70")
    );
    let mut vsock = active_vsock(7);
    assert!(matches!(
        vsock.restore_state(&snapshot, Err("bad listeners".to_string())),
        Err(DeviceSnapshotError::Codec(reason)) if reason == "bad listeners"
    ));
    let short = DeviceSnapshot {
        queues: vec![0, 0, 0],
        payload: snapshot.payload[..20].to_vec(),
    };
    assert!(matches!(
        vsock.restore_state(&short, Ok(0)),
        Err(DeviceSnapshotError::Codec(_))
    ));
    let few = DeviceSnapshot {
        queues: vec![0],
        payload: snapshot.payload.clone(),
    };
    assert!(matches!(
        vsock.restore_state(&few, Ok(0)),
        Err(DeviceSnapshotError::Invalid(reason)) if reason == "vsock: expected 3 queues, got 1"
    ));
    let restore = vsock.restore_state(&snapshot, Ok(0)).unwrap();
    assert!(matches!(
        vsock.restored(restore, Ok(()), Err("port taken".to_string())),
        Err(DeviceSnapshotError::Invalid(reason)) if reason == "port taken"
    ));
    assert!(!vsock.pending_transport_reset());
}

#[test]
fn old_stream_resets_count_as_a_transport_reset() {
    let mut vsock = active_vsock(7);
    let restore = vsock
        .restore_body((7, 0), (vec![(1, 2)], false))
        .unwrap();
    vsock.restored(restore, Ok(()), Ok(())).unwrap();
    assert!(vsock.pending_transport_reset());
    let restore = vsock.restore_body((7, 0), (Vec::new(), false)).unwrap();
    vsock.restored(restore, Ok(()), Ok(())).unwrap();
    assert!(!vsock.pending_transport_reset());
}

#[test]
fn resumed_vsock_device_interrupts_if_anything_was_used() {
    let vsock = active_vsock(7);
    assert!(!vsock.resume(false, false, None));
    assert!(!vsock.resume(false, false, Some(false)));
    assert!(vsock.resume(true, false, None));
    assert!(vsock.resume(false, true, None));
    assert!(vsock.resume(false, false, Some(true)));
}

#[test]
fn snapshot_error_texts() {
    let text = |error: DeviceSnapshotError| error.message();
    assert_eq!(
        text(DeviceSnapshotError::Unsupported("gpu".to_string())),
        "device gpu does not support snapshot"
    );
    assert_eq!(text(DeviceSnapshotError::Refused("busy".to_string())), "busy");
    assert_eq!(
        text(DeviceSnapshotError::Codec("eof".to_string())),
        "device snapshot codec error: eof"
    );
    assert_eq!(
        text(DeviceSnapshotError::Invalid("odd".to_string())),
        "device snapshot invalid: odd"
    );
}

#[test]
fn persistent_memory_events() {
    assert_eq!(process(4, 4, false, 9), PmemAction::Activate);
    assert_eq!(process(9, 4, false, 9), PmemAction::Spurious);
    assert_eq!(process(9, 4, true, 9), PmemAction::Requests);
    assert_eq!(process(5, 4, true, 9), PmemAction::Unexpected);
    assert_eq!(RequestStage::handle_req_event(false), RequestStage::Done);
    let stage = RequestStage::handle_req_event(true);
    assert_eq!(stage, RequestStage::ReadEvent);
    assert_eq!(stage.next(false), RequestStage::Done);
    let stage = stage.next(true);
    assert_eq!(stage, RequestStage::ProcessRequests);
    assert_eq!(stage.next(true), RequestStage::Signal);
    assert_eq!(stage.next(false), RequestStage::Done);
}

#[test]
fn control_command_is_read_from_its_bytes() {
    let bytes = [2, 1, 0, 0, 6, 0, 1, 0];
    assert_eq!(
        ControlCommand::decode(&bytes),
        Some(ControlCommand {
            id: 258,
            event: 6,
            value: 1,
        })
    );
    assert_eq!(ControlCommand::decode(&bytes[..7]), None);
}
