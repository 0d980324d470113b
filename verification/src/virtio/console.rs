//! The multiport console device.

use vstd::bytes::{
    spec_u16_to_le_bytes, spec_u32_to_le_bytes, u16_from_le_bytes, u16_to_le_bytes, u32_from_le_bytes, u32_to_le_bytes,
};
#[allow(unused_imports)]
use vstd::bytes::{lemma_auto_spec_u16_to_from_le_bytes, lemma_auto_spec_u32_to_from_le_bytes};
use vstd::prelude::*;
use vstd::slice::slice_subrange;
use vstd::string::StringExecFns;

use crate::bytes::lay_over_slice;
#[allow(unused_imports)]
use crate::bytes::laid_over;
#[allow(unused_imports)]
use crate::ordered::{among, lemma_among};
use crate::text::append_decimal;
#[allow(unused_imports)]
use crate::text::decimal;
use crate::virtio::codec::{deserialize_console, serialize_console, ConsoleBody};
#[allow(unused_imports)]
use crate::virtio::codec::{begins_with, encoded_console, refusal, ConsoleBodyView, CONSOLE_RECORD};
use crate::virtio::snapshot::{ActivateError, DeviceSnapshot, DeviceSnapshotError};
#[allow(unused_imports)]
use crate::virtio::snapshot::is_invalid;

verus! {

pub const CONTROL_RXQ_INDEX: usize = 2;

pub const CONTROL_TXQ_INDEX: usize = 3;

/// The size of a control command in bytes.
pub const CONTROL_SIZE: u32 = 8;

pub const VIRTIO_CONSOLE_DEVICE_READY: u16 = 0;

pub const VIRTIO_CONSOLE_PORT_READY: u16 = 3;

pub const VIRTIO_CONSOLE_PORT_OPEN: u16 = 6;

/// Terminal size, several ports, and version 1 of the interface.
pub const AVAIL_FEATURES: u64 = 0x1_0000_0003;

/// The configuration space of a console.
#[derive(Clone, Copy, Debug)]
pub struct VirtioConsoleConfig {
    cols: u16,
    rows: u16,
    max_nr_ports: u32,
    emerg_wr: u32,
}

/// The configuration space of a console.
#[verifier::ext_equal]
pub struct ConfigView {
    pub cols: u16,
    pub rows: u16,
    pub max_nr_ports: u32,
    pub emerg_wr: u32,
}

impl View for VirtioConsoleConfig {
    type V = ConfigView;

    closed spec fn view(&self) -> ConfigView {
        ConfigView { cols: self.cols, rows: self.rows, max_nr_ports: self.max_nr_ports, emerg_wr: self.emerg_wr }
    }
}

impl ConfigView {
    /// The bytes that the guest reads.
    pub open spec fn bytes(self) -> Seq<u8> {
        spec_u16_to_le_bytes(self.cols) + spec_u16_to_le_bytes(self.rows) + spec_u32_to_le_bytes(self.max_nr_ports)
            + spec_u32_to_le_bytes(self.emerg_wr)
    }

    /// What a buffer holds once the configuration was read into it, from an offset on.
    pub open spec fn read(self, offset: u64, data: Seq<u8>) -> Seq<u8> {
        if offset >= 12 || offset + data.len() > u64::MAX {
            data
        } else {
            let end = if offset + data.len() < 12 { offset + data.len() } else { 12 };
            laid_over(data, 0, self.bytes().subrange(offset as int, end))
        }
    }
}

impl VirtioConsoleConfig {
    pub fn new(cols: u16, rows: u16, max_nr_ports: u32) -> (config: Self)
        ensures
            config@ == (ConfigView { cols, rows, max_nr_ports, emerg_wr: 0 }),
    {
        VirtioConsoleConfig { cols, rows, max_nr_ports, emerg_wr: 0 }
    }

    /// The bytes that the guest reads.
    pub fn bytes(&self) -> (bytes: Vec<u8>)
        ensures
            bytes@ == self@.bytes(),
            bytes@.len() == 12,
    {
        proof {
            lemma_auto_spec_u16_to_from_le_bytes();
            lemma_auto_spec_u32_to_from_le_bytes();
        }
        let mut bytes: Vec<u8> = u16_to_le_bytes(self.cols);
        let mut rows: Vec<u8> = u16_to_le_bytes(self.rows);
        let mut ports: Vec<u8> = u32_to_le_bytes(self.max_nr_ports);
        let mut emerg: Vec<u8> = u32_to_le_bytes(self.emerg_wr);
        bytes.append(&mut rows);
        bytes.append(&mut ports);
        bytes.append(&mut emerg);
        bytes
    }
}

/// A message for the guest's driver.
#[derive(Debug)]
pub enum ControlMessage {
    PortAdd(u32),
    ConsolePort(u32),
    PortOpen { port: u32, open: bool },
    Resize { port: u32, cols: u16, rows: u16 },
    PortName { port: u32, name: String },
    /// A message that was read back, in its bytes.
    Saved(Vec<u8>),
}

/// A message for the guest's driver.
pub enum MessageView {
    PortAdd(u32),
    ConsolePort(u32),
    PortOpen { port: u32, open: bool },
    Resize { port: u32, cols: u16, rows: u16 },
    PortName { port: u32, name: Seq<char> },
    Saved(Seq<u8>),
}

impl View for ControlMessage {
    type V = MessageView;

    open spec fn view(&self) -> MessageView {
        match *self {
            ControlMessage::PortAdd(port) => MessageView::PortAdd(port),
            ControlMessage::ConsolePort(port) => MessageView::ConsolePort(port),
            ControlMessage::PortOpen { port, open } => MessageView::PortOpen { port, open },
            ControlMessage::Resize { port, cols, rows } => MessageView::Resize { port, cols, rows },
            ControlMessage::PortName { port, name } => MessageView::PortName { port, name: name@ },
            ControlMessage::Saved(bytes) => MessageView::Saved(bytes@),
        }
    }
}

/// The messages behind a queue of them.
pub open spec fn messages(queue: Seq<ControlMessage>) -> Seq<MessageView> {
    queue.map_values(|message: ControlMessage| message@)
}

/// A command of the guest's driver.
#[derive(Clone, Copy, Debug, Eq, PartialEq, Structural)]
pub struct ControlCommand {
    pub id: u32,
    pub event: u16,
    pub value: u16,
}

/// The bytes of a command.
pub open spec fn encoded_command(command: ControlCommand) -> Seq<u8> {
    spec_u32_to_le_bytes(command.id) + spec_u16_to_le_bytes(command.event) + spec_u16_to_le_bytes(command.value)
}

impl ControlCommand {
    /// The command that the bytes hold, unless they are too few or too many for one.
    pub fn decode(bytes: &[u8]) -> (r: Option<ControlCommand>)
        ensures
            r is Some <==> bytes@.len() == CONTROL_SIZE,
            r matches Some(command) ==> bytes@ == encoded_command(command),
    {
        if bytes.len() != 8 {
            return None;
        }
        proof {
            lemma_auto_spec_u16_to_from_le_bytes();
            lemma_auto_spec_u32_to_from_le_bytes();
        }
        let id: u32 = u32_from_le_bytes(slice_subrange(bytes, 0, 4));
        let event: u16 = u16_from_le_bytes(slice_subrange(bytes, 4, 6));
        let value: u16 = u16_from_le_bytes(slice_subrange(bytes, 6, 8));
        let command = ControlCommand { id, event, value };
        assert(bytes@ =~= encoded_command(command));
        Some(command)
    }
}

/// What one descriptor of the control queue held.
#[derive(Clone, Copy, Debug)]
pub struct ControlRequest {
    /// The command, where it could be read.
    pub command: Option<ControlCommand>,
    /// The size of the terminal behind the port that the command names, where there is one.
    pub window: Option<(u16, u16)>,
}

/// What the commands of the guest's driver come to.
#[derive(Debug)]
pub struct ControlOutcome {
    /// For each descriptor the length to be put on the used ring, where it is to be put there.
    pub used: Vec<Option<u32>>,
    /// The ports to be started, in order.
    pub start: Vec<usize>,
    pub raise_irq: bool,
}

/// Which queue of a port.
#[derive(Clone, Copy, Debug, Eq, PartialEq, Structural)]
pub enum QueueDirection {
    Rx,
    Tx,
}

/// The queue of a port: those of the first port come before the two control queues, those of the
/// others after them.
pub open spec fn queue_index(direction: QueueDirection, port: int) -> int {
    let first = if port == 0 { 0 } else { 2 + 2 * port };
    if direction is Rx { first } else { first + 1 }
}

pub fn port_id_to_queue_idx(direction: QueueDirection, port: usize) -> (index: usize)
    requires
        3 + 2 * port <= usize::MAX,
    ensures
        index == queue_index(direction, port as int),
{
    let first: usize = if port == 0 { 0 } else { 2 + 2 * port };
    match direction {
        QueueDirection::Rx => first,
        QueueDirection::Tx => first + 1,
    }
}

/// Two queues for each port and two for control.
pub fn num_queues(ports: usize) -> (n: usize)
    requires
        2 + 2 * ports <= usize::MAX,
    ensures
        n == 2 + 2 * ports,
{
    2 + 2 * ports
}

/// Different queues of different ports are different, and none is a control queue.
pub proof fn port_queues_are_apart(d: QueueDirection, p: int, e: QueueDirection, q: int, ports: int)
    requires
        0 <= p < ports,
        0 <= q < ports,
    ensures
        queue_index(d, p) == queue_index(e, q) ==> d == e && p == q,
        queue_index(d, p) != CONTROL_RXQ_INDEX,
        queue_index(d, p) != CONTROL_TXQ_INDEX,
        0 <= queue_index(d, p) < 2 + 2 * ports,
{
}

/// A console.
#[derive(Debug)]
pub struct Console {
    names: Vec<String>,
    /// Which queues are here, and not with a port that runs.
    queues: Vec<bool>,
    control: Vec<ControlMessage>,
    acked_features: u64,
    activated: bool,
    config: VirtioConsoleConfig,
    active_ports: Vec<bool>,
}

/// A console.
#[verifier::ext_equal]
pub struct ConsoleView {
    /// The names of the ports.
    pub names: Seq<Seq<char>>,
    /// Which queues are here, and not with a port that runs.
    pub queues: Seq<bool>,
    /// The messages that the guest has not taken yet.
    pub control: Seq<MessageView>,
    pub acked_features: u64,
    pub activated: bool,
    pub config: ConfigView,
    pub active_ports: Seq<bool>,
}

impl View for Console {
    type V = ConsoleView;

    closed spec fn view(&self) -> ConsoleView {
        ConsoleView {
            names: self.names@.map_values(|name: String| name@),
            queues: self.queues@,
            control: messages(self.control@),
            acked_features: self.acked_features,
            activated: self.activated,
            config: self.config@,
            active_ports: self.active_ports@,
        }
    }
}

/// Which message goes to the driver, and what is left for later.
pub open spec fn message_taken(before: ConsoleView, action: ControlRx, after: ConsoleView) -> bool {
    if before.control.len() == 0 {
        action is PutBack && after == before
    } else {
        &&& action matches ControlRx::Write(message) && message@ == before.control[0]
        &&& after == (ConsoleView { control: before.control.drop_first(), ..before })
    }
}

/// The messages that tell the guest of all ports.
pub open spec fn ports_added(ports: nat) -> Seq<MessageView> {
    Seq::new(ports, |i: int| MessageView::PortAdd(i as u32))
}

impl ConsoleView {
    /// Whether there is something to a flag for each port, and numbers are in range.
    pub open spec fn wf(self) -> bool {
        &&& self.names.len() > 0
        &&& self.names.len() <= u32::MAX
        &&& 3 + 2 * self.names.len() <= usize::MAX
        &&& self.active_ports.len() == self.names.len()
    }

    /// Whether the two queues of a port are here.
    pub open spec fn has_queues(self, port: int) -> bool {
        &&& 0 <= port < self.names.len()
        &&& queue_index(QueueDirection::Tx, port) < self.queues.len()
        &&& self.queues[queue_index(QueueDirection::Rx, port)]
        &&& self.queues[queue_index(QueueDirection::Tx, port)]
    }

    /// A port that has taken its queues and runs.
    pub open spec fn started(self, port: int) -> ConsoleView {
        ConsoleView {
            queues: self.queues.update(queue_index(QueueDirection::Rx, port), false).update(
                queue_index(QueueDirection::Tx, port),
                false,
            ),
            active_ports: self.active_ports.update(port, true),
            ..self
        }
    }

    /// Ports that were started one after the other, the first `n` of them.
    pub open spec fn all_started(self, ports: Seq<usize>, n: int) -> ConsoleView
        decreases n,
    {
        if n <= 0 {
            self
        } else {
            self.all_started(ports, n - 1).started(ports[n - 1] as int)
        }
    }

    /// Whether a port finds its queues once those before it were started.
    pub open spec fn ready(self, ports: Seq<usize>, k: int) -> bool {
        self.all_started(ports, k).has_queues(ports[k] as int)
    }

    /// Whether ports can be started one after the other.
    pub open spec fn can_start(self, ports: Seq<usize>) -> bool {
        forall|k: int| 0 <= k < ports.len() ==> #[trigger] self.ready(ports, k)
    }

    /// The messages with which a command is answered.
    pub open spec fn answer(self, request: ControlRequest) -> Seq<MessageView> {
        match request.command {
            None => Seq::empty(),
            Some(command) => if command.event == VIRTIO_CONSOLE_DEVICE_READY {
                ports_added(self.names.len())
            } else if command.event == VIRTIO_CONSOLE_PORT_READY && command.value == 1 {
                let port = command.id;
                let opened = match request.window {
                    Some((cols, rows)) => seq![
                        MessageView::ConsolePort(port),
                        MessageView::PortOpen { port, open: true },
                        MessageView::Resize { port, cols, rows },
                    ],
                    None => seq![MessageView::PortOpen { port, open: true }],
                };
                let name = self.names[port as int];
                if name.len() > 0 { opened.push(MessageView::PortName { port, name }) } else { opened }
            } else {
                Seq::empty()
            },
        }
    }

    /// The messages with which the first `n` commands are answered.
    pub open spec fn answers(self, requests: Seq<ControlRequest>, n: int) -> Seq<MessageView>
        decreases n,
    {
        if n <= 0 {
            Seq::empty()
        } else {
            self.answers(requests, n - 1) + self.answer(requests[n - 1])
        }
    }
}

/// Whether a command makes its port start.
pub open spec fn opens_port(request: ControlRequest) -> bool {
    request.command matches Some(command) && command.event == VIRTIO_CONSOLE_PORT_OPEN && command.value == 1
}

/// The ports that the first `n` commands make start, in order.
pub open spec fn opened_ports(requests: Seq<ControlRequest>, n: int) -> Seq<usize>
    decreases n,
{
    if n <= 0 {
        Seq::empty()
    } else if opens_port(requests[n - 1]) {
        opened_ports(requests, n - 1).push(requests[n - 1].command->0.id as usize)
    } else {
        opened_ports(requests, n - 1)
    }
}

/// Whether a command that tells of a port names one that there is.
pub open spec fn names_a_port(request: ControlRequest, ports: nat) -> bool {
    request.command matches Some(command) ==> (command.event == VIRTIO_CONSOLE_PORT_READY && command.value == 1 ==> command.id
        < ports)
}

proof fn lemma_started_aside(before: ConsoleView, control: Seq<MessageView>, ports: Seq<usize>, n: int)
    requires
        n >= 0,
    ensures
        (ConsoleView { control, ..before }).all_started(ports, n) == (ConsoleView { control, ..before.all_started(ports, n) }),
    decreases n,
{
    if n > 0 {
        lemma_started_aside(before, control, ports, n - 1);
    }
}

/// Starting ports has nothing to do with the messages that wait.
proof fn lemma_control_aside(before: ConsoleView, control: Seq<MessageView>, ports: Seq<usize>)
    requires
        before.can_start(ports),
    ensures
        ({
            let with = ConsoleView { control, ..before };
            &&& with.can_start(ports)
            &&& with.all_started(ports, ports.len() as int) == (ConsoleView {
                control,
                ..before.all_started(ports, ports.len() as int)
            })
        }),
{
    let with = ConsoleView { control, ..before };
    assert forall|k: int| 0 <= k < ports.len() implies #[trigger] with.ready(ports, k) by {
        assert(before.ready(ports, k));
        lemma_started_aside(before, control, ports, k);
    }
    lemma_started_aside(before, control, ports, ports.len() as int);
}

/// What is to be done with a free descriptor of the control queue.
#[derive(Debug)]
pub enum ControlRx {
    /// The message is written to it.
    Write(ControlMessage),
    /// It is put back, and no further one is taken.
    PutBack,
}

impl Console {
    /// A console with these ports; `window` is the size of the terminal behind the first one, where
    /// there is one.
    pub fn new(names: Vec<String>, window: Option<(u16, u16)>) -> (console: Console)
        requires
            names@.len() > 0,
            names@.len() <= u32::MAX,
            3 + 2 * names@.len() <= usize::MAX,
        ensures
            console@.wf(),
            console@ == (ConsoleView {
                names: names@.map_values(|name: String| name@),
                queues: Seq::empty(),
                control: Seq::empty(),
                acked_features: 0,
                activated: false,
                config: ConfigView {
                    cols: (match window {
                        Some((cols, _)) => cols,
                        None => 0,
                    }),
                    rows: (match window {
                        Some((_, rows)) => rows,
                        None => 0,
                    }),
                    max_nr_ports: names@.len() as u32,
                    emerg_wr: 0,
                },
                active_ports: Seq::new(names@.len(), |i: int| false),
            }),
    {
        let (cols, rows) = match window {
            Some((cols, rows)) => (cols, rows),
            None => (0, 0),
        };
        let ports: usize = names.len();
        let console = Console {
            names,
            queues: Vec::new(),
            control: Vec::new(),
            acked_features: 0,
            activated: false,
            config: VirtioConsoleConfig::new(cols, rows, ports as u32),
            active_ports: vec![false; ports],
        };
        assert(console@.active_ports =~= Seq::new(ports as nat, |i: int| false));
        assert(console@.control =~= Seq::empty());
        console
    }

    /// The number of queues that the device has.
    pub fn queue_count(&self) -> (n: usize)
        requires
            self@.wf(),
        ensures
            n == 2 + 2 * self@.names.len(),
    {
        num_queues(self.names.len())
    }

    pub fn avail_features(&self) -> (features: u64)
        ensures
            features == AVAIL_FEATURES,
    {
        AVAIL_FEATURES
    }

    pub fn acked_features(&self) -> (features: u64)
        ensures
            features == self@.acked_features,
    {
        self.acked_features
    }

    pub fn set_acked_features(&mut self, features: u64)
        ensures
            final(self)@ == (ConsoleView { acked_features: features, ..old(self)@ }),
    {
        self.acked_features = features;
    }

    pub fn is_activated(&self) -> (activated: bool)
        ensures
            activated == self@.activated,
    {
        self.activated
    }

    /// Which ports run, or are to run once the device is resumed.
    pub fn active_ports(&self) -> (active: &Vec<bool>)
        ensures
            active@ == self@.active_ports,
    {
        &self.active_ports
    }

    fn push(&mut self, message: ControlMessage)
        ensures
            final(self)@ == (ConsoleView { control: old(self)@.control.push(message@), ..old(self)@ }),
    {
        let ghost before = self@;
        self.control.push(message);
        assert(self@.control =~= before.control.push(message@));
    }

    /// Tells the guest that a terminal has another size.
    pub fn update_console_size(&mut self, port: u32, cols: u16, rows: u16)
        ensures
            final(self)@ == (ConsoleView {
                control: old(self)@.control.push(MessageView::Resize { port, cols, rows }),
                ..old(self)@
            }),
    {
        self.push(ControlMessage::Resize { port, cols, rows });
    }

    /// What is to be done with a free descriptor of the control queue.
    pub fn process_control_rx(&mut self) -> (action: ControlRx)
        ensures
            message_taken(old(self)@, action, final(self)@),
    {
        if self.control.len() == 0 {
            return ControlRx::PutBack;
        }
        let ghost before = self@;
        let message = self.control.remove(0);
        assert(self@.control =~= before.control.drop_first());
        ControlRx::Write(message)
    }

    fn answer_command(&mut self, command: ControlCommand, window: Option<(u16, u16)>)
        requires
            old(self)@.wf(),
            names_a_port(ControlRequest { command: Some(command), window }, old(self)@.names.len()),
        ensures
            final(self)@ == (ConsoleView {
                control: old(self)@.control + old(self)@.answer(ControlRequest { command: Some(command), window }),
                ..old(self)@
            }),
    {
        let ghost before = self@;
        let ghost answer = before.answer(ControlRequest { command: Some(command), window });
        if command.event == VIRTIO_CONSOLE_DEVICE_READY {
            let ports: usize = self.names.len();
            let mut i: usize = 0;
            while i < ports
                invariant
                    i <= ports,
                    ports == before.names.len(),
                    ports <= u32::MAX,
                    self@ == (ConsoleView { control: before.control + ports_added(i as nat), ..before }),
                decreases ports - i,
            {
                self.push(ControlMessage::PortAdd(i as u32));
                assert(before.control + ports_added(i as nat + 1) =~= (before.control + ports_added(i as nat)).push(
                    MessageView::PortAdd(i as u32),
                ));
                i += 1;
            }
        } else if command.event == VIRTIO_CONSOLE_PORT_READY && command.value == 1 {
            let port: u32 = command.id;
            match window {
                Some((cols, rows)) => {
                    self.push(ControlMessage::ConsolePort(port));
                    self.push(ControlMessage::PortOpen { port, open: true });
                    self.push(ControlMessage::Resize { port, cols, rows });
                },
                None => {
                    self.push(ControlMessage::PortOpen { port, open: true });
                },
            }
            let name: String = self.names[port as usize].clone();
            assert(name@ == before.names[port as int]);
            if name.as_str().unicode_len() > 0 {
                self.push(ControlMessage::PortName { port, name });
            }
            assert(self@.control =~= before.control + answer);
        } else {
            assert(before.control + answer =~= before.control);
        }
    }

    fn start_port(&mut self, port: usize)
        requires
            old(self)@.wf(),
            old(self)@.has_queues(port as int),
        ensures
            final(self)@ == old(self)@.started(port as int),
            final(self)@.wf(),
    {
        let rx: usize = port_id_to_queue_idx(QueueDirection::Rx, port);
        let tx: usize = port_id_to_queue_idx(QueueDirection::Tx, port);
        self.queues.set(rx, false);
        self.queues.set(tx, false);
        self.active_ports.set(port, true);
    }

    fn start_ports(&mut self, ports: &Vec<usize>)
        requires
            old(self)@.wf(),
            old(self)@.can_start(ports@),
        ensures
            final(self)@ == old(self)@.all_started(ports@, ports@.len() as int),
            final(self)@.wf(),
    {
        let ghost before = self@;
        let mut k: usize = 0;
        while k < ports.len()
            invariant
                k <= ports@.len(),
                before.can_start(ports@),
                self@ == before.all_started(ports@, k as int),
                self@.wf(),
            decreases ports@.len() - k,
        {
            assert(before.ready(ports@, k as int));
            self.start_port(ports[k]);
            k += 1;
        }
    }

    /// Answers the commands of the guest's driver and starts the ports that it opened.
    pub fn process_control_tx(&mut self, requests: &Vec<ControlRequest>) -> (outcome: ControlOutcome)
        requires
            old(self)@.wf(),
            old(self)@.activated,
            forall|i: int| 0 <= i < requests@.len() ==> names_a_port(#[trigger] requests@[i], old(self)@.names.len()),
            old(self)@.can_start(opened_ports(requests@, requests@.len() as int)),
        ensures
            final(self)@.wf(),
            outcome.raise_irq == (requests@.len() > 0),
            outcome.used@ == requests@.map_values(
                |request: ControlRequest| if request.command is Some { Some(CONTROL_SIZE) } else { None },
            ),
            outcome.start@ == opened_ports(requests@, requests@.len() as int),
            final(self)@ == (ConsoleView {
                control: old(self)@.control + old(self)@.answers(requests@, requests@.len() as int),
                ..old(self)@.all_started(outcome.start@, outcome.start@.len() as int)
            }),
    {
        let ghost before = self@;
        let mut used: Vec<Option<u32>> = Vec::new();
        let mut start: Vec<usize> = Vec::new();
        let mut i: usize = 0;
        assert(before.control + before.answers(requests@, 0) =~= before.control);
        while i < requests.len()
            invariant
                i <= requests@.len(),
                before.wf(),
                forall|j: int| 0 <= j < requests@.len() ==> names_a_port(#[trigger] requests@[j], before.names.len()),
                used@.len() == i,
                forall|j: int| 0 <= j < i ==> #[trigger] used@[j] == (if requests@[j].command is Some { Some(CONTROL_SIZE) } else { None }),
                start@ == opened_ports(requests@, i as int),
                self@ == (ConsoleView { control: before.control + before.answers(requests@, i as int), ..before }),
            decreases requests@.len() - i,
        {
            let request = requests[i];
            let ghost now = self@;
            match request.command {
                None => {
                    used.push(None);
                },
                Some(command) => {
                    used.push(Some(CONTROL_SIZE));
                    self.answer_command(command, request.window);
                    if command.event == VIRTIO_CONSOLE_PORT_OPEN && command.value == 1 {
                        start.push(command.id as usize);
                    }
                },
            }
            proof {
                assert(requests@[i as int] == request);
                assert(now.answer(request) == before.answer(request));
                assert(before.control + before.answers(requests@, i + 1) =~= now.control + before.answer(request));
                assert(self@.control =~= now.control + before.answer(request));
            }
            i += 1;
        }
        let raise_irq = requests.len() > 0;
        proof {
            lemma_control_aside(before, self@.control, start@);
        }
        self.start_ports(&start);
        assert(used@ =~= requests@.map_values(
            |request: ControlRequest| if request.command is Some { Some(CONTROL_SIZE) } else { None },
        ));
        ControlOutcome { used, start, raise_irq }
    }

    /// Reads the configuration space; bytes past its end are left as they are.
    pub fn read_config(&self, offset: u64, data: &mut [u8])
        ensures
            final(data)@.len() == old(data)@.len(),
            final(data)@ == self@.config.read(offset, old(data)@),
    {
        let bytes = self.config.bytes();
        let size: u64 = 12;
        if offset >= size {
            return;
        }
        let ghost before = data@;
        if let Some(end) = offset.checked_add(data.len() as u64) {
            let last: u64 = if end < size { end } else { size };
            lay_over_slice(data, 0, slice_subrange(bytes.as_slice(), offset as usize, last as usize));
        }
    }

    /// Activates the device with so many queues; `signalled` says whether the worker could be told.
    pub fn activate(&mut self, signalled: bool, queues: usize) -> (r: Result<(), ActivateError>)
        ensures
            if signalled {
                &&& r == Ok::<(), ActivateError>(())
                &&& final(self)@ == (ConsoleView { activated: true, queues: Seq::new(queues as nat, |i: int| true), ..old(self)@ })
            } else {
                r == Err::<(), ActivateError>(ActivateError::BadActivate) && final(self)@ == old(self)@
            },
    {
        if !signalled {
            return Err(ActivateError::BadActivate);
        }
        self.queues = vec![true; queues];
        self.activated = true;
        assert(self@.queues =~= Seq::new(queues as nat, |i: int| true));
        Ok(())
    }

    /// Takes all queues from the device; the ports are shut down outside.
    pub fn reset(&mut self) -> (done: bool)
        ensures
            done,
            final(self)@ == (ConsoleView {
                activated: false,
                queues: Seq::empty(),
                active_ports: Seq::new(old(self)@.active_ports.len(), |i: int| false),
                ..old(self)@
            }),
    {
        let ports: usize = self.active_ports.len();
        self.active_ports = vec![false; ports];
        self.queues = Vec::new();
        self.activated = false;
        assert(self@.active_ports =~= Seq::new(ports as nat, |i: int| false));
        true
    }
}

/// The queues that a stopped port gives back, where it ran: its receive queue and its transmit
/// queue.
pub type Stopped = Option<(bool, bool)>;

impl ConsoleView {
    /// A port that was stopped.
    pub open spec fn stopped(self, port: int, given: Stopped) -> ConsoleView {
        match given {
            None => self,
            Some((rx, tx)) => {
                let queues = if rx { self.queues.update(queue_index(QueueDirection::Rx, port), true) } else { self.queues };
                ConsoleView {
                    queues: if tx { queues.update(queue_index(QueueDirection::Tx, port), true) } else { queues },
                    active_ports: self.active_ports.update(port, true),
                    ..self
                }
            },
        }
    }

    /// The first `n` ports, stopped.
    pub open spec fn all_stopped(self, given: Seq<Stopped>, n: int) -> ConsoleView
        decreases n,
    {
        if n <= 0 {
            self
        } else {
            self.all_stopped(given, n - 1).stopped(n - 1, given[n - 1])
        }
    }

    /// Whether what the ports give back has a place.
    pub open spec fn can_stop(self, given: Seq<Stopped>) -> bool {
        &&& given.len() == self.names.len()
        &&& forall|i: int| 0 <= i < given.len() && (#[trigger] given[i]) is Some ==> queue_index(QueueDirection::Tx, i) < self.queues.len()
    }
}

impl Console {
    /// Takes back the queues of the ports that ran.
    pub fn pause(&mut self, given: &Vec<Stopped>)
        requires
            old(self)@.wf(),
            old(self)@.can_stop(given@),
        ensures
            final(self)@.wf(),
            final(self)@ == old(self)@.all_stopped(given@, given@.len() as int),
            final(self)@.queues.len() == old(self)@.queues.len(),
    {
        let ghost before = self@;
        let mut port: usize = 0;
        while port < given.len()
            invariant
                port <= given@.len(),
                before.wf(),
                before.can_stop(given@),
                self@ == before.all_stopped(given@, port as int),
                self@.wf(),
                self@.names == before.names,
                self@.queues.len() == before.queues.len(),
            decreases given@.len() - port,
        {
            let ghost stopped = given@[port as int];
            if let Some((rx, tx)) = given[port] {
                assert(stopped is Some);
                let rx_index: usize = port_id_to_queue_idx(QueueDirection::Rx, port);
                let tx_index: usize = port_id_to_queue_idx(QueueDirection::Tx, port);
                if rx {
                    self.queues.set(rx_index, true);
                }
                if tx {
                    self.queues.set(tx_index, true);
                }
                self.active_ports.set(port, true);
            }
            port += 1;
        }
    }
}

/// The ports, among the first `n`, that are to run.
pub open spec fn running_ports(active: Seq<bool>, n: int) -> Seq<usize>
    decreases n,
{
    if n <= 0 {
        Seq::empty()
    } else if active[n - 1] {
        running_ports(active, n - 1).push((n - 1) as usize)
    } else {
        running_ports(active, n - 1)
    }
}

impl Console {
    /// Starts the ports that are to run; an inactive device has none.
    pub fn resume(&mut self) -> (start: Vec<usize>)
        requires
            old(self)@.wf(),
            old(self)@.activated ==> old(self)@.can_start(
                running_ports(old(self)@.active_ports, old(self)@.active_ports.len() as int),
            ),
        ensures
            final(self)@.wf(),
            if old(self)@.activated {
                &&& start@ == running_ports(old(self)@.active_ports, old(self)@.active_ports.len() as int)
                &&& final(self)@ == old(self)@.all_started(start@, start@.len() as int)
            } else {
                start@.len() == 0 && final(self)@ == old(self)@
            },
    {
        let mut start: Vec<usize> = Vec::new();
        if !self.activated {
            return start;
        }
        let ghost before = self@;
        let ports: usize = self.active_ports.len();
        let mut i: usize = 0;
        while i < ports
            invariant
                i <= ports,
                ports == before.active_ports.len(),
                self@ == before,
                start@ == running_ports(before.active_ports, i as int),
            decreases ports - i,
        {
            if self.active_ports[i] {
                start.push(i);
            }
            i += 1;
        }
        self.start_ports(&start);
        start
    }
}

/// The text in which a snapshot with another number of queues is refused.
pub open spec fn queue_count_text(expected: nat, got: nat) -> Seq<char> {
    "console: expected "@ + decimal(expected) + " queues, got "@ + decimal(got)
}

impl ConsoleView {
    /// What is saved of the console besides its queues; `control` holds the messages in bytes.
    pub open spec fn body(self, control: Seq<Seq<u8>>) -> ConsoleBodyView {
        ConsoleBodyView {
            acked_features: self.acked_features,
            cols: self.config.cols,
            rows: self.config.rows,
            max_nr_ports: self.config.max_nr_ports,
            emerg_wr: self.config.emerg_wr,
            control_queue: control,
            active_ports: self.active_ports,
        }
    }

    /// The console with the state that was saved.
    pub open spec fn with_body(self, body: ConsoleBodyView) -> ConsoleView {
        ConsoleView {
            acked_features: body.acked_features,
            config: ConfigView {
                cols: body.cols,
                rows: body.rows,
                max_nr_ports: body.max_nr_ports,
                emerg_wr: body.emerg_wr,
            },
            control: body.control_queue.map_values(|bytes: Seq<u8>| MessageView::Saved(bytes)),
            active_ports: body.active_ports,
            ..self
        }
    }

    /// How many queues are here before the first that is not.
    pub open spec fn leading_queues(self, n: int) -> int
        decreases n,
    {
        if n <= 0 {
            0
        } else if self.leading_queues(n - 1) == n - 1 && self.queues[n - 1] {
            n
        } else {
            self.leading_queues(n - 1)
        }
    }
}

/// What comes of reading state back.
#[derive(Debug)]
pub struct ConsoleRestore {
    /// So many queues, from the first on, take the state that was saved of them.
    pub queues: usize,
    pub outcome: Result<(), DeviceSnapshotError>,
}

/// Whether state that was read fits the console, and if so whether it was taken over.
pub open spec fn body_restored(before: ConsoleView, body: ConsoleBodyView, after: ConsoleView, restore: ConsoleRestore) -> bool {
    if body.max_nr_ports != before.config.max_nr_ports {
        &&& after == before
        &&& restore.queues == 0
        &&& restore.outcome matches Err(e) && is_invalid(e, "console port count mismatch"@)
    } else if body.active_ports.len() != before.names.len() {
        &&& after == before
        &&& restore.queues == 0
        &&& restore.outcome matches Err(e) && is_invalid(e, "console active port count mismatch"@)
    } else {
        &&& after == before.with_body(body)
        &&& restore.queues == before.leading_queues(before.queues.len() as int)
        &&& if restore.queues == before.queues.len() {
            restore.outcome == Ok::<(), DeviceSnapshotError>(())
        } else {
            restore.outcome matches Err(e) && is_invalid(e, "console queue missing"@)
        }
    }
}

impl Console {
    /// How many queues are here before the first that is not.
    fn leading_queues(&self) -> (n: usize)
        ensures
            n == self@.leading_queues(self@.queues.len() as int),
            n <= self@.queues.len(),
            n == self@.queues.len() <==> !self@.queues.contains(false),
    {
        let mut n: usize = 0;
        let mut i: usize = 0;
        while i < self.queues.len()
            invariant
                n <= i <= self.queues@.len(),
                self.queues@ == self@.queues,
                n == self@.leading_queues(i as int),
                n == i ==> forall|j: int| 0 <= j < i ==> #[trigger] self.queues@[j],
                n < i ==> !self.queues@[n as int],
            decreases self.queues@.len() - i,
        {
            if n == i && self.queues[i] {
                n = i + 1;
            }
            i += 1;
        }
        proof {
            if n < self.queues@.len() {
                assert(self@.queues[n as int] == false);
            } else if self@.queues.contains(false) {
                let j = choose|j: int| 0 <= j < self@.queues.len() && self@.queues[j] == false;
                assert(self.queues@[j]);
            }
        }
        n
    }

    /// Saves the device: the states of its queues, and the messages that wait, in bytes.
    pub fn serialize_state<Q>(&self, states: Vec<Q>, control: Vec<Vec<u8>>) -> (r: Result<DeviceSnapshot<Q>, DeviceSnapshotError>)
        requires
            states@.len() == self@.queues.len(),
            control@.len() == self@.control.len(),
        ensures
            match r {
                Ok(snapshot) => {
                    &&& !self@.queues.contains(false)
                    &&& snapshot.queues == states
                    &&& snapshot.payload@ == encoded_console(self@.body(control@.map_values(|bytes: Vec<u8>| bytes@)))
                },
                Err(e) => self@.queues.contains(false) && is_invalid(e, "console port still active"@),
            },
    {
        if self.leading_queues() != self.queues.len() {
            return Err(DeviceSnapshotError::Invalid("console port still active".to_owned()));
        }
        let mut active_ports: Vec<bool> = Vec::new();
        let mut i: usize = 0;
        while i < self.active_ports.len()
            invariant
                i <= self.active_ports@.len(),
                active_ports@ == self.active_ports@.take(i as int),
            decreases self.active_ports@.len() - i,
        {
            active_ports.push(self.active_ports[i]);
            assert(self.active_ports@.take(i + 1) =~= self.active_ports@.take(i as int).push(self.active_ports@[i as int]));
            i += 1;
        }
        assert(active_ports@ =~= self@.active_ports);
        let body = ConsoleBody {
            acked_features: self.acked_features,
            cols: self.config.cols,
            rows: self.config.rows,
            max_nr_ports: self.config.max_nr_ports,
            emerg_wr: self.config.emerg_wr,
            control_queue: control,
            active_ports,
        };
        match serialize_console(&body) {
            Ok(payload) => Ok(DeviceSnapshot { queues: states, payload }),
            Err(text) => Err(DeviceSnapshotError::Codec(text)),
        }
    }

    /// Takes over state that was read, if it fits.
    pub fn restore_body(&mut self, body: ConsoleBody) -> (restore: ConsoleRestore)
        requires
            old(self)@.wf(),
        ensures
            final(self)@.wf(),
            body_restored(old(self)@, body@, final(self)@, restore),
    {
        if body.max_nr_ports != self.config.max_nr_ports {
            return ConsoleRestore {
                queues: 0,
                outcome: Err(DeviceSnapshotError::Invalid("console port count mismatch".to_owned())),
            };
        }
        if body.active_ports.len() != self.names.len() {
            return ConsoleRestore {
                queues: 0,
                outcome: Err(DeviceSnapshotError::Invalid("console active port count mismatch".to_owned())),
            };
        }
        let ghost before = self@;
        let ghost saved = body@;
        let ConsoleBody { acked_features, cols, rows, max_nr_ports, emerg_wr, control_queue, active_ports } = body;
        let mut waiting: Vec<Vec<u8>> = control_queue;
        let mut reversed: Vec<ControlMessage> = Vec::new();
        let ghost total = waiting@;
        while waiting.len() > 0
            invariant
                waiting@.len() + reversed@.len() == total.len(),
                waiting@ == total.take(waiting@.len() as int),
                forall|j: int| 0 <= j < reversed@.len() ==> (#[trigger] reversed@[j])@ == MessageView::Saved(total[total.len() - 1 - j]@),
            decreases waiting@.len(),
        {
            if let Some(bytes) = waiting.pop() {
                reversed.push(ControlMessage::Saved(bytes));
            }
        }
        let mut control: Vec<ControlMessage> = Vec::new();
        while reversed.len() > 0
            invariant
                control@.len() + reversed@.len() == total.len(),
                forall|j: int| 0 <= j < reversed@.len() ==> (#[trigger] reversed@[j])@ == MessageView::Saved(total[total.len() - 1 - j]@),
                forall|j: int| 0 <= j < control@.len() ==> (#[trigger] control@[j])@ == MessageView::Saved(total[j]@),
            decreases reversed@.len(),
        {
            if let Some(message) = reversed.pop() {
                control.push(message);
            }
        }
        self.acked_features = acked_features;
        self.config = VirtioConsoleConfig { cols, rows, max_nr_ports, emerg_wr };
        self.control = control;
        self.active_ports = active_ports;
        assert(self@.control =~= before.with_body(saved).control);
        assert(self@ =~= before.with_body(saved));
        let queues: usize = self.leading_queues();
        proof {
            lemma_leading(before, self@, before.queues.len() as int);
        }
        if queues == self.queues.len() {
            ConsoleRestore { queues, outcome: Ok(()) }
        } else {
            ConsoleRestore { queues, outcome: Err(DeviceSnapshotError::Invalid("console queue missing".to_owned())) }
        }
    }

    /// Stops the ports that run and reads state back.
    pub fn restore_state<Q>(&mut self, given: &Vec<Stopped>, snapshot: &DeviceSnapshot<Q>) -> (restore: ConsoleRestore)
        requires
            old(self)@.wf(),
            old(self)@.can_stop(given@),
        ensures
            final(self)@.wf(),
            ({
                let paused = old(self)@.all_stopped(given@, given@.len() as int);
                if snapshot.queues@.len() != paused.queues.len() {
                    &&& final(self)@ == paused
                    &&& restore.queues == 0
                    &&& restore.outcome matches Err(e) && is_invalid(
                        e,
                        queue_count_text(paused.queues.len(), snapshot.queues@.len()),
                    )
                } else {
                    &&& forall|body: ConsoleBodyView|
                        begins_with(snapshot.payload@, #[trigger] encoded_console(body)) ==> body_restored(
                            paused,
                            body,
                            final(self)@,
                            restore,
                        )
                    &&& (forall|body: ConsoleBodyView| !begins_with(snapshot.payload@, #[trigger] encoded_console(body))) ==> {
                        &&& final(self)@ == paused
                        &&& restore.queues == 0
                        &&& restore.outcome matches Err(DeviceSnapshotError::Codec(text)) && text@ == refusal(
                            CONSOLE_RECORD,
                            snapshot.payload@,
                        )
                    }
                }
            }),
    {
        self.pause(given);
        if snapshot.queues.len() != self.queues.len() {
            let mut text: String = "console: expected ".to_owned();
            append_decimal(&mut text, self.queues.len() as u64);
            text.append(" queues, got ");
            append_decimal(&mut text, snapshot.queues.len() as u64);
            return ConsoleRestore { queues: 0, outcome: Err(DeviceSnapshotError::Invalid(text)) };
        }
        match deserialize_console(&snapshot.payload) {
            Ok(body) => {
                let ghost read = body@;
                assert(begins_with(snapshot.payload@, encoded_console(read)));
                self.restore_body(body)
            },
            Err(text) => ConsoleRestore { queues: 0, outcome: Err(DeviceSnapshotError::Codec(text)) },
        }
    }
}

proof fn lemma_leading(a: ConsoleView, b: ConsoleView, n: int)
    requires
        a.queues == b.queues,
    ensures
        a.leading_queues(n) == b.leading_queues(n),
    decreases n,
{
    if n > 0 {
        lemma_leading(a, b, n - 1);
    }
}

/// A console that takes over what was saved of another one with as many ports has its features,
/// its configuration and its active ports, and the messages that waited.
pub proof fn saved_state_reads_back(saved: ConsoleView, control: Seq<Seq<u8>>, into: ConsoleView)
    requires
        saved.wf(),
        into.wf(),
        into.names.len() == saved.names.len(),
        into.config.max_nr_ports == saved.config.max_nr_ports,
    ensures
        ({
            let payload = encoded_console(saved.body(control));
            let after = into.with_body(saved.body(control));
            &&& begins_with(payload, encoded_console(saved.body(control)))
            &&& after.acked_features == saved.acked_features
            &&& after.config == saved.config
            &&& after.active_ports == saved.active_ports
            &&& after.control == control.map_values(|bytes: Seq<u8>| MessageView::Saved(bytes))
            &&& after.wf()
        }),
{
    let payload = encoded_console(saved.body(control));
    assert(payload.subrange(0, payload.len() as int) =~= payload);
}

impl ConsoleView {
    /// Whether exactly the ports that run are without their queues.
    pub open spec fn runs(self) -> bool {
        &&& self.wf()
        &&& self.activated
        &&& self.queues.len() == 2 + 2 * self.names.len()
        &&& forall|i: int, d: QueueDirection|
            0 <= i < self.names.len() ==> self.queues[#[trigger] queue_index(d, i)] == !self.active_ports[i]
    }

    /// What the ports give back when all that run are stopped.
    pub open spec fn given_back(self) -> Seq<Stopped> {
        Seq::new(self.names.len(), |i: int| if self.active_ports[i] { Some((true, true)) } else { None })
    }
}

proof fn lemma_stopped(c: ConsoleView, n: int)
    requires
        c.runs(),
        0 <= n <= c.names.len(),
    ensures
        ({
            let s = c.all_stopped(c.given_back(), n);
            &&& s == (ConsoleView { queues: s.queues, ..c })
            &&& s.queues.len() == c.queues.len()
            &&& forall|i: int, d: QueueDirection|
                0 <= i < c.names.len() ==> s.queues[#[trigger] queue_index(d, i)] == (i < n || !c.active_ports[i])
            &&& s.queues[CONTROL_RXQ_INDEX as int] == c.queues[CONTROL_RXQ_INDEX as int]
            &&& s.queues[CONTROL_TXQ_INDEX as int] == c.queues[CONTROL_TXQ_INDEX as int]
        }),
    decreases n,
{
    if n > 0 {
        lemma_stopped(c, n - 1);
        let before = c.all_stopped(c.given_back(), n - 1);
        let after = c.all_stopped(c.given_back(), n);
        assert(after == before.stopped(n - 1, c.given_back()[n - 1]));
        assert(after.active_ports =~= c.active_ports);
        assert forall|i: int, d: QueueDirection| 0 <= i < c.names.len() implies after.queues[#[trigger] queue_index(d, i)] == (i < n
            || !c.active_ports[i]) by {
            port_queues_are_apart(d, i, QueueDirection::Rx, n - 1, c.names.len() as int);
            port_queues_are_apart(d, i, QueueDirection::Tx, n - 1, c.names.len() as int);
        }
    }
}

/// The running ports are in order, and are those that are active.
proof fn lemma_running(active: Seq<bool>, n: int)
    requires
        0 <= n <= active.len() <= usize::MAX,
    ensures
        running_ports(active, n).len() <= n,
        forall|k: int| 0 <= k < running_ports(active, n).len() ==> #[trigger] running_ports(active, n)[k] < n
            && active[running_ports(active, n)[k] as int],
        forall|j: int, k: int| 0 <= j < k < running_ports(active, n).len() ==> running_ports(active, n)[j] < running_ports(active, n)[k],
        forall|i: int| 0 <= i < n && #[trigger] active[i] ==> running_ports(active, n).contains(i as usize),
    decreases n,
{
    if n > 0 {
        lemma_running(active, n - 1);
        let before = running_ports(active, n - 1);
        let after = running_ports(active, n);
        assert forall|i: int| 0 <= i < n && #[trigger] active[i] implies after.contains(i as usize) by {
            if i < n - 1 {
                assert(before.contains(i as usize));
                let k = choose|k: int| 0 <= k < before.len() && before[k] == i as usize;
                assert(after[k] == i as usize);
            } else {
                assert(after[after.len() - 1] == i as usize);
            }
        }
    }
}

proof fn lemma_restarted(paused: ConsoleView, ports: Seq<usize>, n: int)
    requires
        paused.wf(),
        paused.queues.len() == 2 + 2 * paused.names.len(),
        0 <= n <= ports.len(),
        forall|k: int| 0 <= k < ports.len() ==> #[trigger] ports[k] < paused.names.len() && paused.active_ports[ports[k] as int],
        forall|j: int, k: int| 0 <= j < k < ports.len() ==> ports[j] < ports[k],
        forall|i: int, d: QueueDirection| 0 <= i < paused.names.len() ==> paused.queues[#[trigger] queue_index(d, i)],
    ensures
        ({
            let s = paused.all_started(ports, n);
            &&& s == (ConsoleView { queues: s.queues, ..paused })
            &&& s.queues.len() == paused.queues.len()
            &&& forall|i: int, d: QueueDirection|
                0 <= i < paused.names.len() ==> s.queues[#[trigger] queue_index(d, i)] == !among(ports, n, i as usize)
            &&& s.queues[CONTROL_RXQ_INDEX as int] == paused.queues[CONTROL_RXQ_INDEX as int]
            &&& s.queues[CONTROL_TXQ_INDEX as int] == paused.queues[CONTROL_TXQ_INDEX as int]
            &&& forall|k: int| 0 <= k < n ==> #[trigger] paused.ready(ports, k)
        }),
    decreases n,
{
    if n > 0 {
        lemma_restarted(paused, ports, n - 1);
        lemma_among(ports, n - 1);
        let before = paused.all_started(ports, n - 1);
        let after = paused.all_started(ports, n);
        let port = ports[n - 1] as int;
        assert(after == before.started(port));
        assert(after.active_ports =~= paused.active_ports);
        assert(!among(ports, n - 1, ports[n - 1]));
        assert(before.has_queues(port)) by {
            port_queues_are_apart(QueueDirection::Tx, port, QueueDirection::Tx, port, paused.names.len() as int);
            assert(before.queues[queue_index(QueueDirection::Rx, port)] == !among(ports, n - 1, port as usize));
            assert(before.queues[queue_index(QueueDirection::Tx, port)] == !among(ports, n - 1, port as usize));
        }
        assert(paused.ready(ports, n - 1));
        assert forall|i: int, d: QueueDirection| 0 <= i < paused.names.len() implies after.queues[#[trigger] queue_index(d, i)]
            == !among(ports, n, i as usize) by {
            port_queues_are_apart(d, i, QueueDirection::Rx, port, paused.names.len() as int);
            port_queues_are_apart(d, i, QueueDirection::Tx, port, paused.names.len() as int);
            assert(among(ports, n - 1 + 1, i as usize) <==> among(ports, n - 1, i as usize) || i as usize == ports[n - 1]);
        }
    }
}

/// Pausing a console and resuming it leaves it as it was: every queue comes back while it is
/// paused, and the ports that ran run again.
pub proof fn resuming_undoes_pausing(c: ConsoleView)
    requires
        c.runs(),
    ensures
        ({
            let given = c.given_back();
            let paused = c.all_stopped(given, given.len() as int);
            let ports = running_ports(paused.active_ports, paused.active_ports.len() as int);
            &&& c.can_stop(given)
            &&& paused.active_ports == c.active_ports
            &&& forall|i: int, d: QueueDirection| 0 <= i < c.names.len() ==> paused.queues[#[trigger] queue_index(d, i)]
            &&& paused.can_start(ports)
            &&& paused.all_started(ports, ports.len() as int) == c
        }),
{
    let given = c.given_back();
    let n = c.names.len() as int;
    assert forall|i: int| 0 <= i < given.len() && (#[trigger] given[i]) is Some implies queue_index(QueueDirection::Tx, i)
        < c.queues.len() by {
        port_queues_are_apart(QueueDirection::Tx, i, QueueDirection::Tx, i, n);
    }
    lemma_stopped(c, n);
    let paused = c.all_stopped(given, given.len() as int);
    let ports = running_ports(paused.active_ports, paused.active_ports.len() as int);
    lemma_running(paused.active_ports, n);
    lemma_restarted(paused, ports, ports.len() as int);
    let after = paused.all_started(ports, ports.len() as int);
    assert forall|q: int| 0 <= q < c.queues.len() implies after.queues[q] == c.queues[q] by {
        if q != CONTROL_RXQ_INDEX && q != CONTROL_TXQ_INDEX {
            let port = if q < 2 { 0 } else { (q - 2) / 2 };
            let d = if q % 2 == 0 { QueueDirection::Rx } else { QueueDirection::Tx };
            assert(queue_index(d, port) == q);
            assert(c.queues[queue_index(d, port)] == !c.active_ports[port]);
            assert(after.queues[queue_index(d, port)] == !among(ports, ports.len() as int, port as usize));
            if c.active_ports[port] {
                assert(paused.active_ports[port]);
                assert(ports.contains(port as usize));
                let k = choose|k: int| 0 <= k < ports.len() && ports[k] == port as usize;
                assert(0 <= k < ports.len() && ports[k] == port as usize);
            } else if among(ports, ports.len() as int, port as usize) {
                let k = choose|k: int| 0 <= k < ports.len() && ports[k] == port as usize;
                assert(paused.active_ports[ports[k] as int]);
            }
        }
    }
    assert(after.queues =~= c.queues);
}

} // verus!
