//! The link to the serial receiver, and its heartbeat.
use crate::framing::law_scan_in_pieces;
use crate::gnss::{
    absorb_all, gnss_after, gnss_start, law_status_in_pieces, pos_line_of, sats_line_of,
    summary_due, GnssData, GnssView,
};
use crate::rtcm::{frames_in, left_over, Deframer, PositionText};
use crate::text::{decimal, push_decimal};
use vstd::prelude::*;
use vstd::slice::slice_to_vec;

verus! {

/// What happened on the serial port.
#[derive(Debug)]
pub enum SerialEvent<'a> {
    /// The port was opened.
    Opened,
    /// The port could not be opened.
    OpenFailed,
    /// Bytes were read; none at the end of the file.
    Read(&'a [u8]),
    /// The port could not be read.
    ReadFailed,
}

/// What to do next with the serial port.
#[derive(Debug)]
pub enum SerialAction {
    /// Read from the port.
    Read,
    /// Send `bytes` to all rovers and read on. `first` says that they are the
    /// first since the port was opened, `announce` that the hardware summary is
    /// due.
    Forward { bytes: Vec<u8>, first: bool, announce: bool },
    /// Wait, and open the port again.
    Reopen,
}

/// The link to the receiver, as the reader, the heartbeat and the rovers' handlers
/// share it.
#[derive(Debug)]
pub struct SerialLink {
    /// Whether the serial port is currently open.
    pub up: bool,
    /// Bytes read from the serial device since startup; wraps around.
    pub bytes: u64,
    /// Whether bytes have arrived since the port was opened.
    pub got_data: bool,
    /// Bytes of a frame that has not arrived whole.
    pub deframer: Deframer,
    /// Latest GNSS/hardware info decoded from the RTCM stream.
    pub gnss: GnssData,
}

/// What a [`SerialEvent`] says.
pub enum SerialInput {
    Opened,
    OpenFailed,
    Read(Seq<u8>),
    ReadFailed,
}

impl<'a> SerialEvent<'a> {
    /// What the event says.
    pub open spec fn input(self) -> SerialInput {
        match self {
            SerialEvent::Opened => SerialInput::Opened,
            SerialEvent::OpenFailed => SerialInput::OpenFailed,
            SerialEvent::Read(data) => SerialInput::Read(data@),
            SerialEvent::ReadFailed => SerialInput::ReadFailed,
        }
    }
}

/// What a [`SerialAction`] says.
pub enum SerialOutput {
    Read,
    Forward { bytes: Seq<u8>, first: bool, announce: bool },
    Reopen,
}

impl SerialAction {
    /// What the action says.
    pub open spec fn output(self) -> SerialOutput {
        match self {
            SerialAction::Read => SerialOutput::Read,
            SerialAction::Forward { bytes, first, announce } => SerialOutput::Forward {
                bytes: bytes@,
                first,
                announce,
            },
            SerialAction::Reopen => SerialOutput::Reopen,
        }
    }
}

/// What a [`SerialLink`] holds.
pub struct LinkView {
    pub up: bool,
    pub bytes: int,
    pub got_data: bool,
    pub held: Seq<u8>,
    pub gnss: GnssView,
}

impl View for SerialLink {
    type V = LinkView;

    open spec fn view(&self) -> LinkView {
        LinkView {
            up: self.up,
            bytes: self.bytes as int,
            got_data: self.got_data,
            held: self.deframer@,
            gnss: self.gnss@,
        }
    }
}

/// The link after an event.
pub open spec fn link_after(l: LinkView, event: SerialInput) -> LinkView {
    match event {
        SerialInput::Opened => LinkView { up: true, got_data: false, held: Seq::empty(), ..l },
        SerialInput::OpenFailed => l,
        SerialInput::ReadFailed => LinkView { up: false, ..l },
        SerialInput::Read(data) => if data.len() == 0 {
            LinkView { up: false, ..l }
        } else {
            LinkView {
                bytes: (l.bytes + data.len()) % 0x1_0000_0000_0000_0000,
                got_data: true,
                held: left_over(l.held + data),
                gnss: gnss_after(l.gnss, frames_in(l.held + data)),
                ..l
            }
        },
    }
}

/// What to do next at an event.
pub open spec fn action_at(l: LinkView, event: SerialInput) -> SerialOutput {
    match event {
        SerialInput::Opened => SerialOutput::Read,
        SerialInput::OpenFailed | SerialInput::ReadFailed => SerialOutput::Reopen,
        SerialInput::Read(data) => if data.len() == 0 {
            SerialOutput::Reopen
        } else {
            SerialOutput::Forward {
                bytes: data,
                first: !l.got_data,
                announce: summary_due(absorb_all(l.gnss, frames_in(l.held + data))),
            }
        },
    }
}

/// The link after a run of events.
pub open spec fn link_after_all(l: LinkView, events: Seq<SerialInput>) -> LinkView
    decreases events.len(),
{
    if events.len() == 0 {
        l
    } else {
        link_after(link_after_all(l, events.drop_last()), events.last())
    }
}

/// The bytes that were read in a run of events.
pub open spec fn bytes_read(events: Seq<SerialInput>) -> Seq<u8>
    decreases events.len(),
{
    if events.len() == 0 {
        Seq::empty()
    } else {
        bytes_read(events.drop_last()) + match events.last() {
            SerialInput::Read(data) => data,
            _ => Seq::empty(),
        }
    }
}

/// The bytes that are sent to all rovers in a run of events.
pub open spec fn bytes_forwarded(l: LinkView, events: Seq<SerialInput>) -> Seq<u8>
    decreases events.len(),
{
    if events.len() == 0 {
        Seq::empty()
    } else {
        let before = events.drop_last();
        bytes_forwarded(l, before) + match action_at(link_after_all(l, before), events.last()) {
            SerialOutput::Forward { bytes, first, announce } => bytes,
            _ => Seq::empty(),
        }
    }
}

/// The rovers are sent the stream as it was read: every byte, in order, and no other.
pub proof fn law_every_byte_is_forwarded(l: LinkView, events: Seq<SerialInput>)
    ensures
        bytes_forwarded(l, events) == bytes_read(events),
    decreases events.len(),
{
    if events.len() > 0 {
        law_every_byte_is_forwarded(l, events.drop_last());
        if let SerialInput::Read(data) = events.last() {
            if data.len() == 0 {
                assert(data =~= Seq::<u8>::empty());
            }
        }
    }
}

/// Every byte read is counted, and nothing else; the count wraps around.
pub proof fn law_every_byte_is_counted(l: LinkView, events: Seq<SerialInput>)
    requires
        0 <= l.bytes < 0x1_0000_0000_0000_0000,
    ensures
        link_after_all(l, events).bytes == (l.bytes + bytes_read(events).len())
            % 0x1_0000_0000_0000_0000,
    decreases events.len(),
{
    if events.len() > 0 {
        law_every_byte_is_counted(l, events.drop_last());
    }
}

/// The port counts as open from where it was opened to where it cannot be read or is at
/// its end, and exactly there, or where it cannot be opened, it is opened again.
pub proof fn law_link_is_up_while_open(l: LinkView, event: SerialInput)
    ensures
        ({
            let at_end = event == SerialInput::ReadFailed || (event matches SerialInput::Read(data)
                && data.len() == 0);
            &&& link_after(l, event).up <==> event == SerialInput::Opened || (l.up && !at_end)
            &&& action_at(l, event) == SerialOutput::Reopen <==> at_end || event
                == SerialInput::OpenFailed
            &&& action_at(l, event) == SerialOutput::Read <==> event == SerialInput::Opened
        }),
{
}

/// The first bytes behind an opening are announced as such, and no later ones.
pub proof fn law_first_bytes_are_announced(l: LinkView, first: Seq<u8>, second: Seq<u8>)
    requires
        first.len() > 0,
        second.len() > 0,
    ensures
        ({
            let opened = link_after(l, SerialInput::Opened);
            let read = link_after(l, SerialInput::Read(first));
            &&& action_at(opened, SerialInput::Read(first))->first
            &&& !action_at(read, SerialInput::Read(second))->first
        }),
{
}

/// Byte strings, one behind the other.
pub open spec fn stream_of(reads: Seq<Seq<u8>>) -> Seq<u8>
    decreases reads.len(),
{
    if reads.len() == 0 {
        Seq::empty()
    } else {
        stream_of(reads.drop_last()) + reads.last()
    }
}

/// The link after an opening and a run of reads.
pub open spec fn link_after_reads(l: LinkView, reads: Seq<Seq<u8>>) -> LinkView
    decreases reads.len(),
{
    if reads.len() == 0 {
        link_after(l, SerialInput::Opened)
    } else {
        link_after(link_after_reads(l, reads.drop_last()), SerialInput::Read(reads.last()))
    }
}

/// What is read between an opening and the next is one stream: however it is cut, the
/// status is that of the whole, and nothing from before the opening is mixed in.
pub proof fn law_reads_are_one_stream(l: LinkView, reads: Seq<Seq<u8>>)
    requires
        reads.len() > 0,
        forall|i: int| 0 <= i < reads.len() ==> (#[trigger] reads[i]).len() > 0,
    ensures
        link_after_reads(l, reads).gnss == gnss_after(l.gnss, frames_in(stream_of(reads))),
        link_after_reads(l, reads).held == left_over(stream_of(reads)),
    decreases reads.len(),
{
    let before = reads.drop_last();
    let last = reads.last();
    let none = Seq::<u8>::empty();
    assert(reads[reads.len() - 1].len() > 0);
    if before.len() == 0 {
        assert(stream_of(before) == none);
        assert(link_after_reads(l, before) == link_after(l, SerialInput::Opened));
        assert(none + last =~= last);
    } else {
        assert forall|i: int| 0 <= i < before.len() implies (#[trigger] before[i]).len() > 0 by {
            assert(before[i] == reads[i]);
        }
        law_reads_are_one_stream(l, before);
        let a = stream_of(before);
        assert(none + a =~= a);
        law_status_in_pieces(l.gnss, none, a, last);
        law_scan_in_pieces(a, last);
    }
}

impl SerialLink {
    /// The deframer is in order.
    pub open spec fn wf(&self) -> bool {
        self.deframer.wf()
    }

    pub fn new() -> (s: SerialLink)
        ensures
            !s.up,
            s.bytes == 0,
            !s.got_data,
            s.wf(),
            s.deframer@ == Seq::<u8>::empty(),
            s.gnss@ == gnss_start(),
    {
        SerialLink {
            up: false,
            bytes: 0,
            got_data: false,
            deframer: Deframer::new(),
            gnss: GnssData::new(),
        }
    }

    /// Takes an event and says what to do next. Bytes are forwarded as they were
    /// read, and decoded on the side; the port is opened again when it cannot be
    /// opened or read, or is at its end.
    pub fn step(&mut self, event: SerialEvent<'_>) -> (action: SerialAction)
        requires
            old(self).wf(),
            event matches SerialEvent::Read(data) ==> old(self).deframer@.len() + data@.len()
                <= isize::MAX,
        ensures
            final(self).wf(),
            final(self)@ == link_after(old(self)@, event.input()),
            action.output() == action_at(old(self)@, event.input()),
            match event {
                SerialEvent::Opened => {
                    &&& action is Read
                    &&& final(self).up
                    &&& !final(self).got_data
                    &&& final(self).deframer@ == Seq::<u8>::empty()
                    &&& final(self).bytes == old(self).bytes
                    &&& final(self).gnss@ == old(self).gnss@
                },
                SerialEvent::OpenFailed => action is Reopen && *final(self) == *old(self),
                SerialEvent::Read(data) => if data@.len() == 0 {
                    action is Reopen && *final(self) == (SerialLink { up: false, ..*old(self) })
                } else {
                    let stream = old(self).deframer@ + data@;
                    &&& action is Forward
                    &&& action->bytes@ == data@
                    &&& action->first == !old(self).got_data
                    &&& action->announce == summary_due(
                        absorb_all(old(self).gnss@, frames_in(stream)),
                    )
                    &&& final(self).up == old(self).up
                    &&& final(self).got_data
                    &&& final(self).bytes == (old(self).bytes + data@.len())
                        % 0x1_0000_0000_0000_0000
                    &&& final(self).deframer@ == left_over(stream)
                    &&& final(self).gnss@ == gnss_after(old(self).gnss@, frames_in(stream))
                },
                SerialEvent::ReadFailed => action is Reopen && *final(self) == (SerialLink {
                    up: false,
                    ..*old(self)
                }),
            },
    {
        match event {
            SerialEvent::Opened => {
                self.up = true;
                self.got_data = false;
                self.deframer = Deframer::new();
                SerialAction::Read
            },
            SerialEvent::OpenFailed => SerialAction::Reopen,
            SerialEvent::Read(data) => {
                if data.len() == 0 {
                    self.up = false;
                    return SerialAction::Reopen;
                }
                let first: bool = !self.got_data;
                self.got_data = true;
                self.bytes = self.bytes.wrapping_add(data.len() as u64);
                let announce: bool = self.gnss.update_gnss(&mut self.deframer, data);
                SerialAction::Forward { bytes: slice_to_vec(data), first, announce }
            },
            SerialEvent::ReadFailed => {
                self.up = false;
                SerialAction::Reopen
            },
        }
    }
}

impl SerialLink {
    /// The line that a heartbeat logs of the link as it stands: `health` is what the
    /// heartbeat found, `secs` and `rate` are its period and the bytes per second,
    /// written out, and `text` is the known base position, written out.
    pub fn heartbeat_line(
        &self,
        health: LinkHealth,
        secs: &str,
        rate: &str,
        text: &PositionText,
        clients: usize,
    ) -> (s: String)
        ensures
            s@ == heartbeat_text(
                health,
                secs@,
                rate@,
                sats_line_of(self.gnss@.sats),
                pos_line_of(self.gnss@.pos, text),
                clients as nat,
            ),
    {
        let t = HeartbeatText {
            secs: secs.to_string(),
            rate: rate.to_string(),
            sats: self.gnss.sats_line(),
            pos: self.gnss.pos_line(text),
        };
        heartbeat_line(health, &t, clients)
    }
}

/// What a heartbeat finds.
#[derive(Clone, Copy, Debug, PartialEq, Eq, Structural)]
pub enum LinkHealth {
    /// The port is not open.
    Down,
    /// The port is open, but no data came since the last heartbeat.
    Stalled,
    /// Data came since the last heartbeat.
    Up,
}

/// The bytes that came between two readings of a counter that only grows.
pub open spec fn bytes_since(last: u64, total: u64) -> int {
    if total >= last {
        total - last
    } else {
        0
    }
}

/// The heartbeats account for every byte: as long as the counter does not wrap
/// around, what two of them report in turn is what one in place of both would.
pub proof fn law_heartbeats_add_up(last: u64, mid: u64, total: u64)
    requires
        last <= mid <= total,
    ensures
        bytes_since(last, mid) + bytes_since(mid, total) == bytes_since(last, total),
{
}

/// What a heartbeat finds.
pub open spec fn health_of(up: bool, delta: int) -> LinkHealth {
    if !up {
        LinkHealth::Down
    } else if delta == 0 {
        LinkHealth::Stalled
    } else {
        LinkHealth::Up
    }
}

/// What a heartbeat finds: with the port not open, that the link is down; with the port
/// open, that it stalled exactly where no byte came since the last heartbeat, and that it
/// is up exactly where at least one came.
pub proof fn law_heartbeat_finding(up: bool, last: u64, total: u64)
    ensures
        health_of(up, bytes_since(last, total)) == LinkHealth::Down <==> !up,
        health_of(up, bytes_since(last, total)) == LinkHealth::Stalled <==> up && total <= last,
        health_of(up, bytes_since(last, total)) == LinkHealth::Up <==> up && total > last,
{
}

/// The bytes that came since a reading lead from it to the next, and are none where the
/// counter went back.
pub proof fn law_bytes_since_a_reading(last: u64, total: u64)
    ensures
        last <= total ==> last + bytes_since(last, total) == total,
        last > total ==> bytes_since(last, total) == 0,
{
}

/// The reading that the next heartbeat counts from.
pub open spec fn reading_after(last: u64, total: u64) -> u64 {
    total
}

/// Each heartbeat counts from where the one before it stopped: as long as the counter does
/// not go back, what the two report adds up to what came in all.
pub proof fn law_next_heartbeat_counts_on(last: u64, total: u64, next: u64)
    requires
        last <= total <= next,
    ensures
        bytes_since(last, total) + bytes_since(reading_after(last, total), next) == next - last,
{
}

/// The line of a heartbeat is made of its texts, each in its place.
pub proof fn law_heartbeat_line(health: LinkHealth, t: &HeartbeatText, clients: nat)
    ensures
        heartbeat_line_of(health, t, clients) == heartbeat_text(
            health,
            t.secs@,
            t.rate@,
            t.sats@,
            t.pos@,
            clients,
        ),
{
}

/// A heartbeat of a link that is up gives the rate, the satellites, the position and the
/// clients; of one that stalled, the period and the clients; of one that is down, the
/// clients alone.
pub proof fn law_heartbeat_text(
    secs: Seq<char>,
    rate: Seq<char>,
    sats: Seq<char>,
    pos: Seq<char>,
    clients: nat,
)
    ensures
        heartbeat_text(LinkHealth::Up, secs, rate, sats, pos, clients) == "heartbeat: UP "@ + rate
            + " B/s | sats "@ + sats + " | base "@ + pos + " | "@ + decimal(clients)
            + " client(s)"@,
        heartbeat_text(LinkHealth::Stalled, secs, rate, sats, pos, clients)
            == "heartbeat: serial port OPEN but received NO data in last "@ + secs
            + "s — receiver stalled? — "@ + decimal(clients) + " client(s)"@,
        heartbeat_text(LinkHealth::Down, secs, rate, sats, pos, clients)
            == "heartbeat: serial link DOWN (port not open) — "@ + decimal(clients)
            + " client(s) waiting"@,
{
}

/// The periodic check on the link.
#[derive(Clone, Copy, Debug, PartialEq, Eq, Structural)]
pub struct Heartbeat {
    /// Bytes read in all, at the last heartbeat.
    pub last_bytes: u64,
}

impl Heartbeat {
    pub fn new() -> (h: Heartbeat)
        ensures
            h.last_bytes == 0,
    {
        Heartbeat { last_bytes: 0 }
    }

    /// Takes the state of the link; returns what the heartbeat finds, and how many
    /// bytes came since the last one.
    pub fn tick(&mut self, up: bool, total: u64) -> (r: (LinkHealth, u64))
        ensures
            final(self).last_bytes == total,
            final(self).last_bytes == reading_after(old(self).last_bytes, total),
            r.1 == bytes_since(old(self).last_bytes, total),
            r.0 == health_of(up, r.1 as int),
    {
        let delta: u64 = if total >= self.last_bytes {
            total - self.last_bytes
        } else {
            0
        };
        self.last_bytes = total;
        let health: LinkHealth = if !up {
            LinkHealth::Down
        } else if delta == 0 {
            LinkHealth::Stalled
        } else {
            LinkHealth::Up
        };
        (health, delta)
    }
}

/// What a heartbeat says besides its finding, with its numbers written out.
#[derive(Debug)]
pub struct HeartbeatText {
    /// Seconds between heartbeats.
    pub secs: String,
    /// Bytes per second since the last heartbeat.
    pub rate: String,
    /// Satellites per constellation.
    pub sats: String,
    /// Base position.
    pub pos: String,
}

/// The line that a heartbeat logs, with what it says besides its finding: seconds
/// between heartbeats, bytes per second, satellites per constellation, base position.
pub open spec fn heartbeat_text(
    health: LinkHealth,
    secs: Seq<char>,
    rate: Seq<char>,
    sats: Seq<char>,
    pos: Seq<char>,
    clients: nat,
) -> Seq<char> {
    match health {
        LinkHealth::Down => "heartbeat: serial link DOWN (port not open) — "@ + decimal(clients)
            + " client(s) waiting"@,
        LinkHealth::Stalled => "heartbeat: serial port OPEN but received NO data in last "@ + secs
            + "s — receiver stalled? — "@ + decimal(clients) + " client(s)"@,
        LinkHealth::Up => "heartbeat: UP "@ + rate + " B/s | sats "@ + sats + " | base "@ + pos
            + " | "@ + decimal(clients) + " client(s)"@,
    }
}

/// The line that a heartbeat logs.
pub open spec fn heartbeat_line_of(health: LinkHealth, t: &HeartbeatText, clients: nat) -> Seq<
    char,
> {
    heartbeat_text(health, t.secs@, t.rate@, t.sats@, t.pos@, clients)
}

/// The line that a heartbeat logs.
pub fn heartbeat_line(health: LinkHealth, t: &HeartbeatText, clients: usize) -> (s: String)
    ensures
        s@ == heartbeat_line_of(health, t, clients as nat),
{
    match health {
        LinkHealth::Down => {
            let mut s = "heartbeat: serial link DOWN (port not open) — ".to_string();
            push_decimal(&mut s, clients as u64);
            s.append(" client(s) waiting");
            s
        },
        LinkHealth::Stalled => {
            let mut s = "heartbeat: serial port OPEN but received NO data in last ".to_string();
            s.append(t.secs.as_str());
            s.append("s — receiver stalled? — ");
            push_decimal(&mut s, clients as u64);
            s.append(" client(s)");
            s
        },
        LinkHealth::Up => {
            let mut s = "heartbeat: UP ".to_string();
            s.append(t.rate.as_str());
            s.append(" B/s | sats ");
            s.append(t.sats.as_str());
            s.append(" | base ");
            s.append(t.pos.as_str());
            s.append(" | ");
            push_decimal(&mut s, clients as u64);
            s.append(" client(s)");
            s
        },
    }
}

} // verus!
