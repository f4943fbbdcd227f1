//! The link handle's state machine. The serial channel itself lives with the
//! caller, which performs each I/O step this module asks for and hands back
//! its outcome; every decision about state and errors is made here.
use vstd::prelude::*;
use crate::codec::{
    command_frame, decode_spec, decode_status, encode_command, status_layout_spec, DecodeError,
    ServoCommand, StatusRecord, StatusView, OUTPUT_COUNT, SERVO_COUNT,
};

verus! {

/// The angle every servo is sent to by the neutral command.
pub const NEUTRAL_ANGLE: u8 = 90;

/// Whether a channel is open.
#[derive(PartialEq, Eq, Structural, Clone, Copy, Debug)]
pub enum LinkState {
    Disconnected,
    Connected,
}

/// The errors of the link layer.
#[derive(PartialEq, Eq, Clone, Debug)]
pub enum LinkError {
    /// The host could not list its serial ports.
    Enumeration(String),
    /// The port could not be opened.
    Connect { descriptor: String, cause: String },
    /// An operation needed an open channel and there was none.
    NotConnected,
    /// Writing or flushing failed.
    Write(String),
    /// Reading failed.
    Read(String),
    /// The answer held no usable status frame.
    Decode(DecodeError),
}

/// Why an attempt to connect failed.
#[derive(PartialEq, Eq, Clone, Debug)]
pub enum ConnectFailure {
    /// Opening the port failed.
    Open(String),
    /// The port opened but the handshake frame could not be written.
    Handshake(String),
}

/// The link handle's state.
pub struct Link {
    state: LinkState,
}

impl View for Link {
    type V = LinkState;

    closed spec fn view(&self) -> LinkState {
        self.state
    }
}

/// The angles of the neutral command: every servo centred.
pub open spec fn neutral_angles() -> Seq<u8> {
    Seq::new(SERVO_COUNT as nat, |i: int| NEUTRAL_ANGLE)
}

/// The flags of the neutral command: every output cleared.
pub open spec fn neutral_outputs() -> Seq<bool> {
    Seq::new(OUTPUT_COUNT as nat, |i: int| false)
}

/// The neutral command: all servos centred, all outputs cleared.
pub fn neutral_command() -> (r: ServoCommand)
    ensures
        r.angles@ == neutral_angles(),
        r.digital_outputs@ == neutral_outputs(),
{
    let mut angles: Vec<u8> = Vec::new();
    let mut i: usize = 0;
    while i < SERVO_COUNT
        invariant
            i <= SERVO_COUNT,
            angles@ == Seq::new(i as nat, |k: int| NEUTRAL_ANGLE),
        decreases SERVO_COUNT - i,
    {
        angles.push(NEUTRAL_ANGLE);
        i += 1;
        assert(angles@ =~= Seq::new(i as nat, |k: int| NEUTRAL_ANGLE));
    }
    let mut outputs: Vec<bool> = Vec::new();
    let mut j: usize = 0;
    while j < OUTPUT_COUNT
        invariant
            j <= OUTPUT_COUNT,
            outputs@ == Seq::new(j as nat, |k: int| false),
        decreases OUTPUT_COUNT - j,
    {
        outputs.push(false);
        j += 1;
        assert(outputs@ =~= Seq::new(j as nat, |k: int| false));
    }
    ServoCommand { angles, digital_outputs: outputs }
}

/// The frame of the neutral command, written after opening a port and as
/// the probe that asks the peer for its status.
pub fn neutral_frame() -> (r: Vec<u8>)
    ensures
        r@ == command_frame(neutral_angles(), neutral_outputs()),
{
    let cmd = neutral_command();
    encode_command(&cmd)
}

/// What a status request yields for a decode result.
pub open spec fn status_outcome(d: Result<StatusView, DecodeError>) -> Result<StatusView, LinkError> {
    match d {
        Ok(v) => Ok(v),
        Err(e) => Err(LinkError::Decode(e)),
    }
}

/// A read outcome as plain values: the bytes read, or the failure's text.
pub open spec fn read_view(outcome: Result<Vec<u8>, String>) -> Result<Seq<u8>, Seq<char>> {
    match outcome {
        Ok(b) => Ok(b@),
        Err(c) => Err(c@),
    }
}

/// One drain by the poller: the next state and what is forwarded to the relay.
/// While disconnected nothing is read and nothing happens; a non-empty read
/// is forwarded, an empty one is not, and a failed read drops the link.
pub open spec fn poll_spec(state: LinkState, outcome: Result<Seq<u8>, Seq<char>>) -> (LinkState, Option<Seq<u8>>) {
    match state {
        LinkState::Disconnected => (LinkState::Disconnected, None),
        LinkState::Connected => match outcome {
            Ok(b) => (LinkState::Connected, if b.len() > 0 { Some(b) } else { None }),
            Err(_) => (LinkState::Disconnected, None),
        },
    }
}

/// The poller run over a sequence of read outcomes: the final state and
/// everything forwarded, in order.
pub open spec fn run_poller(state: LinkState, outcomes: Seq<Result<Seq<u8>, Seq<char>>>) -> (LinkState, Seq<Seq<u8>>)
    decreases outcomes.len(),
{
    if outcomes.len() == 0 {
        (state, Seq::empty())
    } else {
        let (next, fwd) = poll_spec(state, outcomes[0]);
        let (last, rest) = run_poller(next, outcomes.drop_first());
        match fwd {
            Some(b) => (last, seq![b] + rest),
            None => (last, rest),
        }
    }
}

/// A disconnected poller stays idle: however many cycles it runs, and
/// whatever its reads would have returned, it stays disconnected and
/// forwards nothing.
pub proof fn lemma_idle_poller(outcomes: Seq<Result<Seq<u8>, Seq<char>>>)
    ensures
        run_poller(LinkState::Disconnected, outcomes) == (LinkState::Disconnected, Seq::<Seq<u8>>::empty()),
    decreases outcomes.len(),
{
    if outcomes.len() > 0 {
        lemma_idle_poller(outcomes.drop_first());
    }
}

impl Link {
    /// A link with no channel open.
    pub fn new() -> (r: Link)
        ensures
            r@ == LinkState::Disconnected,
    {
        Link { state: LinkState::Disconnected }
    }

    pub fn is_connected(&self) -> (r: bool)
        ensures
            r == (self@ == LinkState::Connected),
    {
        self.state == LinkState::Connected
    }

    /// Records the outcome of opening `descriptor` and writing the handshake
    /// frame to it. Success connects the link; a failure leaves it as it was.
    pub fn finish_connect(&mut self, descriptor: &String, outcome: Result<(), ConnectFailure>) -> (r:
        Result<(), LinkError>)
        ensures
            outcome is Ok ==> r is Ok && final(self)@ == LinkState::Connected,
            outcome matches Err(ConnectFailure::Open(c)) ==> r == Err::<(), LinkError>(
                LinkError::Connect { descriptor: *descriptor, cause: c },
            ) && final(self)@ == old(self)@,
            outcome matches Err(ConnectFailure::Handshake(c)) ==> r == Err::<(), LinkError>(
                LinkError::Write(c),
            ) && final(self)@ == old(self)@,
    {
        match outcome {
            Ok(()) => {
                self.state = LinkState::Connected;
                Ok(())
            },
            Err(ConnectFailure::Open(cause)) => {
                Err(LinkError::Connect { descriptor: descriptor.clone(), cause })
            },
            Err(ConnectFailure::Handshake(cause)) => Err(LinkError::Write(cause)),
        }
    }

    /// The frame to write for `cmd`, or `NotConnected` when no channel is open.
    pub fn prepare_command(&self, cmd: &ServoCommand) -> (r: Result<Vec<u8>, LinkError>)
        requires
            cmd.angles@.len() + cmd.digital_outputs@.len() <= usize::MAX,
        ensures
            self@ == LinkState::Disconnected ==> r == Err::<Vec<u8>, LinkError>(LinkError::NotConnected),
            self@ == LinkState::Connected ==> (r matches Ok(b) && b@ == command_frame(
                cmd.angles@,
                cmd.digital_outputs@,
            )),
    {
        if self.state == LinkState::Connected {
            Ok(encode_command(cmd))
        } else {
            Err(LinkError::NotConnected)
        }
    }

    /// The probe frame that asks the peer for its status, or `NotConnected`.
    pub fn prepare_status_request(&self) -> (r: Result<Vec<u8>, LinkError>)
        ensures
            self@ == LinkState::Disconnected ==> r == Err::<Vec<u8>, LinkError>(LinkError::NotConnected),
            self@ == LinkState::Connected ==> (r matches Ok(b) && b@ == command_frame(
                neutral_angles(),
                neutral_outputs(),
            )),
    {
        if self.state == LinkState::Connected {
            Ok(neutral_frame())
        } else {
            Err(LinkError::NotConnected)
        }
    }

    /// Records the outcome of writing and flushing a frame. A failed write
    /// drops the link, so that nothing more is written to a dead channel.
    pub fn finish_write(&mut self, outcome: Result<(), String>) -> (r: Result<(), LinkError>)
        ensures
            outcome is Ok ==> r is Ok && final(self)@ == old(self)@,
            outcome matches Err(c) ==> r == Err::<(), LinkError>(LinkError::Write(c))
                && final(self)@ == LinkState::Disconnected,
    {
        match outcome {
            Ok(()) => Ok(()),
            Err(cause) => {
                self.state = LinkState::Disconnected;
                Err(LinkError::Write(cause))
            },
        }
    }

    /// Decodes the answer to a status request, or reports the failed read.
    pub fn finish_status(&self, outcome: Result<Vec<u8>, String>) -> (r: Result<StatusRecord, LinkError>)
        ensures
            outcome matches Err(c) ==> r == Err::<StatusRecord, LinkError>(LinkError::Read(c)),
            outcome matches Ok(bytes) ==> match r {
                Ok(rec) => status_outcome(decode_spec(bytes@, status_layout_spec())) == Ok::<
                    StatusView,
                    LinkError,
                >(rec@),
                Err(e) => status_outcome(decode_spec(bytes@, status_layout_spec())) == Err::<
                    StatusView,
                    LinkError,
                >(e),
            },
    {
        match outcome {
            Err(cause) => Err(LinkError::Read(cause)),
            Ok(bytes) => match decode_status(bytes.as_slice()) {
                Ok(rec) => Ok(rec),
                Err(e) => Err(LinkError::Decode(e)),
            },
        }
    }

    /// Records one drain by the poller, as `poll_spec` says, and returns the
    /// bytes to forward to the relay.
    pub fn finish_poll(&mut self, outcome: Result<Vec<u8>, String>) -> (r: Option<Vec<u8>>)
        ensures
            final(self)@ == poll_spec(old(self)@, read_view(outcome)).0,
            r matches Some(b) ==> poll_spec(old(self)@, read_view(outcome)).1 == Some(b@),
            r is None ==> poll_spec(old(self)@, read_view(outcome)).1 is None,
    {
        if self.state == LinkState::Disconnected {
            return None;
        }
        match outcome {
            Ok(bytes) => {
                if bytes.len() > 0 {
                    Some(bytes)
                } else {
                    None
                }
            },
            Err(_) => {
                self.state = LinkState::Disconnected;
                None
            },
        }
    }

    /// Closes the link, whatever its state.
    pub fn disconnect(&mut self)
        ensures
            final(self)@ == LinkState::Disconnected,
    {
        self.state = LinkState::Disconnected;
    }
}

} // verus!
