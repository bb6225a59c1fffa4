use vstd::prelude::*;

use crate::text::{
    format_log_line, format_non_text_line, format_outbound, log_line, non_text_sentinel,
    outbound_line, rfc3339_of, sink_name, transcript_file_name, YEAR_10000_SECS,
};
use crate::users::{recipients_of, UserRegistry};
use crate::writer::{lemma_transcript_keeps_submission_order, stays_open, submitted, written, WriterEvent, WriterState};

verus! {

/// One inbound frame of a session.
pub enum Frame {
    /// A chat message.
    Text(String),
    /// Anything without text.
    NonText,
}

/// The fan-out of one message: the text to deliver and the occupants to deliver it to.
pub struct FanOut {
    pub text: String,
    pub recipients: Vec<usize>,
}

/// What a room does with one inbound frame: the transcript line to record and, for a chat
/// message, the fan-out.
pub struct FrameOutcome {
    pub log_line: String,
    pub fan_out: Option<FanOut>,
}

/// A named room: its occupants, the name of its transcript sink, and the phase of the
/// writer that fills that sink.
pub struct ChatRoom<S> {
    pub name: String,
    pub users: UserRegistry<S>,
    pub transcript: String,
    pub writer: WriterState,
}

impl<S> ChatRoom<S> {
    /// The room `name` with the occupants `users`, created `secs` seconds and `nanos`
    /// nanoseconds after the Unix epoch. Its transcript goes to a fresh sink named from the
    /// name and that instant, and its writer starts out running. `None` for an instant
    /// that the timestamp format cannot express.
    pub fn new(name: String, users: UserRegistry<S>, secs: u64, nanos: u32) -> (r: Option<Self>)
        ensures
            r is Some <==> secs < YEAR_10000_SECS && nanos < 1_000_000_000,
            r matches Some(room) ==> {
                &&& room.name == name
                &&& room.users == users
                &&& room.transcript@ == sink_name(name@, rfc3339_of(secs as int, nanos as int))
                &&& room.writer == WriterState::Running
            },
    {
        match transcript_file_name(name.as_str(), secs, nanos) {
            Some(transcript) => Some(ChatRoom { name, users, transcript, writer: WriterState::Running }),
            None => None,
        }
    }

    /// The transcript line for `msg` sent by `user_id` in this room.
    pub fn log_message(&self, msg: &str, user_id: usize) -> (r: String)
        ensures
            r@ == log_line(self.name@, user_id as nat, msg@),
    {
        format_log_line(self.name.as_str(), user_id, msg)
    }

    /// The fan-out of `msg` sent by `sender`: its outbound text, for every other occupant.
    pub fn broadcast(&self, sender: usize, msg: &str) -> (r: FanOut)
        ensures
            r.text@ == outbound_line(sender as nat, msg@),
            r.recipients@ == recipients_of(self.users.ids(), sender),
    {
        FanOut { text: format_outbound(sender, msg), recipients: self.users.recipients(sender) }
    }

    /// Handles one inbound frame of `sender`: a chat message is recorded and fanned out; a
    /// frame without text is recorded as the sentinel line and goes to nobody.
    pub fn handle_frame(&self, sender: usize, frame: &Frame) -> (r: FrameOutcome)
        ensures
            match frame {
                Frame::Text(msg) => {
                    &&& r.log_line@ == log_line(self.name@, sender as nat, msg@)
                    &&& r.fan_out matches Some(f) && f.text@ == outbound_line(sender as nat, msg@)
                        && f.recipients@ == recipients_of(self.users.ids(), sender)
                },
                Frame::NonText => {
                    &&& r.log_line@ == log_line(self.name@, sender as nat, non_text_sentinel())
                    &&& r.fan_out is None
                },
            },
    {
        match frame {
            Frame::Text(msg) => FrameOutcome {
                log_line: self.log_message(msg.as_str(), sender),
                fan_out: Some(self.broadcast(sender, msg.as_str())),
            },
            Frame::NonText => FrameOutcome {
                log_line: format_non_text_line(self.name.as_str(), sender),
                fan_out: None,
            },
        }
    }
}

/// The transcript lines of the messages `msgs`, sent by `senders` in turn, in room `room`.
pub open spec fn log_lines(room: Seq<char>, senders: Seq<nat>, msgs: Seq<Seq<char>>) -> Seq<Seq<char>> {
    Seq::new(msgs.len(), |i: int| log_line(room, senders[i], msgs[i]))
}

/// When a running writer takes, in order, the lines that `log_message` made for messages of
/// one room, its transcript holds exactly those lines, in the order the messages came.
pub proof fn lemma_room_transcript_in_order(
    room: Seq<char>,
    senders: Seq<nat>,
    msgs: Seq<Seq<char>>,
    events: Seq<WriterEvent>,
)
    requires
        senders.len() == msgs.len(),
        events.len() == msgs.len(),
        forall|i: int| 0 <= i < events.len() ==> (#[trigger] events[i] matches WriterEvent::Line(l)
            && l@ == log_line(room, senders[i], msgs[i])),
    ensures
        written(WriterState::Running, events) == log_lines(room, senders, msgs),
    decreases events.len(),
{
    lemma_lines_stay_open(events);
    lemma_transcript_keeps_submission_order(WriterState::Running, events);
    if events.len() > 0 {
        let rest = events.drop_first();
        lemma_room_transcript_in_order(room, senders.drop_first(), msgs.drop_first(), rest);
        assert(submitted(events) == seq![log_line(room, senders[0], msgs[0])] + submitted(rest));
        assert(log_lines(room, senders, msgs) =~= seq![log_line(room, senders[0], msgs[0])]
            + log_lines(room, senders.drop_first(), msgs.drop_first()));
        lemma_transcript_keeps_submission_order(WriterState::Running, rest);
    } else {
        assert(log_lines(room, senders, msgs) =~= Seq::<Seq<char>>::empty());
    }
}

proof fn lemma_lines_stay_open(events: Seq<WriterEvent>)
    requires
        forall|i: int| 0 <= i < events.len() ==> #[trigger] events[i] is Line,
    ensures
        stays_open(WriterState::Running, events),
    decreases events.len(),
{
    if events.len() > 0 {
        let rest = events.drop_first();
        assert forall|i: int| 0 <= i < rest.len() implies #[trigger] rest[i] is Line by {
            assert(rest[i] == events[i + 1]);
        }
        assert(events[0] is Line);
        lemma_lines_stay_open(rest);
    }
}

} // verus!
