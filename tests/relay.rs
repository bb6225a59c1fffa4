use room_relay::registry::RoomRegistry;
use room_relay::room::{ChatRoom, Frame};
use room_relay::text::{
    decimal_string, format_log_line, format_non_text_line, format_outbound, transcript_file_name,
    transcript_name, YEAR_10000_SECS,
};
use room_relay::users::{IdGenerator, UserRegistry};
use room_relay::writer::{WriterAction, WriterEvent, WriterState};

fn room_with(name: &str, ids: &[usize]) -> ChatRoom<String> {
    let mut users = UserRegistry::new();
    for &id in ids {
        assert!(users.attach(id, format!("sink{}", id)));
    }
    ChatRoom::new(name.to_string(), users, 0, 0).unwrap()
}

#[test]
fn decimal_writes_every_digit() {
    assert_eq!(decimal_string(0), "0");
    assert_eq!(decimal_string(9), "9");
    assert_eq!(decimal_string(10), "10");
    assert_eq!(decimal_string(1234567890), "1234567890");
    assert_eq!(decimal_string(usize::MAX), usize::MAX.to_string());
}

#[test]
fn log_line_names_room_and_user() {
    assert_eq!(format_log_line("lobby", 7, "hi"), "Channel lobby, user 7: hi");
    assert_eq!(format_log_line("", 0, ""), "Channel , user 0: ");
}

#[test]
fn outbound_text_names_sender() {
    assert_eq!(format_outbound(12, "hello there"), "<User#12>: hello there");
}

#[test]
fn non_text_line_holds_sentinel() {
    assert_eq!(
        format_non_text_line("lobby", 3),
        "Channel lobby, user 3: !!!ATTEMPTED TO SEND NON-TEXT MESSAGE!!!"
    );
}

#[test]
fn transcript_name_joins_room_and_stamp() {
    assert_eq!(transcript_name("lobby", "2018-02-14T00:28:07Z"), "lobby_2018-02-14T00:28:07Z.log");
}

#[test]
fn transcript_file_name_formats_creation_time() {
    assert_eq!(
        transcript_file_name("lobby", 0, 0).as_deref(),
        Some("lobby_1970-01-01T00:00:00Z.log")
    );
    assert_eq!(
        transcript_file_name("lobby", 1_518_568_087, 0).as_deref(),
        Some("lobby_2018-02-14T00:28:07Z.log")
    );
    assert_eq!(
        transcript_file_name("other", 1_518_568_087, 500_000_000).as_deref(),
        Some("other_2018-02-14T00:28:07.500000000Z.log")
    );
}

#[test]
fn transcript_file_name_rejects_inexpressible_times() {
    assert_eq!(transcript_file_name("lobby", YEAR_10000_SECS, 0), None);
    assert_eq!(transcript_file_name("lobby", u64::MAX, 0), None);
    assert_eq!(transcript_file_name("lobby", 0, 1_000_000_000), None);
    assert!(transcript_file_name("lobby", YEAR_10000_SECS - 1, 999_999_999).is_some());
}

#[test]
fn attach_refuses_an_attached_id() {
    let mut users: UserRegistry<&str> = UserRegistry::new();
    assert!(users.attach(1, "a"));
    assert!(!users.attach(1, "b"));
    assert_eq!(users.len(), 1);
    assert_eq!(users.sink(1), Some(&"a"));
    assert_eq!(users.sink(2), None);
    assert!(users.contains(1));
    assert!(!users.contains(2));
}

#[test]
fn detach_hands_back_the_sink() {
    let mut users: UserRegistry<&str> = UserRegistry::new();
    users.attach(1, "a");
    users.attach(2, "b");
    assert_eq!(users.detach(1), Some("a"));
    assert_eq!(users.detach(1), None);
    assert_eq!(users.len(), 1);
    assert!(!users.contains(1));
    assert_eq!(users.sink(2), Some(&"b"));
}

#[test]
fn broadcast_excludes_sender() {
    let room = room_with("lobby", &[1, 2, 3]);
    let b = room.broadcast(1, "yo");
    assert_eq!(b.text, "<User#1>: yo");
    assert_eq!(b.recipients, vec![2, 3]);
    assert_eq!(room.broadcast(2, "yo").recipients, vec![1, 3]);
    assert_eq!(room.broadcast(9, "yo").recipients, vec![1, 2, 3]);
}

#[test]
fn broadcast_in_empty_room_reaches_nobody() {
    let room = room_with("lobby", &[]);
    assert!(room.broadcast(1, "anyone?").recipients.is_empty());
    let alone = room_with("lobby", &[1]);
    assert!(alone.broadcast(1, "anyone?").recipients.is_empty());
}

#[test]
fn detached_occupant_gets_no_broadcast() {
    let mut room = room_with("lobby", &[1, 2, 3]);
    assert_eq!(room.users.detach(2), Some("sink2".to_string()));
    assert_eq!(room.broadcast(1, "after").recipients, vec![3]);
}

#[test]
fn ids_are_handed_out_once() {
    let mut ids = IdGenerator::starting_at(1);
    assert_eq!(ids.fresh(), Some(1));
    assert_eq!(ids.fresh(), Some(2));
    let mut last = IdGenerator::starting_at(usize::MAX - 1);
    assert_eq!(last.fresh(), Some(usize::MAX - 1));
    assert_eq!(last.fresh(), None);
    assert_eq!(last.fresh(), None);
}

#[test]
fn connects_share_the_live_room() {
    let mut rooms = RoomRegistry::new();
    let (first, created) = rooms.get_or_create("lobby").unwrap();
    assert!(created);
    assert_eq!(first, 1);
    for _ in 0..5 {
        assert_eq!(rooms.get_or_create("lobby"), Some((first, false)));
    }
    for _ in 0..5 {
        assert!(!rooms.release("lobby", first));
        assert_eq!(rooms.get_or_create("lobby"), Some((first, false)));
        assert!(!rooms.release("lobby", first));
    }
    assert_eq!(rooms.instance_of("lobby"), Some(first));
    assert_eq!(rooms.len(), 1);
}

#[test]
fn teardown_then_connect_creates_new_room() {
    let mut rooms = RoomRegistry::new();
    let (first, _) = rooms.get_or_create("lobby").unwrap();
    assert!(rooms.release("lobby", first));
    assert_eq!(rooms.instance_of("lobby"), None);
    // The stale entry stays until the next connect.
    assert_eq!(rooms.len(), 1);
    let (second, created) = rooms.get_or_create("lobby").unwrap();
    assert!(created);
    assert_ne!(second, first);
    assert_eq!(rooms.len(), 1);
    assert_eq!(rooms.instance_of("lobby"), Some(second));
}

#[test]
fn stale_entries_are_pruned_on_any_connect() {
    let mut rooms = RoomRegistry::new();
    let (a, _) = rooms.get_or_create("a").unwrap();
    let (b, _) = rooms.get_or_create("b").unwrap();
    assert_ne!(a, b);
    assert!(rooms.release("a", a));
    assert_eq!(rooms.len(), 2);
    let (c, created) = rooms.get_or_create("c").unwrap();
    assert!(created);
    assert_eq!(rooms.len(), 2);
    assert_eq!(rooms.instance_of("a"), None);
    assert_eq!(rooms.instance_of("b"), Some(b));
    assert_eq!(rooms.instance_of("c"), Some(c));
}

#[test]
fn release_of_unknown_room_changes_nothing() {
    let mut rooms = RoomRegistry::new();
    assert!(!rooms.release("nowhere", 1));
    let (a, _) = rooms.get_or_create("a").unwrap();
    assert!(!rooms.release("a", a + 1));
    assert!(!rooms.release("b", a));
    assert_eq!(rooms.instance_of("a"), Some(a));
    assert!(rooms.release("a", a));
    assert!(!rooms.release("a", a));
}

fn appended_lines(events: Vec<WriterEvent>) -> (WriterState, Vec<String>) {
    let mut state = WriterState::Running;
    let mut lines = Vec::new();
    for e in events {
        let (next, action) = state.step(e);
        if let WriterAction::Append(l) = action {
            lines.push(l);
        }
        state = next;
    }
    (state, lines)
}

#[test]
fn transcript_keeps_submission_order() {
    let lines: Vec<String> = (1..=20).map(|i| format!("m{}", i)).collect();
    let mut events: Vec<WriterEvent> = Vec::new();
    for (i, l) in lines.iter().enumerate() {
        events.push(WriterEvent::Line(l.clone()));
        if i % 3 == 0 && i < 15 {
            events.push(WriterEvent::QueueEmpty);
        }
        if i == 15 {
            events.push(WriterEvent::Shutdown);
        }
    }
    let (state, written) = appended_lines(events);
    assert_eq!(state, WriterState::Draining);
    assert_eq!(written, lines);
}

#[test]
fn writer_drains_then_flushes_then_closes() {
    let (s, a) = WriterState::Running.step(WriterEvent::Shutdown);
    assert_eq!(s, WriterState::Draining);
    assert!(matches!(a, WriterAction::Wait));
    let (s, a) = s.step(WriterEvent::Line("late".to_string()));
    assert_eq!(s, WriterState::Draining);
    assert!(matches!(a, WriterAction::Append(ref l) if l == "late"));
    let (s, a) = s.step(WriterEvent::QueueEmpty);
    assert_eq!(s, WriterState::Flushing);
    assert!(matches!(a, WriterAction::Flush));
    let (s, a) = s.step(WriterEvent::Line("after drain".to_string()));
    assert_eq!(s, WriterState::Flushing);
    assert!(matches!(a, WriterAction::Wait));
    let (s, a) = s.step(WriterEvent::Flushed);
    assert_eq!(s, WriterState::Stopped);
    assert!(matches!(a, WriterAction::Close));
    let (s, a) = s.step(WriterEvent::Line("gone".to_string()));
    assert_eq!(s, WriterState::Stopped);
    assert!(matches!(a, WriterAction::Wait));
}

#[test]
fn running_writer_ignores_empty_queue_and_stray_flush() {
    let (s, a) = WriterState::Running.step(WriterEvent::QueueEmpty);
    assert_eq!(s, WriterState::Running);
    assert!(matches!(a, WriterAction::Wait));
    let (s, a) = s.step(WriterEvent::Flushed);
    assert_eq!(s, WriterState::Running);
    assert!(matches!(a, WriterAction::Wait));
}

#[test]
fn end_to_end_lobby_and_other() {
    let mut rooms = RoomRegistry::new();
    let mut ids = IdGenerator::starting_at(1);
    let mut live: Vec<(u64, ChatRoom<String>)> = Vec::new();

    let mut connect = |name: &str, live: &mut Vec<(u64, ChatRoom<String>)>| -> (u64, usize) {
        let id = ids.fresh().unwrap();
        let (instance, created) = rooms.get_or_create(name).unwrap();
        if created {
            let room = ChatRoom::new(name.to_string(), UserRegistry::new(), 1_518_568_087, 0);
            live.push((instance, room.unwrap()));
        }
        let room = &mut live.iter_mut().find(|(i, _)| *i == instance).unwrap().1;
        assert!(room.users.attach(id, format!("sink{}", id)));
        (instance, id)
    };

    let (lobby, a) = connect("lobby", &mut live);
    let (lobby_b, b) = connect("lobby", &mut live);
    assert_eq!(lobby, lobby_b);

    let lobby_room = &live.iter().find(|(i, _)| *i == lobby).unwrap().1;
    let out = lobby_room.handle_frame(a, &Frame::Text("hi".to_string()));
    assert_eq!(out.log_line, format!("Channel lobby, user {}: hi", a));
    let fan = out.fan_out.unwrap();
    assert_eq!(fan.text, format!("<User#{}>: hi", a));
    assert_eq!(fan.recipients, vec![b]);

    let (other, c) = connect("other", &mut live);
    assert_ne!(other, lobby);
    let other_room = &live.iter().find(|(i, _)| *i == other).unwrap().1;
    let out = other_room.handle_frame(c, &Frame::Text("x".to_string()));
    assert_eq!(out.log_line, format!("Channel other, user {}: x", c));
    let fan = out.fan_out.unwrap();
    assert!(fan.recipients.is_empty());
    assert!(!fan.recipients.contains(&a) && !fan.recipients.contains(&b));
}

#[test]
fn non_text_frame_is_recorded_and_not_broadcast() {
    let room = room_with("lobby", &[1, 2]);
    let out = room.handle_frame(1, &Frame::NonText);
    assert_eq!(out.log_line, "Channel lobby, user 1: !!!ATTEMPTED TO SEND NON-TEXT MESSAGE!!!");
    assert!(out.fan_out.is_none());
}

#[test]
fn new_room_names_its_transcript_and_runs_its_writer() {
    let mut users: UserRegistry<&str> = UserRegistry::new();
    users.attach(4, "d");
    let room = ChatRoom::new("lobby".to_string(), users, 1_518_568_087, 0).unwrap();
    assert_eq!(room.name, "lobby");
    assert_eq!(room.users.len(), 1);
    assert_eq!(room.transcript, "lobby_2018-02-14T00:28:07Z.log");
    assert_eq!(room.writer, WriterState::Running);
    let later = ChatRoom::<&str>::new("lobby".to_string(), UserRegistry::new(), 1_518_568_088, 0);
    assert_eq!(later.unwrap().transcript, "lobby_2018-02-14T00:28:08Z.log");
}

#[test]
fn new_room_refuses_inexpressible_creation_time() {
    assert!(ChatRoom::<&str>::new("lobby".to_string(), UserRegistry::new(), YEAR_10000_SECS, 0).is_none());
    assert!(ChatRoom::<&str>::new("lobby".to_string(), UserRegistry::new(), 0, 1_000_000_000).is_none());
}
